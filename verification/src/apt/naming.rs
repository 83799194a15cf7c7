//! Which opcodes have a name, and that names tell them apart.
use super::decode::{self, Ctx, Raw};
use super::model;
use super::opcode::{self, mnemonic};
use super::reader::{items, reps, Rd};
use vstd::prelude::*;

verus! {

/// Whether an opcode stands for an instruction.
pub open spec fn known(op: u8) -> bool {
    ||| op == opcode::END
    ||| op == opcode::GOTO_FRAME
    ||| op == opcode::GET_URL
    ||| op == opcode::STORE_REGISTER
    ||| op == opcode::SET_TARGET
    ||| op == opcode::GOTO_LABEL
    ||| op == opcode::GOTO_FRAME2
    ||| op == opcode::PUSH
    ||| op == opcode::DEFINE_DICTIONARY
    ||| op == opcode::DEFINE_FUNCTION
    ||| op == opcode::DEFINE_FUNCTION2
    ||| op == opcode::TRY
    ||| op == opcode::WITH
    ||| op == opcode::BRANCH_ALWAYS
    ||| op == opcode::BRANCH_IF_TRUE
    ||| op == opcode::EA_BRANCH_IF_FALSE
    ||| op == opcode::EA_TRACE_START
    ||| op == opcode::EA_PUSH_REGISTER
    ||| 0xB4 <= op <= 0xB7
    ||| decode::push_string_kind(op) is Some
    ||| decode::dict_ref_kind(op) is Some
    ||| decode::simple(op)
}

/// The code of a character of a text; 0 where the text has none there.
pub open spec fn letter(s: Seq<char>, i: int) -> int {
    if 0 <= i < s.len() {
        s[i] as int
    } else {
        0
    }
}

/// Some characters of a text as one number. They are those by which the names of opcodes
/// differ.
pub open spec fn mark(s: Seq<char>) -> int {
    let n = s.len() as int;
    let a = 128 * letter(s, 0) + letter(s, 1);
    let b = 128 * letter(s, 4) + letter(s, 7);
    let c = 128 * letter(s, 8) + letter(s, 13);
    let d = 128 * letter(s, n - 3) + letter(s, n - 6);
    0x4000 * (0x4000 * (0x4000 * a + b) + c) + d
}

/// The marks of the names of the opcodes.
pub open spec fn mark_of(op: u8) -> int {
    if op == opcode::END {
        0x8bb80000002280
    } else if op == opcode::NEXT_FRAME {
        0x9d9636dca030f4
    } else if op == opcode::PREV_FRAME {
        0xa1ca36dca030f6
    } else if op == opcode::PLAY {
        0xa1b00000003600
    } else if op == opcode::STOP {
        0xa7d00000003a00
    } else if op == opcode::TOGGLE_QUALITY {
        0xa9bf675c2034f5
    } else if op == opcode::STOP_SOUNDS {
        0xa7d29eec803753
    } else if op == opcode::ADD {
        0x83900000002080
    } else if op == opcode::SUBTRACT {
        0xa7d797400030e2
    } else if op == opcode::MULTIPLY {
        0x9bd74f9000386c
    } else if op == opcode::DIVIDE {
        0x89a720000034c4
    } else if op == opcode::EQUALS {
        0x8bc760000030c5
    } else if op == opcode::LESS_THAN {
        0x9996a6e0003473
    } else if op == opcode::AND {
        0x83b80000002080
    } else if op == opcode::OR {
        0x9fc80000000000
    } else if op == opcode::NOT {
        0x9dbc0000002700
    } else if op == opcode::STRING_EQUALS {
        0xa7d3771ea030c5
    } else if op == opcode::STRING_LENGTH {
        0xa7d3765dc033cc
    } else if op == opcode::SUB_STRING {
        0xa7d7a6ece034d3
    } else if op == opcode::POP {
        0xa1bc0000002800
    } else if op == opcode::TO_INTEGER {
        0xa9bfa65e4033ee
    } else if op == opcode::GET_VARIABLE {
        0x8f970e1c403172
    } else if op == opcode::SET_VARIABLE {
        0xa7970e1c403172
    } else if op == opcode::SET_TARGET2 {
        0xa7970e5e8032e1
    } else if op == opcode::STRING_ADD {
        0xa7d3764c8020e9
    } else if op == opcode::GET_PROPERTY {
        0x8f97965e40396f
    } else if op == opcode::SET_PROPERTY {
        0xa797965e40396f
    } else if op == opcode::CLONE_SPRITE {
        0x87b32f2d2034d3
    } else if op == opcode::REMOVE_SPRITE {
        0xa597b70e4034d3
    } else if op == opcode::TRACE {
        0xa9cb2800003080
    } else if op == opcode::START_DRAG {
        0xa7d3a61cf97b67
    } else if op == opcode::STOP_DRAG {
        0xa7d22679a03b67
    } else if op == opcode::STRING_LESS_THAN {
        0xa7d3765e7bb473
    } else if op == opcode::THROW {
        0xa9a3b800003900
    } else if op == opcode::CAST_OP {
        0x87867800003a43
    } else if op == opcode::IMPLEMENTS_OP {
        0x93b72eee8039e5
    } else if op == opcode::RANDOM {
        0xa5877800003252
    } else if op == opcode::MB_LENGTH {
        0x9b0b76800033cc
    } else if op == opcode::CHAR_TO_ASCII {
        0x87a2a73c6031ef
    } else if op == opcode::ASCII_TO_CHAR {
        0x83cf4c3d003454
    } else if op == opcode::GET_TIMER {
        0x8f974f200036f4
    } else if op == opcode::MB_SUB_STRING {
        0x9b0b172d2034d3
    } else if op == opcode::MB_CHAR_TO_ASCII {
        0x9b0b0ef82031ef
    } else if op == opcode::MB_ASCII_TO_CHAR {
        0x9b0b1d4de03454
    } else if op == opcode::DELETE {
        0x8997a0000032c4
    } else if op == opcode::DELETE2 {
        0x8997a000003a65
    } else if op == opcode::DEFINE_LOCAL {
        0x899776fc6031e5
    } else if op == opcode::CALL_FUNCTION {
        0x8786363e8034ee
    } else if op == opcode::RETURN {
        0xa5979000003ad2
    } else if op == opcode::MODULO {
        0x9bbf6000003acd
    } else if op == opcode::NEW_OBJECT {
        0x9d97163e8032cf
    } else if op == opcode::DEFINE_LOCAL2 {
        0x899776fc6030cc
    } else if op == opcode::INIT_ARRAY {
        0x93ba0e1f203974
    } else if op == opcode::INIT_OBJECT {
        0x93ba7e5c6032cf
    } else if op == opcode::TYPE_OF {
        0xa9e678000032d4
    } else if op == opcode::TARGET_PATH {
        0xa9872e1e8030e5
    } else if op == opcode::ENUMERATE {
        0x8bbb2f4ca030ed
    } else if op == opcode::ADD2 {
        0x83900000003200
    } else if op == opcode::LESS_THAN2 {
        0x9996a6e64030f3
    } else if op == opcode::EQUALS2 {
        0x8bc76000003671
    } else if op == opcode::TO_NUMBER {
        0xa9bf6f2000314e
    } else if op == opcode::TO_STRING {
        0xa9bf96700034d3
    } else if op == opcode::PUSH_DUPLICATE {
        0xa1d626cd2030ec
    } else if op == opcode::STACK_SWAP {
        0xa7d35e1e003be3
    } else if op == opcode::GET_MEMBER {
        0x8f972e5e40314d
    } else if op == opcode::SET_MEMBER {
        0xa7972e5e40314d
    } else if op == opcode::INCREMENT {
        0x93bb2eee8032f2
    } else if op == opcode::DECREMENT {
        0x89972eee8032f2
    } else if op == opcode::CALL_METHOD {
        0x87866e8de0344d
    } else if op == opcode::NEW_METHOD {
        0x9d972efc80344d
    } else if op == opcode::INSTANCE_OF {
        0x93bb0e59e032e1
    } else if op == opcode::ENUMERATE2 {
        0x8bbb2f4ca03a65
    } else if op == opcode::EA_PUSH_THIS {
        0x8b07ad4d003473
    } else if op == opcode::EA_PUSH_GLOBAL {
        0x8b07ac7d803147
    } else if op == opcode::EA_PUSH_ZERO {
        0x8b07ab000039ba
    } else if op == opcode::EA_PUSH_ONE {
        0x8b07ab100039ba
    } else if op == opcode::EA_CALL_FUNC_POP {
        0x8b070c6eb92841
    } else if op == opcode::EA_CALL_FUNC_SET_VAR {
        0x8b070c6ebd2b53
    } else if op == opcode::EA_CALL_METHOD_POP {
        0x8b070cdcb42868
    } else if op == opcode::EA_CALL_METHOD_SET_VAR {
        0x8b070cdcb4eb53
    } else if op == opcode::BIT_AND {
        0x85a770000020c2
    } else if op == opcode::BIT_OR {
        0x85a79000003a00
    } else if op == opcode::BIT_XOR {
        0x85a77800002c42
    } else if op == opcode::BIT_LSHIFT {
        0x85a69e6e8034cc
    } else if op == opcode::BIT_RSHIFT {
        0x85a69e6e8034d2
    } else if op == opcode::BIT_URSHIFT {
        0x85a6969cc034d2
    } else if op == opcode::STRICT_EQUALS {
        0xa7d31f1ea030c5
    } else if op == opcode::GREATER {
        0x8fcba000003a72
    } else if op == opcode::EXTENDS {
        0x8be37000003778
    } else if op == opcode::EA_PUSH_THIS_VAR {
        0x8b07ad4d1cb172
    } else if op == opcode::EA_PUSH_GLOBAL_VAR {
        0x8b07ac7d95b172
    } else if op == opcode::EA_PUSH_ZERO_SET_VAR {
        0x8b07adacbd2b53
    } else if op == opcode::EA_PUSH_TRUE {
        0x8b07ad4e403973
    } else if op == opcode::EA_PUSH_FALSE {
        0x8b07ac6c203668
    } else if op == opcode::EA_PUSH_NULL {
        0x8b07aceea03af3
    } else if op == opcode::EA_PUSH_UNDEFINED {
        0x8b07ad5ddbb765
    } else if op == opcode::EA_TRACE_START {
        0x8b07965a6030e5
    } else if op == opcode::GOTO_FRAME {
        0x8fbe36dca030ef
    } else if op == opcode::GET_URL {
        0x8f979000002ac7
    } else if op == opcode::STORE_REGISTER {
        0xa7d32e7d203a67
    } else if op == opcode::DEFINE_DICTIONARY {
        0x8b072eecba70e9
    } else if op == opcode::WAIT_FOR_FRAME {
        0xaf86346e4030f2
    } else if op == opcode::SET_TARGET {
        0xa7970e5e8033d4
    } else if op == opcode::GOTO_LABEL {
        0x8fbe665d80316f
    } else if op == opcode::DEFINE_FUNCTION2 {
        0x8997775ddbb7e3
    } else if op == opcode::TRY {
        0xa9c80000002a00
    } else if op == opcode::WITH {
        0xafa40000003480
    } else if op == opcode::PUSH {
        0xa1d40000003a80
    } else if op == opcode::BRANCH_ALWAYS {
        0x85cb1ecee030c1
    } else if op == opcode::GET_URL2 {
        0x8f979000003965
    } else if op == opcode::DEFINE_FUNCTION {
        0x8997775ddbb4ee
    } else if op == opcode::BRANCH_IF_TRUE {
        0x85cb1e6a803949
    } else if op == opcode::CALL_FRAME {
        0x878636dca030ec
    } else if op == opcode::GOTO_FRAME2 {
        0x8fbe36dca036c6
    } else if op == 0xA1 {
        0x8b07ad3e8034d3
    } else if op == 0xA2 {
        0x8b07ad3e913ce3
    } else if op == 0xA3 {
        0x8b07ad3e9137e3
    } else if op == 0xA4 {
        0x8b07ad3e91eb47
    } else if op == 0xA5 {
        0x8b07ad3e91f14d
    } else if op == 0xA6 {
        0x8b07ad3e94eb53
    } else if op == 0xA7 {
        0x8b07ad3e94f14d
    } else if op == 0xAE {
        0x8b07a6ecf0ab47
    } else if op == 0xAF {
        0x8b07a6ecf0b14d
    } else if op == 0xB0 {
        0x8b074c3c3ba875
    } else if op == 0xB1 {
        0x8b074c3c3bab53
    } else if op == 0xB2 {
        0x8b074c3c3d2868
    } else if op == 0xB3 {
        0x8b074c3c3d2b53
    } else if op == 0xB4 {
        0x8b07ac6d8037e8
    } else if op == 0xB5 {
        0x8b07ac2f203cf3
    } else if op == 0xB6 {
        0x8b07ad7de037f3
    } else if op == 0xB7 {
        0x8b07ac4ae037e8
    } else if op == opcode::EA_BRANCH_IF_FALSE {
        0x8b07963d1b3666
    } else if op == opcode::EA_PUSH_REGISTER {
        0x8b07ad2cb97a67
    } else if op == opcode::BREAKPOINT {
        0x85cb5e9dc034eb
    } else {
        0x79a70e47c034f6
    }
}

/// The opcode whose name has a mark.
pub open spec fn marked(mark: int) -> Option<u8> {
    if mark == 0x8bb80000002280 {
        Some(opcode::END)
    } else if mark == 0x9d9636dca030f4 {
        Some(opcode::NEXT_FRAME)
    } else if mark == 0xa1ca36dca030f6 {
        Some(opcode::PREV_FRAME)
    } else if mark == 0xa1b00000003600 {
        Some(opcode::PLAY)
    } else if mark == 0xa7d00000003a00 {
        Some(opcode::STOP)
    } else if mark == 0xa9bf675c2034f5 {
        Some(opcode::TOGGLE_QUALITY)
    } else if mark == 0xa7d29eec803753 {
        Some(opcode::STOP_SOUNDS)
    } else if mark == 0x83900000002080 {
        Some(opcode::ADD)
    } else if mark == 0xa7d797400030e2 {
        Some(opcode::SUBTRACT)
    } else if mark == 0x9bd74f9000386c {
        Some(opcode::MULTIPLY)
    } else if mark == 0x89a720000034c4 {
        Some(opcode::DIVIDE)
    } else if mark == 0x8bc760000030c5 {
        Some(opcode::EQUALS)
    } else if mark == 0x9996a6e0003473 {
        Some(opcode::LESS_THAN)
    } else if mark == 0x83b80000002080 {
        Some(opcode::AND)
    } else if mark == 0x9fc80000000000 {
        Some(opcode::OR)
    } else if mark == 0x9dbc0000002700 {
        Some(opcode::NOT)
    } else if mark == 0xa7d3771ea030c5 {
        Some(opcode::STRING_EQUALS)
    } else if mark == 0xa7d3765dc033cc {
        Some(opcode::STRING_LENGTH)
    } else if mark == 0xa7d7a6ece034d3 {
        Some(opcode::SUB_STRING)
    } else if mark == 0xa1bc0000002800 {
        Some(opcode::POP)
    } else if mark == 0xa9bfa65e4033ee {
        Some(opcode::TO_INTEGER)
    } else if mark == 0x8f970e1c403172 {
        Some(opcode::GET_VARIABLE)
    } else if mark == 0xa7970e1c403172 {
        Some(opcode::SET_VARIABLE)
    } else if mark == 0xa7970e5e8032e1 {
        Some(opcode::SET_TARGET2)
    } else if mark == 0xa7d3764c8020e9 {
        Some(opcode::STRING_ADD)
    } else if mark == 0x8f97965e40396f {
        Some(opcode::GET_PROPERTY)
    } else if mark == 0xa797965e40396f {
        Some(opcode::SET_PROPERTY)
    } else if mark == 0x87b32f2d2034d3 {
        Some(opcode::CLONE_SPRITE)
    } else if mark == 0xa597b70e4034d3 {
        Some(opcode::REMOVE_SPRITE)
    } else if mark == 0xa9cb2800003080 {
        Some(opcode::TRACE)
    } else if mark == 0xa7d3a61cf97b67 {
        Some(opcode::START_DRAG)
    } else if mark == 0xa7d22679a03b67 {
        Some(opcode::STOP_DRAG)
    } else if mark == 0xa7d3765e7bb473 {
        Some(opcode::STRING_LESS_THAN)
    } else if mark == 0xa9a3b800003900 {
        Some(opcode::THROW)
    } else if mark == 0x87867800003a43 {
        Some(opcode::CAST_OP)
    } else if mark == 0x93b72eee8039e5 {
        Some(opcode::IMPLEMENTS_OP)
    } else if mark == 0xa5877800003252 {
        Some(opcode::RANDOM)
    } else if mark == 0x9b0b76800033cc {
        Some(opcode::MB_LENGTH)
    } else if mark == 0x87a2a73c6031ef {
        Some(opcode::CHAR_TO_ASCII)
    } else if mark == 0x83cf4c3d003454 {
        Some(opcode::ASCII_TO_CHAR)
    } else if mark == 0x8f974f200036f4 {
        Some(opcode::GET_TIMER)
    } else if mark == 0x9b0b172d2034d3 {
        Some(opcode::MB_SUB_STRING)
    } else if mark == 0x9b0b0ef82031ef {
        Some(opcode::MB_CHAR_TO_ASCII)
    } else if mark == 0x9b0b1d4de03454 {
        Some(opcode::MB_ASCII_TO_CHAR)
    } else if mark == 0x8997a0000032c4 {
        Some(opcode::DELETE)
    } else if mark == 0x8997a000003a65 {
        Some(opcode::DELETE2)
    } else if mark == 0x899776fc6031e5 {
        Some(opcode::DEFINE_LOCAL)
    } else if mark == 0x8786363e8034ee {
        Some(opcode::CALL_FUNCTION)
    } else if mark == 0xa5979000003ad2 {
        Some(opcode::RETURN)
    } else if mark == 0x9bbf6000003acd {
        Some(opcode::MODULO)
    } else if mark == 0x9d97163e8032cf {
        Some(opcode::NEW_OBJECT)
    } else if mark == 0x899776fc6030cc {
        Some(opcode::DEFINE_LOCAL2)
    } else if mark == 0x93ba0e1f203974 {
        Some(opcode::INIT_ARRAY)
    } else if mark == 0x93ba7e5c6032cf {
        Some(opcode::INIT_OBJECT)
    } else if mark == 0xa9e678000032d4 {
        Some(opcode::TYPE_OF)
    } else if mark == 0xa9872e1e8030e5 {
        Some(opcode::TARGET_PATH)
    } else if mark == 0x8bbb2f4ca030ed {
        Some(opcode::ENUMERATE)
    } else if mark == 0x83900000003200 {
        Some(opcode::ADD2)
    } else if mark == 0x9996a6e64030f3 {
        Some(opcode::LESS_THAN2)
    } else if mark == 0x8bc76000003671 {
        Some(opcode::EQUALS2)
    } else if mark == 0xa9bf6f2000314e {
        Some(opcode::TO_NUMBER)
    } else if mark == 0xa9bf96700034d3 {
        Some(opcode::TO_STRING)
    } else if mark == 0xa1d626cd2030ec {
        Some(opcode::PUSH_DUPLICATE)
    } else if mark == 0xa7d35e1e003be3 {
        Some(opcode::STACK_SWAP)
    } else if mark == 0x8f972e5e40314d {
        Some(opcode::GET_MEMBER)
    } else if mark == 0xa7972e5e40314d {
        Some(opcode::SET_MEMBER)
    } else if mark == 0x93bb2eee8032f2 {
        Some(opcode::INCREMENT)
    } else if mark == 0x89972eee8032f2 {
        Some(opcode::DECREMENT)
    } else if mark == 0x87866e8de0344d {
        Some(opcode::CALL_METHOD)
    } else if mark == 0x9d972efc80344d {
        Some(opcode::NEW_METHOD)
    } else if mark == 0x93bb0e59e032e1 {
        Some(opcode::INSTANCE_OF)
    } else if mark == 0x8bbb2f4ca03a65 {
        Some(opcode::ENUMERATE2)
    } else if mark == 0x8b07ad4d003473 {
        Some(opcode::EA_PUSH_THIS)
    } else if mark == 0x8b07ac7d803147 {
        Some(opcode::EA_PUSH_GLOBAL)
    } else if mark == 0x8b07ab000039ba {
        Some(opcode::EA_PUSH_ZERO)
    } else if mark == 0x8b07ab100039ba {
        Some(opcode::EA_PUSH_ONE)
    } else if mark == 0x8b070c6eb92841 {
        Some(opcode::EA_CALL_FUNC_POP)
    } else if mark == 0x8b070c6ebd2b53 {
        Some(opcode::EA_CALL_FUNC_SET_VAR)
    } else if mark == 0x8b070cdcb42868 {
        Some(opcode::EA_CALL_METHOD_POP)
    } else if mark == 0x8b070cdcb4eb53 {
        Some(opcode::EA_CALL_METHOD_SET_VAR)
    } else if mark == 0x85a770000020c2 {
        Some(opcode::BIT_AND)
    } else if mark == 0x85a79000003a00 {
        Some(opcode::BIT_OR)
    } else if mark == 0x85a77800002c42 {
        Some(opcode::BIT_XOR)
    } else if mark == 0x85a69e6e8034cc {
        Some(opcode::BIT_LSHIFT)
    } else if mark == 0x85a69e6e8034d2 {
        Some(opcode::BIT_RSHIFT)
    } else if mark == 0x85a6969cc034d2 {
        Some(opcode::BIT_URSHIFT)
    } else if mark == 0xa7d31f1ea030c5 {
        Some(opcode::STRICT_EQUALS)
    } else if mark == 0x8fcba000003a72 {
        Some(opcode::GREATER)
    } else if mark == 0x8be37000003778 {
        Some(opcode::EXTENDS)
    } else if mark == 0x8b07ad4d1cb172 {
        Some(opcode::EA_PUSH_THIS_VAR)
    } else if mark == 0x8b07ac7d95b172 {
        Some(opcode::EA_PUSH_GLOBAL_VAR)
    } else if mark == 0x8b07adacbd2b53 {
        Some(opcode::EA_PUSH_ZERO_SET_VAR)
    } else if mark == 0x8b07ad4e403973 {
        Some(opcode::EA_PUSH_TRUE)
    } else if mark == 0x8b07ac6c203668 {
        Some(opcode::EA_PUSH_FALSE)
    } else if mark == 0x8b07aceea03af3 {
        Some(opcode::EA_PUSH_NULL)
    } else if mark == 0x8b07ad5ddbb765 {
        Some(opcode::EA_PUSH_UNDEFINED)
    } else if mark == 0x8b07965a6030e5 {
        Some(opcode::EA_TRACE_START)
    } else if mark == 0x8fbe36dca030ef {
        Some(opcode::GOTO_FRAME)
    } else if mark == 0x8f979000002ac7 {
        Some(opcode::GET_URL)
    } else if mark == 0xa7d32e7d203a67 {
        Some(opcode::STORE_REGISTER)
    } else if mark == 0x8b072eecba70e9 {
        Some(opcode::DEFINE_DICTIONARY)
    } else if mark == 0xaf86346e4030f2 {
        Some(opcode::WAIT_FOR_FRAME)
    } else if mark == 0xa7970e5e8033d4 {
        Some(opcode::SET_TARGET)
    } else if mark == 0x8fbe665d80316f {
        Some(opcode::GOTO_LABEL)
    } else if mark == 0x8997775ddbb7e3 {
        Some(opcode::DEFINE_FUNCTION2)
    } else if mark == 0xa9c80000002a00 {
        Some(opcode::TRY)
    } else if mark == 0xafa40000003480 {
        Some(opcode::WITH)
    } else if mark == 0xa1d40000003a80 {
        Some(opcode::PUSH)
    } else if mark == 0x85cb1ecee030c1 {
        Some(opcode::BRANCH_ALWAYS)
    } else if mark == 0x8f979000003965 {
        Some(opcode::GET_URL2)
    } else if mark == 0x8997775ddbb4ee {
        Some(opcode::DEFINE_FUNCTION)
    } else if mark == 0x85cb1e6a803949 {
        Some(opcode::BRANCH_IF_TRUE)
    } else if mark == 0x878636dca030ec {
        Some(opcode::CALL_FRAME)
    } else if mark == 0x8fbe36dca036c6 {
        Some(opcode::GOTO_FRAME2)
    } else if mark == 0x8b07ad3e8034d3 {
        Some(0xA1u8)
    } else if mark == 0x8b07ad3e913ce3 {
        Some(0xA2u8)
    } else if mark == 0x8b07ad3e9137e3 {
        Some(0xA3u8)
    } else if mark == 0x8b07ad3e91eb47 {
        Some(0xA4u8)
    } else if mark == 0x8b07ad3e91f14d {
        Some(0xA5u8)
    } else if mark == 0x8b07ad3e94eb53 {
        Some(0xA6u8)
    } else if mark == 0x8b07ad3e94f14d {
        Some(0xA7u8)
    } else if mark == 0x8b07a6ecf0ab47 {
        Some(0xAEu8)
    } else if mark == 0x8b07a6ecf0b14d {
        Some(0xAFu8)
    } else if mark == 0x8b074c3c3ba875 {
        Some(0xB0u8)
    } else if mark == 0x8b074c3c3bab53 {
        Some(0xB1u8)
    } else if mark == 0x8b074c3c3d2868 {
        Some(0xB2u8)
    } else if mark == 0x8b074c3c3d2b53 {
        Some(0xB3u8)
    } else if mark == 0x8b07ac6d8037e8 {
        Some(0xB4u8)
    } else if mark == 0x8b07ac2f203cf3 {
        Some(0xB5u8)
    } else if mark == 0x8b07ad7de037f3 {
        Some(0xB6u8)
    } else if mark == 0x8b07ac4ae037e8 {
        Some(0xB7u8)
    } else if mark == 0x8b07963d1b3666 {
        Some(opcode::EA_BRANCH_IF_FALSE)
    } else if mark == 0x8b07ad2cb97a67 {
        Some(opcode::EA_PUSH_REGISTER)
    } else if mark == 0x85cb5e9dc034eb {
        Some(opcode::BREAKPOINT)
    } else {
        None
    }
}

proof fn lemma_marks_0(op: u8)
    requires
        op == opcode::END
            || op == opcode::NEXT_FRAME
            || op == opcode::PREV_FRAME
            || op == opcode::PLAY
            || op == opcode::STOP
            || op == opcode::TOGGLE_QUALITY
            || op == opcode::STOP_SOUNDS
            || op == opcode::ADD
            || op == opcode::SUBTRACT
            || op == opcode::MULTIPLY
            || op == opcode::DIVIDE
            || op == opcode::EQUALS,
    ensures
        mark(mnemonic(op)) == mark_of(op),
{
    reveal_strlit("End");
    reveal_strlit("NextFrame");
    reveal_strlit("PrevFrame");
    reveal_strlit("Play");
    reveal_strlit("Stop");
    reveal_strlit("ToggleQuality");
    reveal_strlit("StopSounds");
    reveal_strlit("Add");
    reveal_strlit("Subtract");
    reveal_strlit("Multiply");
    reveal_strlit("Divide");
    reveal_strlit("Equals");
}

proof fn lemma_marks_1(op: u8)
    requires
        op == opcode::LESS_THAN
            || op == opcode::AND
            || op == opcode::OR
            || op == opcode::NOT
            || op == opcode::STRING_EQUALS
            || op == opcode::STRING_LENGTH
            || op == opcode::SUB_STRING
            || op == opcode::POP
            || op == opcode::TO_INTEGER
            || op == opcode::GET_VARIABLE
            || op == opcode::SET_VARIABLE
            || op == opcode::SET_TARGET2,
    ensures
        mark(mnemonic(op)) == mark_of(op),
{
    reveal_strlit("LessThan");
    reveal_strlit("And");
    reveal_strlit("Or");
    reveal_strlit("Not");
    reveal_strlit("StringEquals");
    reveal_strlit("StringLength");
    reveal_strlit("SubString");
    reveal_strlit("Pop");
    reveal_strlit("ToInteger");
    reveal_strlit("GetVariable");
    reveal_strlit("SetVariable");
    reveal_strlit("SetTarget2");
}

proof fn lemma_marks_2(op: u8)
    requires
        op == opcode::STRING_ADD
            || op == opcode::GET_PROPERTY
            || op == opcode::SET_PROPERTY
            || op == opcode::CLONE_SPRITE
            || op == opcode::REMOVE_SPRITE
            || op == opcode::TRACE
            || op == opcode::START_DRAG
            || op == opcode::STOP_DRAG
            || op == opcode::STRING_LESS_THAN
            || op == opcode::THROW
            || op == opcode::CAST_OP
            || op == opcode::IMPLEMENTS_OP,
    ensures
        mark(mnemonic(op)) == mark_of(op),
{
    reveal_strlit("StringAdd");
    reveal_strlit("GetProperty");
    reveal_strlit("SetProperty");
    reveal_strlit("CloneSprite");
    reveal_strlit("RemoveSprite");
    reveal_strlit("Trace");
    reveal_strlit("StartDragMovie");
    reveal_strlit("StopDragMovie");
    reveal_strlit("StringLessThan");
    reveal_strlit("Throw");
    reveal_strlit("CastOp");
    reveal_strlit("ImplementsOp");
}

proof fn lemma_marks_3(op: u8)
    requires
        op == opcode::RANDOM
            || op == opcode::MB_LENGTH
            || op == opcode::CHAR_TO_ASCII
            || op == opcode::ASCII_TO_CHAR
            || op == opcode::GET_TIMER
            || op == opcode::MB_SUB_STRING
            || op == opcode::MB_CHAR_TO_ASCII
            || op == opcode::MB_ASCII_TO_CHAR
            || op == opcode::DELETE
            || op == opcode::DELETE2
            || op == opcode::DEFINE_LOCAL
            || op == opcode::CALL_FUNCTION,
    ensures
        mark(mnemonic(op)) == mark_of(op),
{
    reveal_strlit("Random");
    reveal_strlit("MBLength");
    reveal_strlit("CharToAscii");
    reveal_strlit("AsciiToChar");
    reveal_strlit("GetTimer");
    reveal_strlit("MBSubString");
    reveal_strlit("MBCharToAscii");
    reveal_strlit("MBAsciiToChar");
    reveal_strlit("Delete");
    reveal_strlit("Delete2");
    reveal_strlit("DefineLocal");
    reveal_strlit("CallFunction");
}

proof fn lemma_marks_4(op: u8)
    requires
        op == opcode::RETURN
            || op == opcode::MODULO
            || op == opcode::NEW_OBJECT
            || op == opcode::DEFINE_LOCAL2
            || op == opcode::INIT_ARRAY
            || op == opcode::INIT_OBJECT
            || op == opcode::TYPE_OF
            || op == opcode::TARGET_PATH
            || op == opcode::ENUMERATE
            || op == opcode::ADD2
            || op == opcode::LESS_THAN2
            || op == opcode::EQUALS2,
    ensures
        mark(mnemonic(op)) == mark_of(op),
{
    reveal_strlit("Return");
    reveal_strlit("Modulo");
    reveal_strlit("NewObject");
    reveal_strlit("DefineLocal2");
    reveal_strlit("InitArray");
    reveal_strlit("InitObject");
    reveal_strlit("TypeOf");
    reveal_strlit("TargetPath");
    reveal_strlit("Enumerate");
    reveal_strlit("Add2");
    reveal_strlit("LessThan2");
    reveal_strlit("Equals2");
}

proof fn lemma_marks_5(op: u8)
    requires
        op == opcode::TO_NUMBER
            || op == opcode::TO_STRING
            || op == opcode::PUSH_DUPLICATE
            || op == opcode::STACK_SWAP
            || op == opcode::GET_MEMBER
            || op == opcode::SET_MEMBER
            || op == opcode::INCREMENT
            || op == opcode::DECREMENT
            || op == opcode::CALL_METHOD
            || op == opcode::NEW_METHOD
            || op == opcode::INSTANCE_OF
            || op == opcode::ENUMERATE2,
    ensures
        mark(mnemonic(op)) == mark_of(op),
{
    reveal_strlit("ToNumber");
    reveal_strlit("ToString");
    reveal_strlit("PushDuplicate");
    reveal_strlit("StackSwap");
    reveal_strlit("GetMember");
    reveal_strlit("SetMember");
    reveal_strlit("Increment");
    reveal_strlit("Decrement");
    reveal_strlit("CallMethod");
    reveal_strlit("NewMethod");
    reveal_strlit("InstanceOf");
    reveal_strlit("Enumerate2");
}

proof fn lemma_marks_6(op: u8)
    requires
        op == opcode::EA_PUSH_THIS
            || op == opcode::EA_PUSH_GLOBAL
            || op == opcode::EA_PUSH_ZERO
            || op == opcode::EA_PUSH_ONE
            || op == opcode::EA_CALL_FUNC_POP
            || op == opcode::EA_CALL_FUNC_SET_VAR
            || op == opcode::EA_CALL_METHOD_POP
            || op == opcode::EA_CALL_METHOD_SET_VAR
            || op == opcode::BIT_AND
            || op == opcode::BIT_OR
            || op == opcode::BIT_XOR
            || op == opcode::BIT_LSHIFT,
    ensures
        mark(mnemonic(op)) == mark_of(op),
{
    reveal_strlit("EA:PushThis");
    reveal_strlit("EA:PushGlobal");
    reveal_strlit("EA:Push0");
    reveal_strlit("EA:Push1");
    reveal_strlit("EA:CallFuncAndPop");
    reveal_strlit("EA:CallFuncSetVar");
    reveal_strlit("EA:CallMethodPop");
    reveal_strlit("EA:CallMethodSetVar");
    reveal_strlit("BitAnd");
    reveal_strlit("BitOr");
    reveal_strlit("BitXor");
    reveal_strlit("BitLShift");
}

proof fn lemma_marks_7(op: u8)
    requires
        op == opcode::BIT_RSHIFT
            || op == opcode::BIT_URSHIFT
            || op == opcode::STRICT_EQUALS
            || op == opcode::GREATER
            || op == opcode::EXTENDS
            || op == opcode::EA_PUSH_THIS_VAR
            || op == opcode::EA_PUSH_GLOBAL_VAR
            || op == opcode::EA_PUSH_ZERO_SET_VAR
            || op == opcode::EA_PUSH_TRUE
            || op == opcode::EA_PUSH_FALSE
            || op == opcode::EA_PUSH_NULL
            || op == opcode::EA_PUSH_UNDEFINED,
    ensures
        mark(mnemonic(op)) == mark_of(op),
{
    reveal_strlit("BitRShift");
    reveal_strlit("BitURShift");
    reveal_strlit("StrictEquals");
    reveal_strlit("Greater");
    reveal_strlit("Extends");
    reveal_strlit("EA:PushThisVariable");
    reveal_strlit("EA:PushGlobalVariable");
    reveal_strlit("EA:PushZeroSetVar");
    reveal_strlit("EA:PushTrue");
    reveal_strlit("EA:PushFalse");
    reveal_strlit("EA:PushNull");
    reveal_strlit("EA:PushUndefined");
}

proof fn lemma_marks_8(op: u8)
    requires
        op == opcode::EA_TRACE_START
            || op == opcode::GOTO_FRAME
            || op == opcode::GET_URL
            || op == opcode::STORE_REGISTER
            || op == opcode::DEFINE_DICTIONARY
            || op == opcode::WAIT_FOR_FRAME
            || op == opcode::SET_TARGET
            || op == opcode::GOTO_LABEL
            || op == opcode::DEFINE_FUNCTION2
            || op == opcode::TRY
            || op == opcode::WITH
            || op == opcode::PUSH,
    ensures
        mark(mnemonic(op)) == mark_of(op),
{
    reveal_strlit("EA:TraceStart");
    reveal_strlit("GotoFrame");
    reveal_strlit("GetUrl");
    reveal_strlit("StoreRegister");
    reveal_strlit("EA:DefineDictionary");
    reveal_strlit("WaitForFrame");
    reveal_strlit("SetTarget");
    reveal_strlit("GotoLabel");
    reveal_strlit("DefineFunction2");
    reveal_strlit("Try");
    reveal_strlit("With");
    reveal_strlit("Push");
}

proof fn lemma_marks_9(op: u8)
    requires
        op == opcode::BRANCH_ALWAYS
            || op == opcode::GET_URL2
            || op == opcode::DEFINE_FUNCTION
            || op == opcode::BRANCH_IF_TRUE
            || op == opcode::CALL_FRAME
            || op == opcode::GOTO_FRAME2
            || op == 0xA1
            || op == 0xA2
            || op == 0xA3
            || op == 0xA4
            || op == 0xA5
            || op == 0xA6,
    ensures
        mark(mnemonic(op)) == mark_of(op),
{
    reveal_strlit("BranchAlways");
    reveal_strlit("GetUrl2");
    reveal_strlit("DefineFunction");
    reveal_strlit("BranchIfTrue");
    reveal_strlit("CallFrame");
    reveal_strlit("GotoFrame2");
    reveal_strlit("EA:PushString");
    reveal_strlit("EA:PushStringDictByte");
    reveal_strlit("EA:PushStringDictWord");
    reveal_strlit("EA:PushStringGetVar");
    reveal_strlit("EA:PushStringGetMember");
    reveal_strlit("EA:PushStringSetVar");
}

proof fn lemma_marks_10(op: u8)
    requires
        op == 0xA7
            || op == 0xAE
            || op == 0xAF
            || op == 0xB0
            || op == 0xB1
            || op == 0xB2
            || op == 0xB3
            || op == 0xB4
            || op == 0xB5
            || op == 0xB6
            || op == 0xB7
            || op == opcode::EA_BRANCH_IF_FALSE,
    ensures
        mark(mnemonic(op)) == mark_of(op),
{
    reveal_strlit("EA:PushStringSetMember");
    reveal_strlit("EA:StringDictByteGetVar");
    reveal_strlit("EA:StringDictByteGetMember");
    reveal_strlit("EA:DictCallFuncPop");
    reveal_strlit("EA:DictCallFuncSetVar");
    reveal_strlit("EA:DictCallMethodPop");
    reveal_strlit("EA:DictCallMethodSetVar");
    reveal_strlit("EA:PushFloat");
    reveal_strlit("EA:PushByte");
    reveal_strlit("EA:PushWord");
    reveal_strlit("EA:PushDWord");
    reveal_strlit("EA:BranchIfFalse");
}

proof fn lemma_marks_11(op: u8)
    requires
        op == opcode::EA_PUSH_REGISTER
            || op == opcode::BREAKPOINT,
    ensures
        mark(mnemonic(op)) == mark_of(op),
{
    reveal_strlit("EA:PushRegister");
    reveal_strlit("Breakpoint");
}

/// The mark of a name is the one in the table.
proof fn lemma_mark(op: u8)
    ensures
        mark(mnemonic(op)) == mark_of(op),
{
    reveal_strlit("<invalid>");
    if op == opcode::END
        || op == opcode::NEXT_FRAME
        || op == opcode::PREV_FRAME
        || op == opcode::PLAY
        || op == opcode::STOP
        || op == opcode::TOGGLE_QUALITY
        || op == opcode::STOP_SOUNDS
        || op == opcode::ADD
        || op == opcode::SUBTRACT
        || op == opcode::MULTIPLY
        || op == opcode::DIVIDE
        || op == opcode::EQUALS {
        lemma_marks_0(op);
    }
    if op == opcode::LESS_THAN
        || op == opcode::AND
        || op == opcode::OR
        || op == opcode::NOT
        || op == opcode::STRING_EQUALS
        || op == opcode::STRING_LENGTH
        || op == opcode::SUB_STRING
        || op == opcode::POP
        || op == opcode::TO_INTEGER
        || op == opcode::GET_VARIABLE
        || op == opcode::SET_VARIABLE
        || op == opcode::SET_TARGET2 {
        lemma_marks_1(op);
    }
    if op == opcode::STRING_ADD
        || op == opcode::GET_PROPERTY
        || op == opcode::SET_PROPERTY
        || op == opcode::CLONE_SPRITE
        || op == opcode::REMOVE_SPRITE
        || op == opcode::TRACE
        || op == opcode::START_DRAG
        || op == opcode::STOP_DRAG
        || op == opcode::STRING_LESS_THAN
        || op == opcode::THROW
        || op == opcode::CAST_OP
        || op == opcode::IMPLEMENTS_OP {
        lemma_marks_2(op);
    }
    if op == opcode::RANDOM
        || op == opcode::MB_LENGTH
        || op == opcode::CHAR_TO_ASCII
        || op == opcode::ASCII_TO_CHAR
        || op == opcode::GET_TIMER
        || op == opcode::MB_SUB_STRING
        || op == opcode::MB_CHAR_TO_ASCII
        || op == opcode::MB_ASCII_TO_CHAR
        || op == opcode::DELETE
        || op == opcode::DELETE2
        || op == opcode::DEFINE_LOCAL
        || op == opcode::CALL_FUNCTION {
        lemma_marks_3(op);
    }
    if op == opcode::RETURN
        || op == opcode::MODULO
        || op == opcode::NEW_OBJECT
        || op == opcode::DEFINE_LOCAL2
        || op == opcode::INIT_ARRAY
        || op == opcode::INIT_OBJECT
        || op == opcode::TYPE_OF
        || op == opcode::TARGET_PATH
        || op == opcode::ENUMERATE
        || op == opcode::ADD2
        || op == opcode::LESS_THAN2
        || op == opcode::EQUALS2 {
        lemma_marks_4(op);
    }
    if op == opcode::TO_NUMBER
        || op == opcode::TO_STRING
        || op == opcode::PUSH_DUPLICATE
        || op == opcode::STACK_SWAP
        || op == opcode::GET_MEMBER
        || op == opcode::SET_MEMBER
        || op == opcode::INCREMENT
        || op == opcode::DECREMENT
        || op == opcode::CALL_METHOD
        || op == opcode::NEW_METHOD
        || op == opcode::INSTANCE_OF
        || op == opcode::ENUMERATE2 {
        lemma_marks_5(op);
    }
    if op == opcode::EA_PUSH_THIS
        || op == opcode::EA_PUSH_GLOBAL
        || op == opcode::EA_PUSH_ZERO
        || op == opcode::EA_PUSH_ONE
        || op == opcode::EA_CALL_FUNC_POP
        || op == opcode::EA_CALL_FUNC_SET_VAR
        || op == opcode::EA_CALL_METHOD_POP
        || op == opcode::EA_CALL_METHOD_SET_VAR
        || op == opcode::BIT_AND
        || op == opcode::BIT_OR
        || op == opcode::BIT_XOR
        || op == opcode::BIT_LSHIFT {
        lemma_marks_6(op);
    }
    if op == opcode::BIT_RSHIFT
        || op == opcode::BIT_URSHIFT
        || op == opcode::STRICT_EQUALS
        || op == opcode::GREATER
        || op == opcode::EXTENDS
        || op == opcode::EA_PUSH_THIS_VAR
        || op == opcode::EA_PUSH_GLOBAL_VAR
        || op == opcode::EA_PUSH_ZERO_SET_VAR
        || op == opcode::EA_PUSH_TRUE
        || op == opcode::EA_PUSH_FALSE
        || op == opcode::EA_PUSH_NULL
        || op == opcode::EA_PUSH_UNDEFINED {
        lemma_marks_7(op);
    }
    if op == opcode::EA_TRACE_START
        || op == opcode::GOTO_FRAME
        || op == opcode::GET_URL
        || op == opcode::STORE_REGISTER
        || op == opcode::DEFINE_DICTIONARY
        || op == opcode::WAIT_FOR_FRAME
        || op == opcode::SET_TARGET
        || op == opcode::GOTO_LABEL
        || op == opcode::DEFINE_FUNCTION2
        || op == opcode::TRY
        || op == opcode::WITH
        || op == opcode::PUSH {
        lemma_marks_8(op);
    }
    if op == opcode::BRANCH_ALWAYS
        || op == opcode::GET_URL2
        || op == opcode::DEFINE_FUNCTION
        || op == opcode::BRANCH_IF_TRUE
        || op == opcode::CALL_FRAME
        || op == opcode::GOTO_FRAME2
        || op == 0xA1
        || op == 0xA2
        || op == 0xA3
        || op == 0xA4
        || op == 0xA5
        || op == 0xA6 {
        lemma_marks_9(op);
    }
    if op == 0xA7
        || op == 0xAE
        || op == 0xAF
        || op == 0xB0
        || op == 0xB1
        || op == 0xB2
        || op == 0xB3
        || op == 0xB4
        || op == 0xB5
        || op == 0xB6
        || op == 0xB7
        || op == opcode::EA_BRANCH_IF_FALSE {
        lemma_marks_10(op);
    }
    if op == opcode::EA_PUSH_REGISTER
        || op == opcode::BREAKPOINT {
        lemma_marks_11(op);
    }
}

proof fn lemma_marked(op: u8)
    ensures
        known(op) ==> marked(mark_of(op)) == Some(op),
        !known(op) ==> mark_of(op) == 0x79a70e47c034f6 && mnemonic(op) == "<invalid>"@,
        marked(0x79a70e47c034f6) is None,
{
}

/// An opcode has a name exactly where it stands for an instruction.
pub proof fn law_names(op: u8)
    ensures
        mnemonic(op) == "<invalid>"@ <==> !known(op),
{
    lemma_mark(op);
    lemma_marked(op);
    lemma_invalid();
}

proof fn lemma_invalid()
    ensures
        mark("<invalid>"@) == 0x79a70e47c034f6,
{
    reveal_strlit("<invalid>");
}

/// Two opcodes that have a name have different ones.
pub proof fn law_names_differ(a: u8, b: u8)
    requires
        mnemonic(a) == mnemonic(b),
        a != b,
    ensures
        !known(a) && !known(b),
{
    lemma_mark(a);
    lemma_mark(b);
    lemma_marked(a);
    lemma_marked(b);
}

/// Whether reading met no opcode that stands for an instruction and refused it.
pub open spec fn fair(c: Rd) -> bool {
    c.err matches Some(model::Error::InvalidOpcode { opcode, .. }) ==> !known(opcode)
}

proof fn lemma_reps<T>(step: spec_fn(Rd) -> (T, Rd), c: Rd, n: nat)
    requires
        fair(c),
        forall|d: Rd| fair(d) ==> fair((#[trigger] step(d)).1),
    ensures
        fair(reps(step, c, n).1),
    decreases n,
{
    if n > 0 && c.err is None {
        lemma_reps(step, c, (n - 1) as nat);
        let d = reps(step, c, (n - 1) as nat).1;
        assert(fair(step(d).1));
    }
}

proof fn lemma_pool(x: Ctx, c: Rd)
    requires
        fair(c),
    ensures
        fair(decode::pool_items(x, c).1),
{
    let (n, c) = x.src.i32(x.src.align_ptr(c));
    let (off, c) = x.src.ptr(c);
    assert forall|d: Rd| fair(d) implies fair((#[trigger] decode::item_step(x)(d)).1) by {}
    lemma_reps(decode::item_step(x), c.at(off as int), items(n));
}

#[verifier::rlimit(60)]
proof fn lemma_flat(x: Ctx, op: u8, at: int, c: Rd)
    requires
        fair(c),
        op != opcode::DEFINE_FUNCTION,
        op != opcode::DEFINE_FUNCTION2,
    ensures
        fair(decode::flat_insn(x, op, at, c).1),
        !known(op) && c.err is None ==> decode::flat_insn(x, op, at, c).1.err == Some(
            model::Error::InvalidOpcode { opcode: op, offset: at as u64 },
        ),
{
    reveal(decode::flat_insn);
    reveal(decode::try_payload);
    lemma_pool(x, c);
}

proof fn lemma_heads(x: Ctx, c: Rd)
    requires
        fair(c),
    ensures
        fair(decode::function_head(x, c).1),
        fair(decode::function2_head(x, c).1),
{
    reveal(decode::function_head);
    reveal(decode::function2_head);
    let (_, d) = x.src.ptr_string(x.src.align_ptr(c));
    let (n, d) = x.src.i32(x.src.align(d, 4));
    let (off, e) = x.src.ptr(d);
    assert forall|r: Rd| fair(r) implies fair((#[trigger] decode::name_step(x)(r)).1) by {}
    lemma_reps(decode::name_step(x), e.at(off as int), items(n));
    let (_, f) = x.src.i16(d);
    let (_, f) = x.src.i16(f);
    let (off, g) = x.src.ptr(f);
    assert forall|r: Rd| fair(r) implies fair((#[trigger] decode::param_step(x)(r)).1) by {}
    lemma_reps(decode::param_step(x), g.at(off as int), items(n));
}

proof fn lemma_insn(x: Ctx, c: Rd)
    requires
        fair(c),
    ensures
        fair(decode::insn(x, c).1),
    decreases x.src.len() - c.pos, 0int,
{
    let (op, d) = x.src.u8(c);
    if d.err is None {
        lemma_heads(x, d);
        if op == opcode::DEFINE_FUNCTION {
            let (h, b) = decode::function_head(x, d);
            if b.err is None && c.pos < b.pos <= x.src.len() {
                lemma_block(x, b, Some(h.end));
            }
        } else if op == opcode::DEFINE_FUNCTION2 {
            let (h, b) = decode::function2_head(x, d);
            if b.err is None && c.pos < b.pos <= x.src.len() {
                lemma_block(x, b, Some(h.end));
            }
        } else {
            lemma_flat(x, op, c.pos, d);
        }
    }
}

proof fn lemma_raws(x: Ctx, c: Rd, end: Option<int>)
    requires
        fair(c),
    ensures
        fair(decode::raws(x, c, end).1),
    decreases x.src.len() - c.pos, 1int,
{
    if !(c.err is Some || (end is Some && c.pos >= end->0)) {
        lemma_insn(x, c);
        let ((i, fix), d) = decode::insn(x, c);
        if d.err is None && c.pos < d.pos <= x.src.len() && !(i is End && end is None) {
            lemma_raws(x, d, end);
        }
    }
}

proof fn lemma_resolve(r: Seq<Raw>, bounds: Seq<u64>, stream: int, c: Rd, n: nat)
    requires
        fair(c),
    ensures
        fair(decode::resolve(r, bounds, stream, c, n).1),
    decreases n,
{
    if n > 0 {
        lemma_resolve(r, bounds, stream, c, (n - 1) as nat);
    }
}

proof fn lemma_block(x: Ctx, c: Rd, end: Option<int>)
    requires
        fair(c),
    ensures
        fair(decode::block(x, c, end).1),
    decreases x.src.len() - c.pos, 2int,
{
    lemma_raws(x, c, end);
    let (r, d) = decode::raws(x, c, end);
    if d.err is None {
        lemma_resolve(r, decode::boundaries(r, d.pos), c.pos, d, r.len());
    }
}

/// An opcode has no name exactly where decoding a stream that starts with it refuses it.
pub proof fn law_refused(x: Ctx, start: int)
    requires
        0 <= start < x.src.len() <= u64::MAX,
    ensures
        ({
            let op = x.src.data[start];
            let err = decode::block(x, Rd::start(start), None).1.err;
            mnemonic(op) == "<invalid>"@ <==> (err matches Some(
                model::Error::InvalidOpcode { opcode, .. },
            ) && opcode == op)
        }),
{
    let op = x.src.data[start];
    let c = Rd::start(start);
    law_names(op);
    reveal_with_fuel(super::bytes::un_le, 2);
    assert(x.src.u8(c) == (op, Rd::start(start + 1)));
    if known(op) {
        lemma_block(x, c, None);
    } else {
        lemma_flat(x, op, start, Rd::start(start + 1));
        assert(decode::insn(x, c).1.err == Some(
            model::Error::InvalidOpcode { opcode: op, offset: start as u64 },
        ));
        assert(decode::raws(x, c, None).1.err == decode::insn(x, c).1.err);
    }
}

} // verus!
