//! Opcode numbers of action streams.
use vstd::prelude::*;

verus! {

pub const END: u8 = 0x00;
pub const NEXT_FRAME: u8 = 0x04;
pub const PREV_FRAME: u8 = 0x05;
pub const PLAY: u8 = 0x06;
pub const STOP: u8 = 0x07;
pub const TOGGLE_QUALITY: u8 = 0x08;
pub const STOP_SOUNDS: u8 = 0x09;
pub const ADD: u8 = 0x0A;
pub const SUBTRACT: u8 = 0x0B;
pub const MULTIPLY: u8 = 0x0C;
pub const DIVIDE: u8 = 0x0D;
pub const EQUALS: u8 = 0x0E;
pub const LESS_THAN: u8 = 0x0F;
pub const AND: u8 = 0x10;
pub const OR: u8 = 0x11;
pub const NOT: u8 = 0x12;
pub const STRING_EQUALS: u8 = 0x13;
pub const STRING_LENGTH: u8 = 0x14;
pub const SUB_STRING: u8 = 0x15;
pub const POP: u8 = 0x17;
pub const TO_INTEGER: u8 = 0x18;
pub const GET_VARIABLE: u8 = 0x1C;
pub const SET_VARIABLE: u8 = 0x1D;
pub const SET_TARGET2: u8 = 0x20;
pub const STRING_ADD: u8 = 0x21;
pub const GET_PROPERTY: u8 = 0x22;
pub const SET_PROPERTY: u8 = 0x23;
pub const CLONE_SPRITE: u8 = 0x24;
pub const REMOVE_SPRITE: u8 = 0x25;
pub const TRACE: u8 = 0x26;
pub const START_DRAG: u8 = 0x27;
pub const STOP_DRAG: u8 = 0x28;
pub const STRING_LESS_THAN: u8 = 0x29;
pub const THROW: u8 = 0x2A;
pub const CAST_OP: u8 = 0x2B;
pub const IMPLEMENTS_OP: u8 = 0x2C;
pub const RANDOM: u8 = 0x30;
pub const MB_LENGTH: u8 = 0x31;
pub const CHAR_TO_ASCII: u8 = 0x32;
pub const ASCII_TO_CHAR: u8 = 0x33;
pub const GET_TIMER: u8 = 0x34;
pub const MB_SUB_STRING: u8 = 0x35;
pub const MB_CHAR_TO_ASCII: u8 = 0x36;
pub const MB_ASCII_TO_CHAR: u8 = 0x37;
pub const DELETE: u8 = 0x3A;
pub const DELETE2: u8 = 0x3B;
pub const DEFINE_LOCAL: u8 = 0x3C;
pub const CALL_FUNCTION: u8 = 0x3D;
pub const RETURN: u8 = 0x3E;
pub const MODULO: u8 = 0x3F;
pub const NEW_OBJECT: u8 = 0x40;
pub const DEFINE_LOCAL2: u8 = 0x41;
pub const INIT_ARRAY: u8 = 0x42;
pub const INIT_OBJECT: u8 = 0x43;
pub const TYPE_OF: u8 = 0x44;
pub const TARGET_PATH: u8 = 0x45;
pub const ENUMERATE: u8 = 0x46;
pub const ADD2: u8 = 0x47;
pub const LESS_THAN2: u8 = 0x48;
pub const EQUALS2: u8 = 0x49;
pub const TO_NUMBER: u8 = 0x4A;
pub const TO_STRING: u8 = 0x4B;
pub const PUSH_DUPLICATE: u8 = 0x4C;
pub const STACK_SWAP: u8 = 0x4D;
pub const GET_MEMBER: u8 = 0x4E;
pub const SET_MEMBER: u8 = 0x4F;
pub const INCREMENT: u8 = 0x50;
pub const DECREMENT: u8 = 0x51;
pub const CALL_METHOD: u8 = 0x52;
pub const NEW_METHOD: u8 = 0x53;
pub const INSTANCE_OF: u8 = 0x54;
pub const ENUMERATE2: u8 = 0x55;
pub const EA_PUSH_THIS: u8 = 0x56;
pub const EA_PUSH_GLOBAL: u8 = 0x58;
pub const EA_PUSH_ZERO: u8 = 0x59;
pub const EA_PUSH_ONE: u8 = 0x5A;
pub const EA_CALL_FUNC_POP: u8 = 0x5B;
pub const EA_CALL_FUNC_SET_VAR: u8 = 0x5C;
pub const EA_CALL_METHOD_POP: u8 = 0x5D;
pub const EA_CALL_METHOD_SET_VAR: u8 = 0x5E;
pub const BIT_AND: u8 = 0x60;
pub const BIT_OR: u8 = 0x61;
pub const BIT_XOR: u8 = 0x62;
pub const BIT_LSHIFT: u8 = 0x63;
pub const BIT_RSHIFT: u8 = 0x64;
pub const BIT_URSHIFT: u8 = 0x65;
pub const STRICT_EQUALS: u8 = 0x66;
pub const GREATER: u8 = 0x67;
pub const EXTENDS: u8 = 0x69;
pub const EA_PUSH_THIS_VAR: u8 = 0x70;
pub const EA_PUSH_GLOBAL_VAR: u8 = 0x71;
pub const EA_PUSH_ZERO_SET_VAR: u8 = 0x72;
pub const EA_PUSH_TRUE: u8 = 0x73;
pub const EA_PUSH_FALSE: u8 = 0x74;
pub const EA_PUSH_NULL: u8 = 0x75;
pub const EA_PUSH_UNDEFINED: u8 = 0x76;
pub const EA_TRACE_START: u8 = 0x77;
pub const GOTO_FRAME: u8 = 0x81;
pub const GET_URL: u8 = 0x83;
pub const STORE_REGISTER: u8 = 0x87;
pub const DEFINE_DICTIONARY: u8 = 0x88;
pub const WAIT_FOR_FRAME: u8 = 0x8A;
pub const SET_TARGET: u8 = 0x8B;
pub const GOTO_LABEL: u8 = 0x8C;
pub const DEFINE_FUNCTION2: u8 = 0x8E;
pub const TRY: u8 = 0x8F;
pub const WITH: u8 = 0x94;
pub const PUSH: u8 = 0x96;
pub const BRANCH_ALWAYS: u8 = 0x99;
pub const GET_URL2: u8 = 0x9A;
pub const DEFINE_FUNCTION: u8 = 0x9B;
pub const BRANCH_IF_TRUE: u8 = 0x9D;
pub const CALL_FRAME: u8 = 0x9E;
pub const GOTO_FRAME2: u8 = 0x9F;
pub const EA_BRANCH_IF_FALSE: u8 = 0xB8;
pub const EA_PUSH_REGISTER: u8 = 0xB9;
pub const BREAKPOINT: u8 = 0xBA;

/// The name of an opcode.
pub open spec fn mnemonic(op: u8) -> Seq<char> {
    if op == END {
        "End"@
    } else if op == NEXT_FRAME {
        "NextFrame"@
    } else if op == PREV_FRAME {
        "PrevFrame"@
    } else if op == PLAY {
        "Play"@
    } else if op == STOP {
        "Stop"@
    } else if op == TOGGLE_QUALITY {
        "ToggleQuality"@
    } else if op == STOP_SOUNDS {
        "StopSounds"@
    } else if op == ADD {
        "Add"@
    } else if op == SUBTRACT {
        "Subtract"@
    } else if op == MULTIPLY {
        "Multiply"@
    } else if op == DIVIDE {
        "Divide"@
    } else if op == EQUALS {
        "Equals"@
    } else if op == LESS_THAN {
        "LessThan"@
    } else if op == AND {
        "And"@
    } else if op == OR {
        "Or"@
    } else if op == NOT {
        "Not"@
    } else if op == STRING_EQUALS {
        "StringEquals"@
    } else if op == STRING_LENGTH {
        "StringLength"@
    } else if op == SUB_STRING {
        "SubString"@
    } else if op == POP {
        "Pop"@
    } else if op == TO_INTEGER {
        "ToInteger"@
    } else if op == GET_VARIABLE {
        "GetVariable"@
    } else if op == SET_VARIABLE {
        "SetVariable"@
    } else if op == SET_TARGET2 {
        "SetTarget2"@
    } else if op == STRING_ADD {
        "StringAdd"@
    } else if op == GET_PROPERTY {
        "GetProperty"@
    } else if op == SET_PROPERTY {
        "SetProperty"@
    } else if op == CLONE_SPRITE {
        "CloneSprite"@
    } else if op == REMOVE_SPRITE {
        "RemoveSprite"@
    } else if op == TRACE {
        "Trace"@
    } else if op == START_DRAG {
        "StartDragMovie"@
    } else if op == STOP_DRAG {
        "StopDragMovie"@
    } else if op == STRING_LESS_THAN {
        "StringLessThan"@
    } else if op == THROW {
        "Throw"@
    } else if op == CAST_OP {
        "CastOp"@
    } else if op == IMPLEMENTS_OP {
        "ImplementsOp"@
    } else if op == RANDOM {
        "Random"@
    } else if op == MB_LENGTH {
        "MBLength"@
    } else if op == CHAR_TO_ASCII {
        "CharToAscii"@
    } else if op == ASCII_TO_CHAR {
        "AsciiToChar"@
    } else if op == GET_TIMER {
        "GetTimer"@
    } else if op == MB_SUB_STRING {
        "MBSubString"@
    } else if op == MB_CHAR_TO_ASCII {
        "MBCharToAscii"@
    } else if op == MB_ASCII_TO_CHAR {
        "MBAsciiToChar"@
    } else if op == DELETE {
        "Delete"@
    } else if op == DELETE2 {
        "Delete2"@
    } else if op == DEFINE_LOCAL {
        "DefineLocal"@
    } else if op == CALL_FUNCTION {
        "CallFunction"@
    } else if op == RETURN {
        "Return"@
    } else if op == MODULO {
        "Modulo"@
    } else if op == NEW_OBJECT {
        "NewObject"@
    } else if op == DEFINE_LOCAL2 {
        "DefineLocal2"@
    } else if op == INIT_ARRAY {
        "InitArray"@
    } else if op == INIT_OBJECT {
        "InitObject"@
    } else if op == TYPE_OF {
        "TypeOf"@
    } else if op == TARGET_PATH {
        "TargetPath"@
    } else if op == ENUMERATE {
        "Enumerate"@
    } else if op == ADD2 {
        "Add2"@
    } else if op == LESS_THAN2 {
        "LessThan2"@
    } else if op == EQUALS2 {
        "Equals2"@
    } else if op == TO_NUMBER {
        "ToNumber"@
    } else if op == TO_STRING {
        "ToString"@
    } else if op == PUSH_DUPLICATE {
        "PushDuplicate"@
    } else if op == STACK_SWAP {
        "StackSwap"@
    } else if op == GET_MEMBER {
        "GetMember"@
    } else if op == SET_MEMBER {
        "SetMember"@
    } else if op == INCREMENT {
        "Increment"@
    } else if op == DECREMENT {
        "Decrement"@
    } else if op == CALL_METHOD {
        "CallMethod"@
    } else if op == NEW_METHOD {
        "NewMethod"@
    } else if op == INSTANCE_OF {
        "InstanceOf"@
    } else if op == ENUMERATE2 {
        "Enumerate2"@
    } else if op == EA_PUSH_THIS {
        "EA:PushThis"@
    } else if op == EA_PUSH_GLOBAL {
        "EA:PushGlobal"@
    } else if op == EA_PUSH_ZERO {
        "EA:Push0"@
    } else if op == EA_PUSH_ONE {
        "EA:Push1"@
    } else if op == EA_CALL_FUNC_POP {
        "EA:CallFuncAndPop"@
    } else if op == EA_CALL_FUNC_SET_VAR {
        "EA:CallFuncSetVar"@
    } else if op == EA_CALL_METHOD_POP {
        "EA:CallMethodPop"@
    } else if op == EA_CALL_METHOD_SET_VAR {
        "EA:CallMethodSetVar"@
    } else if op == BIT_AND {
        "BitAnd"@
    } else if op == BIT_OR {
        "BitOr"@
    } else if op == BIT_XOR {
        "BitXor"@
    } else if op == BIT_LSHIFT {
        "BitLShift"@
    } else if op == BIT_RSHIFT {
        "BitRShift"@
    } else if op == BIT_URSHIFT {
        "BitURShift"@
    } else if op == STRICT_EQUALS {
        "StrictEquals"@
    } else if op == GREATER {
        "Greater"@
    } else if op == EXTENDS {
        "Extends"@
    } else if op == EA_PUSH_THIS_VAR {
        "EA:PushThisVariable"@
    } else if op == EA_PUSH_GLOBAL_VAR {
        "EA:PushGlobalVariable"@
    } else if op == EA_PUSH_ZERO_SET_VAR {
        "EA:PushZeroSetVar"@
    } else if op == EA_PUSH_TRUE {
        "EA:PushTrue"@
    } else if op == EA_PUSH_FALSE {
        "EA:PushFalse"@
    } else if op == EA_PUSH_NULL {
        "EA:PushNull"@
    } else if op == EA_PUSH_UNDEFINED {
        "EA:PushUndefined"@
    } else if op == EA_TRACE_START {
        "EA:TraceStart"@
    } else if op == GOTO_FRAME {
        "GotoFrame"@
    } else if op == GET_URL {
        "GetUrl"@
    } else if op == STORE_REGISTER {
        "StoreRegister"@
    } else if op == DEFINE_DICTIONARY {
        "EA:DefineDictionary"@
    } else if op == WAIT_FOR_FRAME {
        "WaitForFrame"@
    } else if op == SET_TARGET {
        "SetTarget"@
    } else if op == GOTO_LABEL {
        "GotoLabel"@
    } else if op == DEFINE_FUNCTION2 {
        "DefineFunction2"@
    } else if op == TRY {
        "Try"@
    } else if op == WITH {
        "With"@
    } else if op == PUSH {
        "Push"@
    } else if op == BRANCH_ALWAYS {
        "BranchAlways"@
    } else if op == GET_URL2 {
        "GetUrl2"@
    } else if op == DEFINE_FUNCTION {
        "DefineFunction"@
    } else if op == BRANCH_IF_TRUE {
        "BranchIfTrue"@
    } else if op == CALL_FRAME {
        "CallFrame"@
    } else if op == GOTO_FRAME2 {
        "GotoFrame2"@
    } else if op == 0xA1 {
        "EA:PushString"@
    } else if op == 0xA2 {
        "EA:PushStringDictByte"@
    } else if op == 0xA3 {
        "EA:PushStringDictWord"@
    } else if op == 0xA4 {
        "EA:PushStringGetVar"@
    } else if op == 0xA5 {
        "EA:PushStringGetMember"@
    } else if op == 0xA6 {
        "EA:PushStringSetVar"@
    } else if op == 0xA7 {
        "EA:PushStringSetMember"@
    } else if op == 0xAE {
        "EA:StringDictByteGetVar"@
    } else if op == 0xAF {
        "EA:StringDictByteGetMember"@
    } else if op == 0xB0 {
        "EA:DictCallFuncPop"@
    } else if op == 0xB1 {
        "EA:DictCallFuncSetVar"@
    } else if op == 0xB2 {
        "EA:DictCallMethodPop"@
    } else if op == 0xB3 {
        "EA:DictCallMethodSetVar"@
    } else if op == 0xB4 {
        "EA:PushFloat"@
    } else if op == 0xB5 {
        "EA:PushByte"@
    } else if op == 0xB6 {
        "EA:PushWord"@
    } else if op == 0xB7 {
        "EA:PushDWord"@
    } else if op == EA_BRANCH_IF_FALSE {
        "EA:BranchIfFalse"@
    } else if op == EA_PUSH_REGISTER {
        "EA:PushRegister"@
    } else if op == BREAKPOINT {
        "Breakpoint"@
    } else {
        "<invalid>"@
    }
}

} // verus!
