//! Standard AVM1 bytecode: what an action stream becomes in it.
//!
//! Each action is an opcode byte; opcodes from 0x80 on are followed by a
//! little-endian 16-bit length and that many payload bytes.
use super::{first_of, Trouble};
use crate::apt::actions::{DictRefKind, PushStringKind};
use crate::apt::bytes::{self, le};
use crate::apt::model::{Instruction, Value};
use crate::apt::opcode as op;
use crate::apt::reader::{is_latin1, to_latin1};
use crate::text;
use vstd::prelude::*;

verus! {

pub const PUSH_STRING: u8 = 0;
pub const PUSH_FLOAT: u8 = 1;
pub const PUSH_NULL: u8 = 2;
pub const PUSH_UNDEFINED: u8 = 3;
pub const PUSH_REGISTER: u8 = 4;
pub const PUSH_BOOLEAN: u8 = 5;
pub const PUSH_DOUBLE: u8 = 6;
pub const PUSH_INTEGER: u8 = 7;
pub const PUSH_CONSTANT8: u8 = 8;
pub const PUSH_CONSTANT16: u8 = 9;

/// Texts of numbers by their bit patterns.
pub type Texts = Seq<(u32, Seq<char>)>;

/// An action. Targets are indices of instructions; the body of a function is the
/// body of the instruction that the action comes from.
pub enum Low {
    /// Opcode with payload; below 0x80 there is none.
    Op(u8, Seq<u8>),
    /// Jump to an instruction.
    Jump(usize),
    /// Jump to an instruction if true.
    If(usize),
    /// A block up to an instruction.
    With(usize),
    /// A function: opcode and what precedes the size of its body.
    Func(u8, Seq<u8>),
}

/// An action without a payload.
pub open spec fn bare(o: u8) -> Low {
    Low::Op(o, Seq::empty())
}

/// A terminated text.
pub open spec fn cstr(s: Seq<char>) -> Seq<u8> {
    to_latin1(s).push(0)
}

/// What is wrong with a text.
pub open spec fn text_err(s: Seq<char>) -> Option<Trouble> {
    if is_latin1(s) {
        None
    } else {
        Some(Trouble::NonLatin1(s))
    }
}

/// Whether an opcode stands for a composition of standard actions, which a
/// standard player does not know.
pub open spec fn ea_shorthand(o: u8) -> bool {
    ||| o == op::EA_PUSH_THIS
    ||| op::EA_PUSH_GLOBAL <= o <= op::EA_CALL_METHOD_SET_VAR
    ||| op::EA_PUSH_THIS_VAR <= o <= op::EA_PUSH_UNDEFINED
    ||| o == op::BREAKPOINT
}

/// A reference to an entry of the constant pool.
pub open spec fn constant_ref(index: nat) -> Seq<u8> {
    if index <= 0xFF {
        seq![PUSH_CONSTANT8, index as u8]
    } else {
        seq![PUSH_CONSTANT16] + le(index, 2)
    }
}

/// A pushed value.
pub open spec fn pushed(v: Value) -> Seq<u8> {
    match v {
        Value::String(s) => seq![PUSH_STRING] + cstr(s),
        Value::Float(f) => seq![PUSH_FLOAT] + le(f as nat, 4),
        Value::Undefined => seq![PUSH_UNDEFINED],
        Value::Register(r) => seq![PUSH_REGISTER, r as u8],
        Value::Boolean(b) => seq![
            PUSH_BOOLEAN,
            if b {
                1u8
            } else {
                0u8
            },
        ],
        Value::Integer(i) => seq![PUSH_INTEGER] + le((i as u32) as nat, 4),
        Value::Lookup(i) => constant_ref(i as nat),
    }
}

/// The first `n` pushed values.
pub open spec fn pushes(v: Seq<Value>, n: nat) -> Seq<u8>
    decreases n,
{
    if n == 0 {
        Seq::empty()
    } else {
        pushes(v, (n - 1) as nat) + pushed(v[n - 1])
    }
}

/// What is wrong with the first `n` pushed values.
pub open spec fn pushes_err(v: Seq<Value>, n: nat) -> Option<Trouble>
    decreases n,
{
    if n == 0 {
        None
    } else {
        first_of(
            pushes_err(v, (n - 1) as nat),
            match v[n - 1] {
                Value::String(s) => text_err(s),
                _ => None,
            },
        )
    }
}

/// The text given for a number.
pub open spec fn float_text(texts: Texts, bits: u32) -> Option<Seq<char>>
    decreases texts.len(),
{
    if texts.len() == 0 {
        None
    } else if texts[0].0 == bits {
        Some(texts[0].1)
    } else {
        float_text(texts.skip(1), bits)
    }
}

/// The decimal digits of a number with its sign.
pub open spec fn signed_decimal(v: int) -> Seq<char> {
    if v < 0 {
        seq!['-'] + text::decimal((-v) as nat)
    } else {
        text::decimal(v as nat)
    }
}

/// A value in words.
pub open spec fn value_text(v: Value, texts: Texts) -> Option<Seq<char>> {
    match v {
        Value::String(s) => Some(s),
        Value::Integer(i) => Some(signed_decimal(i as int)),
        Value::Float(f) => float_text(texts, f),
        Value::Boolean(b) => Some(
            if b {
                "true"@
            } else {
                "false"@
            },
        ),
        Value::Register(r) => Some("r"@ + signed_decimal(r as int)),
        Value::Lookup(i) => Some("c"@ + text::decimal(i as nat)),
        Value::Undefined => Some("undefined"@),
    }
}

/// The first `n` entries of a constant pool, which holds texts alone.
pub open spec fn pool_entries(v: Seq<Value>, texts: Texts, n: nat) -> Seq<u8>
    decreases n,
{
    if n == 0 {
        Seq::empty()
    } else {
        pool_entries(v, texts, (n - 1) as nat) + cstr(value_text(v[n - 1], texts)->0)
    }
}

/// What is wrong with a value in a constant pool.
pub open spec fn entry_err(v: Value, texts: Texts) -> Option<Trouble> {
    match value_text(v, texts) {
        Some(s) => text_err(s),
        None => Some(Trouble::NoFloatText(v->Float_0)),
    }
}

/// What is wrong with the first `n` entries of a constant pool.
pub open spec fn pool_err(v: Seq<Value>, texts: Texts, n: nat) -> Option<Trouble>
    decreases n,
{
    if n == 0 {
        None
    } else {
        first_of(pool_err(v, texts, (n - 1) as nat), entry_err(v[n - 1], texts))
    }
}

/// A constant pool: the number of entries, and the entries.
pub open spec fn constant_pool(v: Seq<Value>, texts: Texts) -> Seq<u8> {
    le(v.len(), 2) + pool_entries(v, texts, v.len())
}

/// The names of the first `n` parameters.
pub open spec fn param_names(v: Seq<Seq<char>>, n: nat) -> Seq<u8>
    decreases n,
{
    if n == 0 {
        Seq::empty()
    } else {
        param_names(v, (n - 1) as nat) + cstr(v[n - 1])
    }
}

pub open spec fn names_err(v: Seq<Seq<char>>, n: nat) -> Option<Trouble>
    decreases n,
{
    if n == 0 {
        None
    } else {
        first_of(names_err(v, (n - 1) as nat), text_err(v[n - 1]))
    }
}

/// The registers and names of the first `n` parameters.
pub open spec fn reg_params(v: Seq<(u32, Seq<char>)>, n: nat) -> Seq<u8>
    decreases n,
{
    if n == 0 {
        Seq::empty()
    } else {
        reg_params(v, (n - 1) as nat) + seq![v[n - 1].0 as u8] + cstr(v[n - 1].1)
    }
}

pub open spec fn reg_params_err(v: Seq<(u32, Seq<char>)>, n: nat) -> Option<Trouble>
    decreases n,
{
    if n == 0 {
        None
    } else {
        first_of(reg_params_err(v, (n - 1) as nat), text_err(v[n - 1].1))
    }
}

/// The push of one value.
pub open spec fn push_one(v: Value) -> Low {
    Low::Op(op::PUSH, pushed(v))
}

/// The standard actions that a shorthand opcode composes.
pub open spec fn expansion(o: u8) -> Seq<Low> {
    if o == op::EA_PUSH_THIS {
        seq![push_one(Value::String("this"@))]
    } else if o == op::EA_PUSH_GLOBAL {
        seq![push_one(Value::String("_global"@))]
    } else if o == op::EA_PUSH_ZERO {
        seq![push_one(Value::Integer(0))]
    } else if o == op::EA_PUSH_ONE {
        seq![push_one(Value::Integer(1))]
    } else if o == op::EA_CALL_FUNC_POP {
        seq![bare(op::CALL_FUNCTION), bare(op::POP)]
    } else if o == op::EA_CALL_FUNC_SET_VAR {
        seq![bare(op::CALL_FUNCTION), bare(op::SET_VARIABLE)]
    } else if o == op::EA_CALL_METHOD_POP {
        seq![bare(op::CALL_METHOD), bare(op::POP)]
    } else if o == op::EA_CALL_METHOD_SET_VAR {
        seq![bare(op::CALL_METHOD), bare(op::SET_VARIABLE)]
    } else if o == op::EA_PUSH_THIS_VAR {
        seq![push_one(Value::String("this"@)), bare(op::GET_VARIABLE)]
    } else if o == op::EA_PUSH_GLOBAL_VAR {
        seq![push_one(Value::String("_global"@)), bare(op::GET_VARIABLE)]
    } else if o == op::EA_PUSH_ZERO_SET_VAR {
        seq![push_one(Value::Integer(0)), bare(op::SET_VARIABLE)]
    } else if o == op::EA_PUSH_TRUE {
        seq![push_one(Value::Boolean(true))]
    } else if o == op::EA_PUSH_FALSE {
        seq![push_one(Value::Boolean(false))]
    } else if o == op::EA_PUSH_NULL {
        seq![Low::Op(op::PUSH, seq![PUSH_NULL])]
    } else if o == op::EA_PUSH_UNDEFINED {
        seq![Low::Op(op::PUSH, seq![PUSH_UNDEFINED])]
    } else {
        Seq::empty()
    }
}

/// The actions that an opcode without a payload becomes. Two of them have one in
/// SWF: no method, target or variables, and no frames to skip.
pub open spec fn lower_simple(o: u8) -> Seq<Low> {
    if o == op::GET_URL2 {
        seq![Low::Op(op::GET_URL2, seq![0u8])]
    } else if o == op::WAIT_FOR_FRAME {
        seq![Low::Op(op::WAIT_FOR_FRAME, seq![0u8, 0u8, 0u8])]
    } else if ea_shorthand(o) {
        expansion(o)
    } else {
        seq![bare(o)]
    }
}

/// The actions that follow the push of a string.
pub open spec fn after_string(kind: PushStringKind) -> Seq<Low> {
    match kind {
        PushStringKind::Push => Seq::empty(),
        PushStringKind::GetVar => seq![bare(op::GET_VARIABLE)],
        PushStringKind::GetMember => seq![bare(op::GET_MEMBER)],
        PushStringKind::SetVar => seq![bare(op::SET_VARIABLE)],
        PushStringKind::SetMember => seq![bare(op::SET_MEMBER)],
    }
}

/// The actions that follow the push of a constant.
pub open spec fn after_constant(kind: DictRefKind) -> Seq<Low> {
    match kind {
        DictRefKind::PushByte => Seq::empty(),
        DictRefKind::PushWord => Seq::empty(),
        DictRefKind::ByteGetVar => seq![bare(op::GET_VARIABLE)],
        DictRefKind::ByteGetMember => seq![bare(op::GET_MEMBER)],
        DictRefKind::CallFuncPop => seq![bare(op::CALL_FUNCTION), bare(op::POP)],
        DictRefKind::CallFuncSetVar => seq![bare(op::CALL_FUNCTION), bare(op::SET_VARIABLE)],
        DictRefKind::CallMethodPop => seq![bare(op::CALL_METHOD), bare(op::POP)],
        DictRefKind::CallMethodSetVar => seq![bare(op::CALL_METHOD), bare(op::SET_VARIABLE)],
    }
}

/// What precedes the size of a function's body.
pub open spec fn function_head(name: Seq<char>, params: Seq<Seq<char>>) -> Seq<u8> {
    cstr(name) + le(params.len(), 2) + param_names(params, params.len())
}

/// What precedes the size of the body of a function with registers.
pub open spec fn function2_head(
    name: Seq<char>,
    params: Seq<(u32, Seq<char>)>,
    register_count: i16,
    flags: i16,
) -> Seq<u8> {
    cstr(name) + le(params.len(), 2) + seq![register_count as u8] + le((flags as u16) as nat, 2)
        + reg_params(params, params.len())
}

/// The actions that an instruction becomes.
#[verifier::opaque]
pub open spec fn lower(insn: Instruction, texts: Texts) -> Seq<Low> {
    match insn {
        Instruction::End => seq![bare(op::END)],
        Instruction::Simple(o) => lower_simple(o),
        Instruction::GotoFrame(f) => seq![Low::Op(op::GOTO_FRAME, le((f as u16) as nat, 2))],
        Instruction::GetUrl { url, target } => seq![Low::Op(op::GET_URL, cstr(url) + cstr(target))],
        Instruction::StoreRegister(r) => seq![Low::Op(op::STORE_REGISTER, seq![r as u8])],
        Instruction::SetTarget(t) => seq![Low::Op(op::SET_TARGET, cstr(t))],
        Instruction::GotoLabel(l) => seq![Low::Op(op::GOTO_LABEL, cstr(l))],
        Instruction::GotoFrame2 { play } => seq![
            Low::Op(
                op::GOTO_FRAME2,
                seq![
                    if play {
                        1u8
                    } else {
                        0u8
                    },
                ],
            ),
        ],
        Instruction::Push(v) => seq![Low::Op(op::PUSH, pushes(v, v.len()))],
        Instruction::DefineDictionary(v) => seq![
            Low::Op(op::DEFINE_DICTIONARY, constant_pool(v, texts)),
        ],
        Instruction::DefineFunction { name, params, .. } => seq![
            Low::Func(op::DEFINE_FUNCTION, function_head(name, params)),
        ],
        Instruction::DefineFunction2 { name, params, register_count, flags, .. } => seq![
            Low::Func(
                op::DEFINE_FUNCTION2,
                function2_head(name, params, register_count, flags),
            ),
        ],
        Instruction::With { end_target } => seq![Low::With(end_target)],
        Instruction::BranchAlways { target } => seq![Low::Jump(target)],
        Instruction::BranchIfTrue { target } => seq![Low::If(target)],
        Instruction::BranchIfFalse { target } => seq![bare(op::NOT), Low::If(target)],
        Instruction::Try { .. } => Seq::empty(),
        Instruction::TraceStart(_) => Seq::empty(),
        Instruction::PushString { kind, value } => seq![push_one(Value::String(value))]
            + after_string(kind),
        Instruction::DictRef { kind, index } => seq![
            Low::Op(op::PUSH, constant_ref(index as nat)),
        ] + after_constant(kind),
        Instruction::PushFloat(v) => seq![push_one(Value::Float(v))],
        Instruction::PushByte(v) => seq![push_one(Value::Integer(v as i32))],
        Instruction::PushWord(v) => seq![push_one(Value::Integer(v as i32))],
        Instruction::PushDWord(v) => seq![push_one(Value::Integer(v as i32))],
        Instruction::PushRegister(v) => seq![push_one(Value::Register(v as i32))],
    }
}

/// Why an instruction has no translation.
#[verifier::opaque]
pub open spec fn lower_err(insn: Instruction, texts: Texts) -> Option<Trouble> {
    match insn {
        Instruction::GetUrl { url, target } => first_of(text_err(url), text_err(target)),
        Instruction::SetTarget(t) => text_err(t),
        Instruction::GotoLabel(l) => text_err(l),
        Instruction::Push(v) => pushes_err(v, v.len()),
        Instruction::DefineDictionary(v) => pool_err(v, texts, v.len()),
        Instruction::DefineFunction { name, params, .. } => first_of(
            text_err(name),
            names_err(params, params.len()),
        ),
        Instruction::DefineFunction2 { name, params, .. } => first_of(
            text_err(name),
            reg_params_err(params, params.len()),
        ),
        Instruction::Try { .. } => Some(Trouble::Unsupported),
        Instruction::PushString { value, .. } => text_err(value),
        _ => None,
    }
}

/// The body of a function.
pub open spec fn body_of(insn: Instruction) -> Option<Seq<Instruction>> {
    match insn {
        Instruction::DefineFunction { body, .. } => Some(body),
        Instruction::DefineFunction2 { body, .. } => Some(body),
        _ => None,
    }
}

/// The size of an action; `inner` is the size of the function's body.
pub open spec fn low_size(low: Low, inner: nat) -> nat {
    match low {
        Low::Op(o, p) => if o >= 0x80 {
            3 + p.len()
        } else {
            1
        },
        Low::Jump(_) => 5,
        Low::If(_) => 5,
        Low::With(_) => 5,
        Low::Func(_, h) => 3 + h.len() + 2 + inner,
    }
}

/// The size of the first `n` actions.
pub open spec fn lows_size(v: Seq<Low>, inner: nat, n: nat) -> nat
    decreases n,
{
    if n == 0 {
        0
    } else {
        lows_size(v, inner, (n - 1) as nat) + low_size(v[n - 1], inner)
    }
}

/// The size of what an instruction becomes.
pub open spec fn insn_size(insn: Instruction, texts: Texts) -> nat
    decreases insn, 0int,
{
    let inner = match insn {
        Instruction::DefineFunction { body, .. } => stream_size(body, texts, body.len()),
        Instruction::DefineFunction2 { body, .. } => stream_size(body, texts, body.len()),
        _ => 0,
    };
    lows_size(lower(insn, texts), inner, lower(insn, texts).len())
}

/// The size of what the first `n` instructions become.
pub open spec fn stream_size(s: Seq<Instruction>, texts: Texts, n: nat) -> nat
    decreases s, n,
{
    if n == 0 || n > s.len() {
        0
    } else {
        stream_size(s, texts, (n - 1) as nat) + insn_size(s[n - 1], texts)
    }
}

/// Where each instruction starts, and where the last one ends.
pub open spec fn starts(s: Seq<Instruction>, texts: Texts) -> Seq<nat> {
    Seq::new((s.len() + 1) as nat, |k: int| stream_size(s, texts, k as nat))
}

/// An opcode with its payload. The length field holds the low 16 bits.
pub open spec fn op_code(o: u8, payload: Seq<u8>) -> Seq<u8> {
    if o >= 0x80 {
        seq![o] + le(payload.len(), 2) + payload
    } else {
        seq![o]
    }
}

/// An action that ends at `after`; `at` says where the instructions start and
/// `inner` is the body of the function.
pub open spec fn low_code(low: Low, after: int, at: Seq<nat>, inner: Seq<u8>) -> Seq<u8> {
    match low {
        Low::Op(o, p) => op_code(o, p),
        Low::Jump(t) => op_code(
            op::BRANCH_ALWAYS,
            le(((at[t as int] - after) as u16) as nat, 2),
        ),
        Low::If(t) => op_code(op::BRANCH_IF_TRUE, le(((at[t as int] - after) as u16) as nat, 2)),
        Low::With(t) => op_code(
            op::WITH,
            le(
                if at[t as int] > after {
                    (at[t as int] - after) as nat
                } else {
                    0
                },
                2,
            ),
        ),
        Low::Func(o, h) => seq![o] + le(h.len() + 2, 2) + h + le(inner.len(), 2) + inner,
    }
}

/// The first `n` actions, starting at `from`.
pub open spec fn lows_code(v: Seq<Low>, from: int, at: Seq<nat>, inner: Seq<u8>, n: nat) -> Seq<u8>
    decreases n,
{
    if n == 0 {
        Seq::empty()
    } else {
        let before = lows_code(v, from, at, inner, (n - 1) as nat);
        before + low_code(
            v[n - 1],
            from + before.len() + low_size(v[n - 1], inner.len()),
            at,
            inner,
        )
    }
}

/// What an instruction that starts at `from` becomes.
pub open spec fn insn_code(insn: Instruction, texts: Texts, from: int, at: Seq<nat>) -> Seq<u8>
    decreases insn, 0int,
{
    let inner = match insn {
        Instruction::DefineFunction { body, .. } => stream_code(
            body,
            texts,
            starts(body, texts),
            body.len(),
        ),
        Instruction::DefineFunction2 { body, .. } => stream_code(
            body,
            texts,
            starts(body, texts),
            body.len(),
        ),
        _ => Seq::empty(),
    };
    lows_code(lower(insn, texts), from, at, inner, lower(insn, texts).len())
}

/// What the first `n` instructions become, where `at` says where the instructions
/// start.
pub open spec fn stream_code(s: Seq<Instruction>, texts: Texts, at: Seq<nat>, n: nat) -> Seq<u8>
    decreases s, n,
{
    if n == 0 || n > s.len() {
        Seq::empty()
    } else {
        let before = stream_code(s, texts, at, (n - 1) as nat);
        before + insn_code(s[n - 1], texts, before.len() as int, at)
    }
}

/// What an action stream becomes.
pub open spec fn code(s: Seq<Instruction>, texts: Texts) -> Seq<u8> {
    stream_code(s, texts, starts(s, texts), s.len())
}

/// Why one of the first `n` instructions has no translation.
pub open spec fn lowers_err(s: Seq<Instruction>, texts: Texts, n: nat) -> Option<Trouble>
    decreases n,
{
    if n == 0 {
        None
    } else {
        first_of(lowers_err(s, texts, (n - 1) as nat), lower_err(s[n - 1], texts))
    }
}

/// A branch of an instruction past the end of a stream of `len` instructions.
pub open spec fn branch_err(insn: Instruction, len: nat) -> Option<Trouble> {
    match insn {
        Instruction::With { end_target } => if end_target > len {
            Some(Trouble::UnresolvedBranch(end_target))
        } else {
            None
        },
        Instruction::BranchAlways { target } => if target > len {
            Some(Trouble::UnresolvedBranch(target))
        } else {
            None
        },
        Instruction::BranchIfTrue { target } => if target > len {
            Some(Trouble::UnresolvedBranch(target))
        } else {
            None
        },
        Instruction::BranchIfFalse { target } => if target > len {
            Some(Trouble::UnresolvedBranch(target))
        } else {
            None
        },
        _ => None,
    }
}

/// The first bad branch among the first `n` instructions.
pub open spec fn branches_err(s: Seq<Instruction>, n: nat) -> Option<Trouble>
    decreases n,
{
    if n == 0 {
        None
    } else {
        first_of(branches_err(s, (n - 1) as nat), branch_err(s[n - 1], s.len()))
    }
}

/// Why the body of a function has no translation.
pub open spec fn body_err(insn: Instruction, texts: Texts) -> Option<Trouble>
    decreases insn, 0int,
{
    match insn {
        Instruction::DefineFunction { body, .. } => stream_err(body, texts),
        Instruction::DefineFunction2 { body, .. } => stream_err(body, texts),
        _ => None,
    }
}

/// Why the body of one of the first `n` instructions has no translation.
pub open spec fn bodies_err(s: Seq<Instruction>, texts: Texts, n: nat) -> Option<Trouble>
    decreases s, n,
{
    if n == 0 || n > s.len() {
        None
    } else {
        first_of(bodies_err(s, texts, (n - 1) as nat), body_err(s[n - 1], texts))
    }
}

/// Why an action stream has no translation: its instructions first, the bodies of
/// its functions next, its branches last.
pub open spec fn stream_err(s: Seq<Instruction>, texts: Texts) -> Option<Trouble>
    decreases s, s.len() + 1,
{
    first_of(
        lowers_err(s, texts, s.len()),
        first_of(bodies_err(s, texts, s.len()), branches_err(s, s.len())),
    )
}

/// The size of an action is the size of its bytes.
pub proof fn lemma_low_size(low: Low, after: int, at: Seq<nat>, inner: Seq<u8>)
    ensures
        low_code(low, after, at, inner).len() == low_size(low, inner.len()),
{
    match low {
        Low::Op(o, p) => {
            bytes::lemma_le_len(p.len(), 2);
        },
        Low::Jump(t) => {
            let d = le(((at[t as int] - after) as u16) as nat, 2);
            bytes::lemma_le_len(((at[t as int] - after) as u16) as nat, 2);
            bytes::lemma_le_len(d.len(), 2);
        },
        Low::If(t) => {
            let d = le(((at[t as int] - after) as u16) as nat, 2);
            bytes::lemma_le_len(((at[t as int] - after) as u16) as nat, 2);
            bytes::lemma_le_len(d.len(), 2);
        },
        Low::With(t) => {
            let gap: nat = if at[t as int] > after {
                (at[t as int] - after) as nat
            } else {
                0
            };
            bytes::lemma_le_len(gap, 2);
            bytes::lemma_le_len(le(gap, 2).len(), 2);
        },
        Low::Func(o, h) => {
            bytes::lemma_le_len(h.len() + 2, 2);
            bytes::lemma_le_len(inner.len(), 2);
        },
    }
}

pub proof fn lemma_lows_size(v: Seq<Low>, from: int, at: Seq<nat>, inner: Seq<u8>, n: nat)
    ensures
        lows_code(v, from, at, inner, n).len() == lows_size(v, inner.len(), n),
    decreases n,
{
    if n > 0 {
        lemma_lows_size(v, from, at, inner, (n - 1) as nat);
        let before = lows_code(v, from, at, inner, (n - 1) as nat);
        let after = from + before.len() + low_size(v[n - 1], inner.len());
        lemma_low_size(v[n - 1], after, at, inner);
    }
}

pub proof fn lemma_insn_size(insn: Instruction, texts: Texts, from: int, at: Seq<nat>)
    ensures
        insn_code(insn, texts, from, at).len() == insn_size(insn, texts),
    decreases insn, 0int,
{
    let lows = lower(insn, texts);
    match insn {
        Instruction::DefineFunction { body, .. } => {
            lemma_stream_size(body, texts, starts(body, texts), body.len());
            lemma_lows_size(lows, from, at, code(body, texts), lows.len());
        },
        Instruction::DefineFunction2 { body, .. } => {
            lemma_stream_size(body, texts, starts(body, texts), body.len());
            lemma_lows_size(lows, from, at, code(body, texts), lows.len());
        },
        _ => {
            lemma_lows_size(lows, from, at, Seq::empty(), lows.len());
        },
    }
}

pub proof fn lemma_stream_size(s: Seq<Instruction>, texts: Texts, at: Seq<nat>, n: nat)
    ensures
        stream_code(s, texts, at, n).len() == stream_size(s, texts, n),
    decreases s, n,
{
    if 0 < n <= s.len() {
        lemma_stream_size(s, texts, at, (n - 1) as nat);
        let before = stream_code(s, texts, at, (n - 1) as nat);
        lemma_insn_size(s[n - 1], texts, before.len() as int, at);
    }
}

/// The code of a stream has the size that its branches were resolved with: the
/// bytes of each instruction start where the branches to it lead.
pub proof fn law_code_size(s: Seq<Instruction>, texts: Texts, k: nat)
    requires
        k <= s.len(),
    ensures
        code(s, texts).len() == stream_size(s, texts, s.len()),
        stream_code(s, texts, starts(s, texts), k).len() == starts(s, texts)[k as int],
{
    lemma_stream_size(s, texts, starts(s, texts), s.len());
    lemma_stream_size(s, texts, starts(s, texts), k);
}

/// The opcode of an action.
pub open spec fn low_op(low: Low) -> u8 {
    match low {
        Low::Op(o, _) => o,
        Low::Jump(_) => op::BRANCH_ALWAYS,
        Low::If(_) => op::BRANCH_IF_TRUE,
        Low::With(_) => op::WITH,
        Low::Func(o, _) => o,
    }
}

/// No instruction becomes a shorthand opcode, which a standard player rejects.
pub proof fn law_no_shorthand(insn: Instruction, texts: Texts, i: int)
    requires
        0 <= i < lower(insn, texts).len(),
    ensures
        !ea_shorthand(low_op(lower(insn, texts)[i])),
{
    reveal(lower);
}

} // verus!
