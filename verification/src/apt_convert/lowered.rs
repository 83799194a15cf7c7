//! Whatever an action stream becomes in standard bytecode can be read.
use super::avm1::{self, Low, Texts};
use super::bridge::{
    self, clean_all, holds, lemma_names, lemma_number, lemma_op, lemma_split, lemma_text, special,
};
use super::reading;
use crate::apt::bytes::{self, le};
use crate::apt::clean::clean_value;
use crate::apt::model::{Instruction, Value};
use crate::apt::opcode as op;
use crate::apt::readback::clean;
use vstd::prelude::*;

verus! {

/// An instruction that has a translation whose operands fit in their actions: texts
/// without zero characters, and payloads of at most 65535 bytes.
pub open spec fn fits(insn: Instruction, texts: Texts) -> bool {
    match insn {
        Instruction::Simple(o) => !special(o),
        Instruction::GetUrl { url, target } => {
            clean(url) && clean(target) && url.len() + target.len() + 2 <= 0xFFFF
        },
        Instruction::SetTarget(t) => clean(t) && t.len() < 0xFFFF,
        Instruction::GotoLabel(l) => clean(l) && l.len() < 0xFFFF,
        Instruction::Push(v) => {
            &&& forall|i: int| 0 <= i < v.len() ==> clean_value(#[trigger] v[i])
            &&& avm1::pushes(v, v.len()).len() <= 0xFFFF
        },
        Instruction::DefineDictionary(v) => {
            &&& forall|i: int|
                0 <= i < v.len() ==> (avm1::value_text(#[trigger] v[i], texts) matches Some(s)
                    && clean(s))
            &&& v.len() <= 0xFFFF
            &&& avm1::constant_pool(v, texts).len() <= 0xFFFF
        },
        Instruction::DefineFunction { name, params, .. } => {
            &&& clean(name)
            &&& clean_all(params)
            &&& params.len() <= 0xFFFF
            &&& avm1::function_head(name, params).len() + 2 <= 0xFFFF
        },
        Instruction::DefineFunction2 { name, params, register_count, flags, .. } => {
            &&& clean(name)
            &&& forall|i: int| 0 <= i < params.len() ==> clean((#[trigger] params[i]).1)
            &&& params.len() <= 0xFFFF
            &&& avm1::function2_head(name, params, register_count, flags).len() + 2 <= 0xFFFF
        },
        Instruction::PushString { value, .. } => clean(value) && value.len() + 2 <= 0xFFFF,
        Instruction::Try { .. } => false,
        _ => true,
    }
}

/// An action stream whose operands fit, down to the bodies of its functions.
pub open spec fn fitting(s: Seq<Instruction>, texts: Texts) -> bool
    decreases s, 1nat,
{
    forall|k: int| 0 <= k < s.len() ==> fitting_at(#[trigger] s[k], texts)
}

/// An instruction whose operands fit, down to its body.
pub open spec fn fitting_at(insn: Instruction, texts: Texts) -> bool
    decreases insn, 0nat,
{
    &&& fits(insn, texts)
    &&& match insn {
        Instruction::DefineFunction { body, .. } => {
            fitting(body, texts) && avm1::code(body, texts).len() <= 0xFFFF
        },
        Instruction::DefineFunction2 { body, .. } => {
            fitting(body, texts) && avm1::code(body, texts).len() <= 0xFFFF
        },
        _ => true,
    }
}

/// A pushed value can be read.
proof fn lemma_value(d: Seq<u8>, pos: int, v: Value)
    requires
        clean_value(v),
        holds(d, pos, avm1::pushed(v)),
    ensures
        reading::value_at(d, pos) matches Ok(r) && r.1 == pos + avm1::pushed(v).len(),
        avm1::pushed(v).len() > 0,
{
    let b = avm1::pushed(v);
    assert(d[pos + 0] == b[0]);
    match v {
        Value::String(s) => {
            lemma_split(d, pos, seq![avm1::PUSH_STRING], avm1::cstr(s));
            lemma_text(d, pos + 1, s);
        },
        Value::Float(f) => {
            bytes::lemma_le_len(f as nat, 4);
        },
        Value::Integer(i) => {
            bytes::lemma_le_len((i as u32) as nat, 4);
        },
        Value::Lookup(i) => {
            bytes::lemma_le_len(i as nat, 2);
        },
        _ => {},
    }
}

proof fn lemma_pushes_prefix(v: Seq<Value>, k: nat, n: nat)
    requires
        k <= n,
    ensures
        holds(avm1::pushes(v, n), 0, avm1::pushes(v, k)),
    decreases n,
{
    if k < n {
        lemma_pushes_prefix(v, k, (n - 1) as nat);
        let a = avm1::pushes(v, (n - 1) as nat);
        let d = avm1::pushes(v, n);
        let b = avm1::pushes(v, k);
        assert forall|i: int| 0 <= i < b.len() implies d[0 + i] == #[trigger] b[i] by {
            assert(a[0 + i] == b[i]);
        }
    }
}

/// The pushed values from the `k`-th on can be read.
proof fn lemma_values(v: Seq<Value>, k: nat)
    requires
        k <= v.len(),
        forall|i: int| 0 <= i < v.len() ==> clean_value(#[trigger] v[i]),
    ensures
        reading::values(avm1::pushes(v, v.len()), avm1::pushes(v, k).len() as int) is Ok,
    decreases v.len() - k,
{
    let d = avm1::pushes(v, v.len());
    lemma_pushes_prefix(v, k, v.len());
    if k < v.len() {
        lemma_values(v, k + 1);
        lemma_pushes_prefix(v, k + 1, v.len());
        lemma_split(d, 0, avm1::pushes(v, k), avm1::pushed(v[k as int]));
        lemma_value(d, avm1::pushes(v, k).len() as int, v[k as int]);
    }
}

/// The texts of the entries of a constant pool.
pub open spec fn entry_texts(v: Seq<Value>, texts: Texts) -> Seq<Seq<char>> {
    Seq::new(v.len(), |i: int| avm1::value_text(v[i], texts)->0)
}

proof fn lemma_entries(v: Seq<Value>, texts: Texts, n: nat)
    requires
        n <= v.len(),
    ensures
        avm1::pool_entries(v, texts, n) == avm1::param_names(entry_texts(v, texts), n),
    decreases n,
{
    if n > 0 {
        lemma_entries(v, texts, (n - 1) as nat);
    }
}

proof fn lemma_pool(v: Seq<Value>, texts: Texts)
    requires
        fits(Instruction::DefineDictionary(v), texts),
    ensures
        reading::pool(avm1::constant_pool(v, texts)) is Ok,
{
    let d = avm1::constant_pool(v, texts);
    let names = entry_texts(v, texts);
    bytes::lemma_capacity();
    bytes::lemma_le_len(v.len(), 2);
    lemma_entries(v, texts, v.len());
    assert(holds(d, 0, le(v.len(), 2) + avm1::param_names(names, v.len())));
    lemma_split(d, 0, le(v.len(), 2), avm1::param_names(names, v.len()));
    lemma_number(d, 0, v.len(), 2);
    assert forall|i: int| 0 <= i < names.len() implies clean(#[trigger] names[i]) by {
        assert(avm1::value_text(v[i], texts) is Some);
    }
    lemma_names(d, 2, names, 0);
}

/// Registers as bytes hold them.
pub open spec fn in_bytes(v: Seq<(u32, Seq<char>)>) -> Seq<(u32, Seq<char>)> {
    Seq::new(v.len(), |i: int| ((v[i].0 as u8) as u32, v[i].1))
}

proof fn lemma_in_bytes(v: Seq<(u32, Seq<char>)>, n: nat)
    requires
        n <= v.len(),
    ensures
        avm1::reg_params(in_bytes(v), n) == avm1::reg_params(v, n),
    decreases n,
{
    if n > 0 {
        lemma_in_bytes(v, (n - 1) as nat);
        assert(((v[n - 1].0 as u8) as u32) as u8 == v[n - 1].0 as u8);
    }
}

/// An action that can be read whatever follows it; `inner` is the body of the
/// function.
pub open spec fn legible(low: Low, inner: Seq<u8>) -> bool {
    match low {
        Low::Op(o, p) => {
            &&& o >= 0x80 ==> p.len() <= 0xFFFF
            &&& o < 0x80 ==> p.len() == 0
            &&& forall|after: int|
                (#[trigger] reading::step(o, p, after)) matches Ok(st) && st.size is None
        },
        Low::Func(o, h) => {
            &&& o >= 0x80
            &&& h.len() + 2 <= 0xFFFF
            &&& inner.len() <= 0xFFFF
            &&& reading::block(inner) is Ok
            &&& forall|after: int|
                (#[trigger] reading::step(o, h + le(inner.len(), 2), after)) matches Ok(st)
                    && st.size == Some(inner.len())
        },
        _ => true,
    }
}

/// An action is read where what follows it is.
proof fn lemma_low(d: Seq<u8>, pos: int, low: Low, at: Seq<nat>, inner: Seq<u8>)
    requires
        legible(low, inner),
        holds(d, pos, avm1::low_code(low, pos + avm1::low_size(low, inner.len()), at, inner)),
        reading::raws(d, pos + avm1::low_size(low, inner.len())) is Ok,
    ensures
        reading::raws(d, pos) is Ok,
{
    let after = pos + avm1::low_size(low, inner.len());
    let code = avm1::low_code(low, after, at, inner);
    avm1::lemma_low_size(low, after, at, inner);
    match low {
        Low::Op(o, p) => {
            lemma_op(d, pos, o, p);
            assert(reading::step(o, p, after) is Ok);
        },
        Low::Func(o, h) => {
            let p = h + le(inner.len(), 2);
            bytes::lemma_le_len(inner.len(), 2);
            bytes::lemma_le_len(h.len() + 2, 2);
            assert(code =~= avm1::op_code(o, p) + inner);
            lemma_split(d, pos, avm1::op_code(o, p), inner);
            lemma_op(d, pos, o, p);
            let body = pos + avm1::op_code(o, p).len();
            assert(reading::step(o, p, body) is Ok);
            assert(reading::up_to(d, body, inner.len()) =~= inner) by {
                assert forall|i: int| 0 <= i < inner.len() implies d[body + i] == inner[i] by {}
            }
        },
        Low::Jump(t) => {
            let p = le(((at[t as int] - after) as u16) as nat, 2);
            bytes::lemma_le_len(((at[t as int] - after) as u16) as nat, 2);
            lemma_op(d, pos, op::BRANCH_ALWAYS, p);
            reveal(reading::step);
        },
        Low::If(t) => {
            let p = le(((at[t as int] - after) as u16) as nat, 2);
            bytes::lemma_le_len(((at[t as int] - after) as u16) as nat, 2);
            lemma_op(d, pos, op::BRANCH_IF_TRUE, p);
            reveal(reading::step);
        },
        Low::With(t) => {
            let v: nat = if at[t as int] > after {
                (at[t as int] - after) as nat
            } else {
                0
            };
            bytes::lemma_le_len(v, 2);
            lemma_op(d, pos, op::WITH, le(v, 2));
            reveal(reading::step);
        },
    }
}

/// Actions are read where what follows them is.
proof fn lemma_lows(d: Seq<u8>, from: int, v: Seq<Low>, at: Seq<nat>, inner: Seq<u8>, n: nat)
    requires
        n <= v.len(),
        forall|i: int| 0 <= i < v.len() ==> legible(#[trigger] v[i], inner),
        holds(d, from, avm1::lows_code(v, from, at, inner, n)),
        reading::raws(d, from + avm1::lows_code(v, from, at, inner, n).len()) is Ok,
    ensures
        reading::raws(d, from) is Ok,
    decreases n,
{
    if n > 0 {
        let before = avm1::lows_code(v, from, at, inner, (n - 1) as nat);
        let low = v[n - 1];
        let pos = from + before.len();
        let code = avm1::low_code(low, pos + avm1::low_size(low, inner.len()), at, inner);
        avm1::lemma_low_size(low, pos + avm1::low_size(low, inner.len()), at, inner);
        lemma_split(d, from, before, code);
        lemma_low(d, pos, low, at, inner);
        lemma_lows(d, from, v, at, inner, (n - 1) as nat);
    }
}

/// The push of a value can be read.
proof fn lemma_push_one(v: Value)
    requires
        clean_value(v),
        avm1::pushed(v).len() <= 0xFFFF,
    ensures
        legible(avm1::push_one(v), Seq::empty()),
{
    let s = seq![v];
    reveal_with_fuel(avm1::pushes, 2);
    assert(avm1::pushes(s, 1) =~= avm1::pushed(v));
    assert(avm1::pushes(s, 0).len() == 0);
    lemma_values(s, 0);
    assert forall|after: int|
        (#[trigger] reading::step(op::PUSH, avm1::pushed(v), after)) matches Ok(st)
            && st.size is None by {
        reveal(reading::step);
    }
}

/// An opcode without a payload can be read.
proof fn lemma_bare(o: u8)
    requires
        !special(o),
    ensures
        legible(avm1::bare(o), Seq::empty()),
{
    assert forall|after: int|
        (#[trigger] reading::step(o, Seq::empty(), after)) matches Ok(st) && st.size is None by {
        reveal(reading::step);
    }
}

/// What an opcode without a payload becomes can be read.
proof fn lemma_simple(o: u8, i: int)
    requires
        !special(o),
        0 <= i < avm1::lower_simple(o).len(),
    ensures
        legible(avm1::lower_simple(o)[i], Seq::empty()),
{
    reveal_strlit("this");
    reveal_strlit("_global");
    assert(clean("this"@));
    assert(clean("_global"@));
    bytes::lemma_le_len((0i32 as u32) as nat, 4);
    bytes::lemma_le_len((1i32 as u32) as nat, 4);
    lemma_push_one(Value::String("this"@));
    lemma_push_one(Value::String("_global"@));
    lemma_push_one(Value::Integer(0));
    lemma_push_one(Value::Integer(1));
    lemma_push_one(Value::Boolean(true));
    lemma_push_one(Value::Boolean(false));
    lemma_push_one(Value::Undefined);
    lemma_bare(op::CALL_FUNCTION);
    lemma_bare(op::POP);
    lemma_bare(op::SET_VARIABLE);
    lemma_bare(op::CALL_METHOD);
    lemma_bare(op::GET_VARIABLE);
    lemma_bare(o);
    let null = seq![avm1::PUSH_NULL];
    assert forall|after: int|
        (#[trigger] reading::step(op::PUSH, null, after)) matches Ok(st) && st.size is None by {
        reveal(reading::step);
        reveal_with_fuel(reading::values, 2);
    }
    assert forall|p: Seq<u8>, after: int|
        (#[trigger] reading::step(op::GET_URL2, p, after)) matches Ok(st) && st.size is None by {
        reveal(reading::step);
    }
    assert forall|p: Seq<u8>, after: int|
        (#[trigger] reading::step(op::WAIT_FOR_FRAME, p, after)) matches Ok(st)
            && st.size is None by {
        reveal(reading::step);
    }
}

/// The body of a function in bytes; other instructions have none.
pub open spec fn body_code(insn: Instruction, texts: Texts) -> Seq<u8> {
    match avm1::body_of(insn) {
        Some(body) => avm1::code(body, texts),
        None => Seq::empty(),
    }
}

/// What a function becomes can be read where its body can.
proof fn lemma_function(insn: Instruction, texts: Texts)
    requires
        fits(insn, texts),
        avm1::body_of(insn) is Some,
        body_code(insn, texts).len() <= 0xFFFF,
        reading::block(body_code(insn, texts)) is Ok,
    ensures
        avm1::lower(insn, texts).len() == 1,
        legible(avm1::lower(insn, texts)[0], body_code(insn, texts)),
{
    reveal(avm1::lower);
    let b = body_code(insn, texts);
    match insn {
        Instruction::DefineFunction { name, params, .. } => {
            bridge::lemma_function(name, params, b.len());
            let p = avm1::function_head(name, params) + le(b.len(), 2);
            assert forall|after: int|
                (#[trigger] reading::step(op::DEFINE_FUNCTION, p, after)) matches Ok(st)
                    && st.size == Some(b.len()) by {
                reveal(reading::step);
            }
        },
        Instruction::DefineFunction2 { name, params, register_count, flags, .. } => {
            let v = in_bytes(params);
            let r = (register_count as u8) as i16;
            lemma_in_bytes(params, params.len());
            assert(r as u8 == register_count as u8);
            assert forall|i: int| 0 <= i < v.len() implies clean((#[trigger] v[i]).1) by {
                assert(clean(params[i].1));
            }
            bridge::lemma_function2(name, v, r, flags, b.len());
            let p = avm1::function2_head(name, params, register_count, flags) + le(b.len(), 2);
            assert(p == avm1::function2_head(name, v, r, flags) + le(b.len(), 2));
            assert forall|after: int|
                (#[trigger] reading::step(op::DEFINE_FUNCTION2, p, after)) matches Ok(st)
                    && st.size == Some(b.len()) by {
                reveal(reading::step);
            }
        },
        _ => {},
    }
}

/// What an instruction with one action and a payload becomes can be read.
proof fn lemma_payload(insn: Instruction, texts: Texts)
    requires
        fits(insn, texts),
        insn is End || insn is GotoFrame || insn is GetUrl || insn is StoreRegister
            || insn is SetTarget || insn is GotoLabel || insn is GotoFrame2 || insn is Push
            || insn is DefineDictionary,
    ensures
        avm1::lower(insn, texts).len() == 1,
        legible(avm1::lower(insn, texts)[0], Seq::empty()),
{
    reveal(avm1::lower);
    let low = avm1::lower(insn, texts)[0];
    let o = low->Op_0;
    let p = low->Op_1;
    match insn {
        Instruction::GotoFrame(f) => {
            bytes::lemma_le_len((f as u16) as nat, 2);
        },
        Instruction::GetUrl { url, target } => {
            assert(holds(p, 0, avm1::cstr(url) + avm1::cstr(target)));
            lemma_split(p, 0, avm1::cstr(url), avm1::cstr(target));
            lemma_text(p, 0, url);
            lemma_text(p, avm1::cstr(url).len() as int, target);
        },
        Instruction::SetTarget(t) => {
            assert(holds(p, 0, avm1::cstr(t)));
            lemma_text(p, 0, t);
        },
        Instruction::GotoLabel(t) => {
            assert(holds(p, 0, avm1::cstr(t)));
            lemma_text(p, 0, t);
        },
        Instruction::Push(v) => {
            lemma_values(v, 0);
        },
        Instruction::DefineDictionary(v) => {
            lemma_pool(v, texts);
        },
        _ => {},
    }
    assert forall|after: int|
        (#[trigger] reading::step(o, p, after)) matches Ok(st) && st.size is None by {
        reveal(reading::step);
    }
}

/// What an instruction without a body becomes can be read.
proof fn lemma_flat(insn: Instruction, texts: Texts, i: int)
    requires
        fits(insn, texts),
        avm1::body_of(insn) is None,
        0 <= i < avm1::lower(insn, texts).len(),
    ensures
        legible(avm1::lower(insn, texts)[i], Seq::empty()),
{
    if insn is End || insn is GotoFrame || insn is GetUrl || insn is StoreRegister
        || insn is SetTarget || insn is GotoLabel || insn is GotoFrame2 || insn is Push
        || insn is DefineDictionary {
        lemma_payload(insn, texts);
    } else {
        reveal(avm1::lower);
        lemma_bare(op::NOT);
        lemma_bare(op::CALL_FUNCTION);
        lemma_bare(op::POP);
        lemma_bare(op::SET_VARIABLE);
        lemma_bare(op::CALL_METHOD);
        lemma_bare(op::GET_VARIABLE);
        lemma_bare(op::GET_MEMBER);
        lemma_bare(op::SET_MEMBER);
        match insn {
            Instruction::Simple(o) => lemma_simple(o, i),
            Instruction::PushString { value, .. } => lemma_push_one(Value::String(value)),
            Instruction::DictRef { index, .. } => {
                bytes::lemma_le_len(index as nat, 2);
                lemma_push_one(Value::Lookup(index as u32));
            },
            Instruction::PushFloat(v) => {
                bytes::lemma_le_len(v as nat, 4);
                lemma_push_one(Value::Float(v));
            },
            Instruction::PushByte(v) => {
                bytes::lemma_le_len(((v as i32) as u32) as nat, 4);
                lemma_push_one(Value::Integer(v as i32));
            },
            Instruction::PushWord(v) => {
                bytes::lemma_le_len(((v as i32) as u32) as nat, 4);
                lemma_push_one(Value::Integer(v as i32));
            },
            Instruction::PushDWord(v) => {
                bytes::lemma_le_len(((v as i32) as u32) as nat, 4);
                lemma_push_one(Value::Integer(v as i32));
            },
            Instruction::PushRegister(v) => lemma_push_one(Value::Register(v as i32)),
            _ => {},
        }
    }
}

/// The code of a stream from the `k`-th instruction on can be read.
proof fn lemma_raws(s: Seq<Instruction>, texts: Texts, k: nat)
    requires
        fitting(s, texts),
        k <= s.len(),
    ensures
        reading::raws(avm1::code(s, texts), avm1::starts(s, texts)[k as int] as int) is Ok,
    decreases s, 0nat, s.len() - k,
{
    let at = avm1::starts(s, texts);
    let d = avm1::code(s, texts);
    avm1::law_code_size(s, texts, k);
    if k < s.len() {
        let insn = s[k as int];
        let pos = at[k as int] as int;
        let lows = avm1::lower(insn, texts);
        let inner = body_code(insn, texts);
        assert(fitting_at(insn, texts));
        lemma_raws(s, texts, k + 1);
        bridge::lemma_place(s, texts, at, k, s.len());
        bridge::lemma_starts(s, texts, k);
        if let Some(body) = avm1::body_of(insn) {
            assert(decreases_to!(s => s[k as int]));
            law_lowered_reads(body, texts);
            lemma_function(insn, texts);
        } else {
            assert forall|i: int| 0 <= i < lows.len() implies legible(
                #[trigger] lows[i],
                Seq::empty(),
            ) by {
                lemma_flat(insn, texts, i);
            }
        }
        lemma_lows(d, pos, lows, at, inner, lows.len());
    }
}

/// What an action stream becomes is bytecode that can be read, as long as its
/// operands fit and it holds no Try.
pub proof fn law_lowered_reads(s: Seq<Instruction>, texts: Texts)
    requires
        fitting(s, texts),
    ensures
        reading::block(avm1::code(s, texts)) is Ok,
    decreases s, 1nat, 0int,
{
    lemma_raws(s, texts, 0);
}

} // verus!
