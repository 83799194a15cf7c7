//! The bytes that an action stream becomes, opcode by opcode.
use super::avm1::{self, Low, Texts};
use crate::apt::actions::{DictRefKind, PushStringKind};
use crate::apt::bytes::{self, le};
use crate::apt::file_format::{half, lemma_half, lemma_word, word};
use crate::apt::model::{Instruction, Value};
use crate::apt::reader::is_latin1;
use vstd::prelude::*;

verus! {

/// Whether the terminated text `s` is spelled from `p` on.
pub open spec fn spelled(d: Seq<u8>, p: int, s: Seq<char>) -> bool {
    &&& 0 <= p
    &&& p + s.len() < d.len()
    &&& forall|i: int| 0 <= i < s.len() ==> d[p + i] as u32 == (#[trigger] s[i]) as u32
    &&& d[p + s.len()] == 0
}

/// Whether bytes are an opcode, the number of the bytes behind, and these.
pub open spec fn sized(b: Seq<u8>, o: u8) -> bool {
    &&& b.len() >= 3
    &&& b[0] == o
    &&& half(b, 1) == (b.len() - 3) % 0x1_0000
}

/// What follows a pushed constant.
pub open spec fn constant_tail(kind: DictRefKind) -> Seq<u8> {
    match kind {
        DictRefKind::PushByte => Seq::empty(),
        DictRefKind::PushWord => Seq::empty(),
        DictRefKind::ByteGetVar => seq![0x1Cu8],
        DictRefKind::ByteGetMember => seq![0x4Eu8],
        DictRefKind::CallFuncPop => seq![0x3Du8, 0x17u8],
        DictRefKind::CallFuncSetVar => seq![0x3Du8, 0x1Du8],
        DictRefKind::CallMethodPop => seq![0x52u8, 0x17u8],
        DictRefKind::CallMethodSetVar => seq![0x52u8, 0x1Du8],
    }
}

/// What follows a pushed text.
pub open spec fn text_tail(kind: PushStringKind) -> Seq<u8> {
    match kind {
        PushStringKind::Push => Seq::empty(),
        PushStringKind::GetVar => seq![0x1Cu8],
        PushStringKind::GetMember => seq![0x4Eu8],
        PushStringKind::SetVar => seq![0x1Du8],
        PushStringKind::SetMember => seq![0x4Fu8],
    }
}

/// What an opcode without operands becomes: itself, unless it is one that standard
/// players do not know or give operands.
pub open spec fn plain_bytes(o: u8) -> Seq<u8> {
    if o == 0x56 {
        seq![0x96u8, 6, 0, 0, 0x74, 0x68, 0x69, 0x73, 0]
    } else if o == 0x58 {
        seq![0x96u8, 9, 0, 0, 0x5F, 0x67, 0x6C, 0x6F, 0x62, 0x61, 0x6C, 0]
    } else if o == 0x59 {
        seq![0x96u8, 5, 0, 7, 0, 0, 0, 0]
    } else if o == 0x5A {
        seq![0x96u8, 5, 0, 7, 1, 0, 0, 0]
    } else if o == 0x5B {
        seq![0x3Du8, 0x17]
    } else if o == 0x5C {
        seq![0x3Du8, 0x1D]
    } else if o == 0x5D {
        seq![0x52u8, 0x17]
    } else if o == 0x5E {
        seq![0x52u8, 0x1D]
    } else if o == 0x70 {
        seq![0x96u8, 6, 0, 0, 0x74, 0x68, 0x69, 0x73, 0, 0x1C]
    } else if o == 0x71 {
        seq![0x96u8, 9, 0, 0, 0x5F, 0x67, 0x6C, 0x6F, 0x62, 0x61, 0x6C, 0, 0x1C]
    } else if o == 0x72 {
        seq![0x96u8, 5, 0, 7, 0, 0, 0, 0, 0x1D]
    } else if o == 0x73 {
        seq![0x96u8, 2, 0, 5, 1]
    } else if o == 0x74 {
        seq![0x96u8, 2, 0, 5, 0]
    } else if o == 0x75 {
        seq![0x96u8, 1, 0, 2]
    } else if o == 0x76 {
        seq![0x96u8, 1, 0, 3]
    } else if o == 0xBA {
        Seq::empty()
    } else if o == 0x9A {
        seq![0x9Au8, 1, 0, 0]
    } else if o == 0x8A {
        seq![0x8Au8, 3, 0, 0, 0, 0]
    } else if o >= 0x80 {
        seq![o, 0, 0]
    } else {
        seq![o]
    }
}

/// A pushed value: its kind, and the value.
pub open spec fn value_bytes(b: Seq<u8>, v: Value) -> bool {
    match v {
        Value::String(s) => b.len() == s.len() + 2 && b[0] == 0 && spelled(b, 1, s),
        Value::Float(f) => b.len() == 5 && b[0] == 1 && word(b, 1) == f,
        Value::Undefined => b == seq![3u8],
        Value::Register(r) => b == seq![4u8, r as u8],
        Value::Boolean(t) => b == seq![
            5u8,
            if t {
                1
            } else {
                0
            },
        ],
        Value::Integer(i) => b.len() == 5 && b[0] == 7 && word(b, 1) as i32 == i,
        Value::Lookup(i) => if i <= 0xFF {
            b == seq![8u8, i as u8]
        } else {
            b.len() == 3 && b[0] == 9 && half(b, 1) == i % 0x1_0000
        },
    }
}

/// The bytes of an instruction other than a branch, a block or a function.
pub open spec fn insn_bytes(b: Seq<u8>, insn: Instruction) -> bool {
    match insn {
        Instruction::End => b == seq![0u8],
        Instruction::Simple(o) => b == plain_bytes(o),
        Instruction::GotoFrame(f) => b.len() == 5 && sized(b, 0x81) && half(b, 3) == f as u16,
        Instruction::GetUrl { url, target } => {
            &&& sized(b, 0x83)
            &&& b.len() == 5 + url.len() + target.len()
            &&& spelled(b, 3, url)
            &&& spelled(b, 4 + url.len() as int, target)
        },
        Instruction::StoreRegister(r) => b == seq![0x87u8, 1, 0, r as u8],
        Instruction::SetTarget(s) => {
            sized(b, 0x8B) && b.len() == 4 + s.len() && spelled(b, 3, s)
        },
        Instruction::GotoLabel(s) => {
            sized(b, 0x8C) && b.len() == 4 + s.len() && spelled(b, 3, s)
        },
        Instruction::GotoFrame2 { play } => b == seq![
            0x9Fu8,
            1,
            0,
            if play {
                1
            } else {
                0
            },
        ],
        Instruction::PushString { kind, value } => {
            let n = 5 + value.len();
            &&& b.len() == n + text_tail(kind).len()
            &&& sized(b.take(n as int), 0x96)
            &&& b[3] == 0
            &&& spelled(b.take(n as int), 4, value)
            &&& b.skip(n as int) == text_tail(kind)
        },
        Instruction::DictRef { kind, index } => {
            b == if index <= 0xFF {
                seq![0x96u8, 2, 0, 8, index as u8]
            } else {
                seq![0x96u8, 3, 0, 9, (index % 0x100) as u8, (index / 0x100) as u8]
            } + constant_tail(kind)
        },
        Instruction::PushFloat(v) => {
            b.len() == 8 && sized(b, 0x96) && b[3] == 1 && word(b, 4) == v
        },
        Instruction::PushByte(v) => {
            b.len() == 8 && sized(b, 0x96) && b[3] == 7 && word(b, 4) == v
        },
        Instruction::PushWord(v) => {
            b.len() == 8 && sized(b, 0x96) && b[3] == 7 && word(b, 4) == v
        },
        Instruction::PushDWord(v) => {
            b.len() == 8 && sized(b, 0x96) && b[3] == 7 && word(b, 4) == v
        },
        Instruction::PushRegister(v) => b == seq![0x96u8, 2, 0, 4, v],
        Instruction::TraceStart(_) => b.len() == 0,
        Instruction::Push(_) => sized(b, 0x96),
        Instruction::DefineDictionary(v) => {
            sized(b, 0x88) && b.len() >= 5 && half(b, 3) == v.len() % 0x1_0000
        },
        _ => true,
    }
}

pub proof fn lemma_le(b: Seq<u8>, p: int, v: nat)
    requires
        0 <= p,
        p + 2 <= b.len(),
        b[p] == le(v, 2)[0],
        b[p + 1] == le(v, 2)[1],
    ensures
        half(b, p) == v % 0x1_0000,
{
    bytes::lemma_capacity();
    bytes::lemma_le_wraps(v, 2);
    let w = (v % 0x1_0000) as nat;
    assert forall|i: int| 0 <= i < 2 implies #[trigger] b[p + i] == le(w, 2)[i] by {}
    bytes::lemma_un_le_of_le(b, p, w, 2);
    lemma_half(b, p);
}

proof fn lemma_le4(b: Seq<u8>, p: int, v: nat)
    requires
        0 <= p,
        p + 4 <= b.len(),
        v < 0x1_0000_0000,
        b.subrange(p, p + 4) == le(v, 4),
    ensures
        word(b, p) == v,
{
    bytes::lemma_capacity();
    assert forall|i: int| 0 <= i < 4 implies #[trigger] b[p + i] == le(v, 4)[i] by {
        assert(b.subrange(p, p + 4)[i] == b[p + i]);
    }
    bytes::lemma_un_le_of_le(b, p, v, 4);
    lemma_word(b, p);
}

/// The bytes of a small number.
proof fn lemma_small(n: nat)
    requires
        n < 0x100,
    ensures
        le(n, 2) == seq![n as u8, 0u8],
{
    reveal_with_fuel(le, 3);
    assert(le(n, 2) =~= seq![n as u8, 0u8]);
}

proof fn lemma_pair(n: nat)
    requires
        n < 0x1_0000,
    ensures
        le(n, 2) == seq![(n % 0x100) as u8, (n / 0x100) as u8],
{
    reveal_with_fuel(le, 3);
    assert(le(n, 2) =~= seq![(n % 0x100) as u8, (n / 0x100) as u8]);
}

/// An opcode with its operands.
proof fn lemma_op(o: u8, payload: Seq<u8>)
    requires
        o >= 0x80,
    ensures
        ({
            let b = avm1::op_code(o, payload);
            &&& sized(b, o)
            &&& b.len() == 3 + payload.len()
            &&& b.skip(3) == payload
            &&& payload.len() < 0x100 ==> b == seq![o, payload.len() as u8, 0u8] + payload
        }),
{
    let b = avm1::op_code(o, payload);
    bytes::lemma_le_len(payload.len(), 2);
    lemma_le(b, 1, payload.len());
    assert(b.skip(3) =~= payload);
    if payload.len() < 0x100 {
        lemma_small(payload.len());
        assert(b =~= seq![o, payload.len() as u8, 0u8] + payload);
    }
}

/// A text among other bytes.
pub proof fn lemma_text(d: Seq<u8>, p: int, s: Seq<char>)
    requires
        0 <= p,
        p + s.len() < d.len(),
        is_latin1(s),
        d.subrange(p, p + s.len() + 1) == avm1::cstr(s),
    ensures
        spelled(d, p, s),
{
    let t = d.subrange(p, p + s.len() + 1);
    assert forall|i: int| 0 <= i < s.len() implies d[p + i] as u32 == (#[trigger] s[i]) as u32 by {
        assert(t[i] == d[p + i]);
        assert(avm1::cstr(s)[i] == (s[i] as u32) as u8);
    }
    assert(t[s.len() as int] == d[p + s.len()]);
}

/// One, two or three actions without a body.
pub proof fn lemma_lows(v: Seq<Low>, from: int, at: Seq<nat>)
    requires
        v.len() <= 3,
        forall|i: int| 0 <= i < v.len() ==> #[trigger] v[i] is Op,
    ensures
        ({
            let b = avm1::lows_code(v, from, at, Seq::empty(), v.len());
            &&& v.len() == 0 ==> b == Seq::<u8>::empty()
            &&& v.len() == 1 ==> b == avm1::op_code(v[0]->Op_0, v[0]->Op_1)
            &&& v.len() == 2 ==> b == avm1::op_code(v[0]->Op_0, v[0]->Op_1) + avm1::op_code(
                v[1]->Op_0,
                v[1]->Op_1,
            )
            &&& v.len() == 3 ==> b == avm1::op_code(v[0]->Op_0, v[0]->Op_1) + avm1::op_code(
                v[1]->Op_0,
                v[1]->Op_1,
            ) + avm1::op_code(v[2]->Op_0, v[2]->Op_1)
        }),
{
    reveal_with_fuel(avm1::lows_code, 4);
    let b = avm1::lows_code(v, from, at, Seq::empty(), v.len());
    if v.len() == 1 {
        assert(b =~= avm1::op_code(v[0]->Op_0, v[0]->Op_1));
    } else if v.len() == 2 {
        assert(b =~= avm1::op_code(v[0]->Op_0, v[0]->Op_1) + avm1::op_code(
            v[1]->Op_0,
            v[1]->Op_1,
        ));
    } else if v.len() == 3 {
        assert(b =~= avm1::op_code(v[0]->Op_0, v[0]->Op_1) + avm1::op_code(
            v[1]->Op_0,
            v[1]->Op_1,
        ) + avm1::op_code(v[2]->Op_0, v[2]->Op_1));
    }
}

/// A value is pushed as its kind and itself.
pub proof fn law_value_bytes(v: Value)
    requires
        v matches Value::String(s) ==> is_latin1(s),
    ensures
        value_bytes(avm1::pushed(v), v),
{
    let b = avm1::pushed(v);
    match v {
        Value::String(s) => {
            assert(b.subrange(1, 1 + s.len() as int + 1) =~= avm1::cstr(s));
            lemma_text(b, 1, s);
        },
        Value::Float(f) => {
            bytes::lemma_le_len(f as nat, 4);
            assert(b.subrange(1, 5) =~= le(f as nat, 4));
            lemma_le4(b, 1, f as nat);
        },
        Value::Integer(i) => {
            let w = i as u32;
            bytes::lemma_le_len(w as nat, 4);
            assert(b.subrange(1, 5) =~= le(w as nat, 4));
            lemma_le4(b, 1, w as nat);
            assert(w as i32 == i) by (bit_vector)
                requires
                    w == i as u32,
            ;
        },
        Value::Lookup(i) => {
            if i > 0xFF {
                bytes::lemma_le_len(i as nat, 2);
                lemma_le(b, 1, i as nat);
            }
        },
        _ => {},
    }
}

proof fn lemma_plain(o: u8)
    ensures
        ({
            let v = avm1::lower_simple(o);
            &&& v.len() <= 2
            &&& forall|i: int| 0 <= i < v.len() ==> #[trigger] v[i] is Op
            &&& v.len() == 0 ==> plain_bytes(o) == Seq::<u8>::empty()
            &&& v.len() == 1 ==> plain_bytes(o) == avm1::op_code(v[0]->Op_0, v[0]->Op_1)
            &&& v.len() == 2 ==> plain_bytes(o) == avm1::op_code(v[0]->Op_0, v[0]->Op_1)
                + avm1::op_code(v[1]->Op_0, v[1]->Op_1)
        }),
{
    reveal_strlit("this");
    reveal_strlit("_global");
    let v = avm1::lower_simple(o);
    let this = avm1::pushed(Value::String("this"@));
    let global = avm1::pushed(Value::String("_global"@));
    let zero = avm1::pushed(Value::Integer(0));
    let one = avm1::pushed(Value::Integer(1));
    assert(this =~= seq![0u8, 0x74, 0x68, 0x69, 0x73, 0]);
    assert(global =~= seq![0u8, 0x5F, 0x67, 0x6C, 0x6F, 0x62, 0x61, 0x6C, 0]);
    reveal_with_fuel(le, 5);
    assert(zero =~= seq![7u8, 0, 0, 0, 0]);
    assert(one =~= seq![7u8, 1, 0, 0, 0]);
    if v.len() > 0 {
        let p = v[0]->Op_1;
        if v[0]->Op_0 >= 0x80 {
            lemma_op(v[0]->Op_0, p);
        }
        let b = avm1::op_code(v[0]->Op_0, p);
        if v.len() == 1 {
            assert(plain_bytes(o) =~= b);
        } else {
            assert(plain_bytes(o) =~= b + avm1::op_code(v[1]->Op_0, v[1]->Op_1));
        }
    }
}

proof fn lemma_texts_bytes(insn: Instruction, texts: Texts, from: int, at: Seq<nat>)
    requires
        avm1::lower_err(insn, texts) is None,
        insn is GetUrl || insn is SetTarget || insn is GotoLabel,
    ensures
        insn_bytes(avm1::insn_code(insn, texts, from, at), insn),
{
    reveal(avm1::lower);
    reveal(avm1::lower_err);
    let v = avm1::lower(insn, texts);
    let b = avm1::insn_code(insn, texts, from, at);
    match insn {
        Instruction::GetUrl { url, target } => {
            lemma_lows(v, from, at);
            let p = avm1::cstr(url) + avm1::cstr(target);
            lemma_op(0x83, p);
            let n = url.len() as int;
            let m = target.len() as int;
            assert(b.subrange(3, 3 + n + 1) =~= avm1::cstr(url)) by {
                assert(b.subrange(3, 3 + n + 1) =~= b.skip(3).take(n + 1));
                assert(p.take(n + 1) =~= avm1::cstr(url));
            }
            assert(b.subrange(4 + n, 4 + n + m + 1) =~= avm1::cstr(target)) by {
                assert(b.subrange(4 + n, 4 + n + m + 1) =~= b.skip(3).skip(n + 1));
                assert(p.skip(n + 1) =~= avm1::cstr(target));
            }
            lemma_text(b, 3, url);
            lemma_text(b, 4 + n, target);
        },
        Instruction::SetTarget(s) => {
            lemma_lows(v, from, at);
            lemma_op(0x8B, avm1::cstr(s));
            assert(b.subrange(3, 3 + s.len() as int + 1) =~= b.skip(3));
            lemma_text(b, 3, s);
        },
        Instruction::GotoLabel(s) => {
            lemma_lows(v, from, at);
            lemma_op(0x8C, avm1::cstr(s));
            assert(b.subrange(3, 3 + s.len() as int + 1) =~= b.skip(3));
            lemma_text(b, 3, s);
        },
        _ => {},
    }
}

proof fn lemma_string_bytes(insn: Instruction, texts: Texts, from: int, at: Seq<nat>)
    requires
        avm1::lower_err(insn, texts) is None,
        insn is PushString,
    ensures
        insn_bytes(avm1::insn_code(insn, texts, from, at), insn),
{
    reveal(avm1::lower);
    reveal(avm1::lower_err);
    let v = avm1::lower(insn, texts);
    let b = avm1::insn_code(insn, texts, from, at);
    match insn {
        Instruction::PushString { kind, value } => {
            lemma_lows(v, from, at);
            let p = avm1::pushed(Value::String(value));
            lemma_op(0x96, p);
            let n = 5 + value.len() as int;
            let c = avm1::op_code(0x96, p);
            assert(b.take(n) =~= c);
            assert(b[3] == c[3] && c[3] == c.skip(3)[0]);
            assert(c.subrange(4, 4 + value.len() as int + 1) =~= c.skip(3).skip(1));
            assert(p.skip(1) =~= avm1::cstr(value));
            lemma_text(c, 4, value);
            assert(b.skip(n) =~= text_tail(kind));
        },
        _ => {},
    }
}

proof fn lemma_ref_bytes(insn: Instruction, texts: Texts, from: int, at: Seq<nat>)
    requires
        avm1::lower_err(insn, texts) is None,
        insn is DictRef || insn is PushRegister,
    ensures
        insn_bytes(avm1::insn_code(insn, texts, from, at), insn),
{
    reveal(avm1::lower);
    reveal(avm1::lower_err);
    let v = avm1::lower(insn, texts);
    let b = avm1::insn_code(insn, texts, from, at);
    match insn {
        Instruction::DictRef { kind, index } => {
            lemma_lows(v, from, at);
            let p = avm1::constant_ref(index as nat);
            lemma_pair(index as nat);
            lemma_op(0x96, p);
            let head = if index <= 0xFF {
                seq![0x96u8, 2, 0, 8, index as u8]
            } else {
                seq![0x96u8, 3, 0, 9, (index % 0x100) as u8, (index / 0x100) as u8]
            };
            assert(avm1::op_code(0x96, p) =~= head);
            assert(b =~= head + constant_tail(kind));
        },
        Instruction::PushRegister(x) => {
            lemma_lows(v, from, at);
            let p = avm1::pushed(Value::Register(x as i32));
            lemma_op(0x96, p);
            assert((x as i32) as u8 == x);
            assert(b =~= seq![0x96u8, 2, 0, 4, x]);
        },
        _ => {},
    }
}

proof fn lemma_number_bytes(insn: Instruction, texts: Texts, from: int, at: Seq<nat>)
    requires
        avm1::lower_err(insn, texts) is None,
        insn is PushFloat || insn is PushByte || insn is PushWord || insn is PushDWord,
    ensures
        insn_bytes(avm1::insn_code(insn, texts, from, at), insn),
{
    reveal(avm1::lower);
    reveal(avm1::lower_err);
    let v = avm1::lower(insn, texts);
    let b = avm1::insn_code(insn, texts, from, at);
    match insn {
        Instruction::PushFloat(x) => {
            lemma_number(v, from, at, Value::Float(x), b);
        },
        Instruction::PushByte(x) => {
            lemma_number(v, from, at, Value::Integer(x as i32), b);
        },
        Instruction::PushWord(x) => {
            lemma_number(v, from, at, Value::Integer(x as i32), b);
        },
        Instruction::PushDWord(x) => {
            lemma_number(v, from, at, Value::Integer(x as i32), b);
            let i = x as i32;
            let w = i as u32;
            assert(w == x) by (bit_vector)
                requires
                    i == x as i32,
                    w == i as u32,
            ;
        },
        _ => {},
    }
}

proof fn lemma_other_bytes(insn: Instruction, texts: Texts, from: int, at: Seq<nat>)
    requires
        avm1::lower_err(insn, texts) is None,
        insn is Simple || insn is End || insn is GotoFrame || insn is StoreRegister
            || insn is GotoFrame2 || insn is TraceStart || insn is Push || insn is DefineDictionary,
    ensures
        insn_bytes(avm1::insn_code(insn, texts, from, at), insn),
{
    reveal(avm1::lower);
    reveal(avm1::lower_err);
    let v = avm1::lower(insn, texts);
    let b = avm1::insn_code(insn, texts, from, at);
    match insn {
        Instruction::Simple(o) => {
            lemma_plain(o);
            lemma_lows(v, from, at);
        },
        Instruction::End => {
            lemma_lows(v, from, at);
            assert(b =~= seq![0u8]);
        },
        Instruction::GotoFrame(f) => {
            lemma_lows(v, from, at);
            let p = le((f as u16) as nat, 2);
            bytes::lemma_le_len((f as u16) as nat, 2);
            lemma_op(0x81, p);
            assert(b[3] == b.skip(3)[0] && b[4] == b.skip(3)[1]);
            lemma_le(b, 3, (f as u16) as nat);
        },
        Instruction::StoreRegister(r) => {
            lemma_lows(v, from, at);
            lemma_op(0x87, seq![r as u8]);
            assert(b =~= seq![0x87u8, 1, 0, r as u8]);
        },
        Instruction::GotoFrame2 { play } => {
            lemma_lows(v, from, at);
            lemma_op(0x9F, v[0]->Op_1);
            assert(b =~= seq![
                0x9Fu8,
                1,
                0,
                if play {
                    1
                } else {
                    0
                },
            ]);
        },
        Instruction::TraceStart(_) => {
            lemma_lows(v, from, at);
        },
        Instruction::Push(x) => {
            lemma_lows(v, from, at);
            lemma_op(0x96, avm1::pushes(x, x.len()));
        },
        Instruction::DefineDictionary(x) => {
            lemma_lows(v, from, at);
            let p = avm1::constant_pool(x, texts);
            lemma_op(0x88, p);
            bytes::lemma_le_len(x.len(), 2);
            assert(b[3] == b.skip(3)[0] && b[4] == b.skip(3)[1]);
            lemma_le(b, 3, x.len());
        },
        _ => {},
    }
}

/// An instruction becomes these bytes, wherever it stands.
pub proof fn law_insn_bytes(insn: Instruction, texts: Texts, from: int, at: Seq<nat>)
    requires
        avm1::lower_err(insn, texts) is None,
    ensures
        insn_bytes(avm1::insn_code(insn, texts, from, at), insn),
{
    if insn is GetUrl || insn is SetTarget || insn is GotoLabel {
        lemma_texts_bytes(insn, texts, from, at);
    } else if insn is PushString {
        lemma_string_bytes(insn, texts, from, at);
    } else if insn is DictRef || insn is PushRegister {
        lemma_ref_bytes(insn, texts, from, at);
    } else if insn is PushFloat || insn is PushByte || insn is PushWord || insn is PushDWord {
        lemma_number_bytes(insn, texts, from, at);
    } else if insn is Simple || insn is End || insn is GotoFrame || insn is StoreRegister
        || insn is GotoFrame2 || insn is TraceStart || insn is Push || insn is DefineDictionary {
        lemma_other_bytes(insn, texts, from, at);
    }
}

proof fn lemma_number(v: Seq<Low>, from: int, at: Seq<nat>, x: Value, b: Seq<u8>)
    requires
        v == seq![avm1::push_one(x)],
        x is Float || x is Integer,
        b == avm1::lows_code(v, from, at, Seq::empty(), v.len()),
    ensures
        b.len() == 8,
        sized(b, 0x96),
        x matches Value::Float(f) ==> b[3] == 1 && word(b, 4) == f,
        x matches Value::Integer(i) ==> b[3] == 7 && word(b, 4) == i as u32,
{
    lemma_lows(v, from, at);
    let p = avm1::pushed(x);
    let w = match x {
        Value::Float(f) => f,
        Value::Integer(i) => i as u32,
        _ => 0u32,
    };
    bytes::lemma_le_len(w as nat, 4);
    lemma_op(0x96, p);
    assert(b.skip(3) == p);
    assert(b[3] == b.skip(3)[0]);
    assert(b.subrange(4, 8) =~= b.skip(3).skip(1));
    assert(p.skip(1) =~= le(w as nat, 4));
    lemma_le4(b, 4, w as nat);
}

/// The bytes of the first instructions start those of a stream.
proof fn lemma_prefix(s: Seq<Instruction>, texts: Texts, at: Seq<nat>, k: nat, n: nat)
    requires
        k <= n <= s.len(),
    ensures
        avm1::stream_code(s, texts, at, k).len() <= avm1::stream_code(s, texts, at, n).len(),
        avm1::stream_code(s, texts, at, n).take(
            avm1::stream_code(s, texts, at, k).len() as int,
        ) == avm1::stream_code(s, texts, at, k),
    decreases n - k,
{
    let a = avm1::stream_code(s, texts, at, k);
    if k < n {
        let m = (n - 1) as nat;
        lemma_prefix(s, texts, at, k, m);
        let c = avm1::stream_code(s, texts, at, m);
        let b = avm1::stream_code(s, texts, at, n);
        assert(b.take(a.len() as int) =~= c.take(a.len() as int));
    } else {
        assert(a.take(a.len() as int) =~= a);
    }
}

/// The bytes of the `k`-th instruction of a stream.
pub open spec fn piece(s: Seq<Instruction>, texts: Texts, k: int) -> Seq<u8> {
    let at = avm1::starts(s, texts);
    avm1::code(s, texts).subrange(at[k] as int, at[k + 1] as int)
}

proof fn lemma_piece(s: Seq<Instruction>, texts: Texts, k: int)
    requires
        0 <= k < s.len(),
    ensures
        ({
            let at = avm1::starts(s, texts);
            &&& at[k] <= at[k + 1] <= avm1::code(s, texts).len()
            &&& piece(s, texts, k) == avm1::insn_code(s[k], texts, at[k] as int, at)
            &&& at[k + 1] == at[k] + piece(s, texts, k).len()
        }),
{
    let at = avm1::starts(s, texts);
    let b = avm1::code(s, texts);
    avm1::law_code_size(s, texts, k as nat);
    avm1::law_code_size(s, texts, (k + 1) as nat);
    lemma_prefix(s, texts, at, k as nat, s.len());
    lemma_prefix(s, texts, at, (k + 1) as nat, s.len());
    let c = avm1::stream_code(s, texts, at, (k + 1) as nat);
    let i = avm1::insn_code(s[k], texts, at[k] as int, at);
    assert(b.subrange(at[k] as int, at[k + 1] as int) =~= c.skip(at[k] as int));
    assert(c.skip(at[k] as int) =~= i);
}

/// A stream becomes the bytes of its instructions, one after another.
pub proof fn law_stream_bytes(s: Seq<Instruction>, texts: Texts, k: int)
    requires
        0 <= k < s.len(),
        avm1::stream_err(s, texts) is None,
    ensures
        insn_bytes(piece(s, texts, k), s[k]),
        avm1::starts(s, texts)[0] == 0,
        avm1::starts(s, texts)[s.len() as int] == avm1::code(s, texts).len(),
        avm1::starts(s, texts)[k] <= avm1::starts(s, texts)[k + 1] <= avm1::code(s, texts).len(),
{
    lemma_piece(s, texts, k);
    lemma_err(s, texts, k, s.len());
    avm1::law_code_size(s, texts, s.len());
    law_insn_bytes(s[k], texts, avm1::starts(s, texts)[k] as int, avm1::starts(s, texts));
}

proof fn lemma_err(s: Seq<Instruction>, texts: Texts, k: int, n: nat)
    requires
        0 <= k < n <= s.len(),
        avm1::lowers_err(s, texts, n) is None,
    ensures
        avm1::lower_err(s[k], texts) is None,
    decreases n,
{
    if k < n - 1 {
        lemma_err(s, texts, k, (n - 1) as nat);
    }
}

/// Whether the two bytes at `p` are the distance `d`, where two bytes can hold it.
pub open spec fn distance_at(b: Seq<u8>, p: int, d: int) -> bool {
    -0x8000 <= d < 0x8000 ==> half(b, p) as i16 == d
}

/// A branch holds the distance from its end to the instruction that it leads to: a jump
/// behind 0x99, one that depends on the stack behind 0x9D, the latter after a negation
/// where it is taken if the top is false. A block holds its size behind 0x94.
pub proof fn law_branch_bytes(s: Seq<Instruction>, texts: Texts, k: int)
    requires
        0 <= k < s.len(),
        avm1::stream_err(s, texts) is None,
    ensures
        ({
            let b = piece(s, texts, k);
            let at = avm1::starts(s, texts);
            let end = at[k + 1] as int;
            match s[k] {
                Instruction::BranchAlways { target } => {
                    &&& b.len() == 5
                    &&& sized(b, 0x99)
                    &&& distance_at(b, 3, at[target as int] - end)
                },
                Instruction::BranchIfTrue { target } => {
                    &&& b.len() == 5
                    &&& sized(b, 0x9D)
                    &&& distance_at(b, 3, at[target as int] - end)
                },
                Instruction::BranchIfFalse { target } => {
                    &&& b.len() == 6
                    &&& b[0] == 0x12
                    &&& sized(b.skip(1), 0x9D)
                    &&& distance_at(b.skip(1), 3, at[target as int] - end)
                },
                Instruction::With { end_target } => {
                    &&& b.len() == 5
                    &&& sized(b, 0x94)
                    &&& at[end_target as int] >= end ==> half(b, 3) == (at[end_target as int]
                        - end) % 0x1_0000
                },
                _ => true,
            }
        }),
{
    reveal(avm1::lower);
    lemma_piece(s, texts, k);
    let at = avm1::starts(s, texts);
    let b = piece(s, texts, k);
    let from = at[k] as int;
    let end = at[k + 1] as int;
    let v = avm1::lower(s[k], texts);
    match s[k] {
        Instruction::BranchAlways { target } => {
            lemma_one(v, from, at);
            lemma_distance(0x99, at[target as int] - (from + 5), b);
        },
        Instruction::BranchIfTrue { target } => {
            lemma_one(v, from, at);
            lemma_distance(0x9D, at[target as int] - (from + 5), b);
        },
        Instruction::BranchIfFalse { target } => {
            lemma_two(v, from, at);
            lemma_distance(0x9D, at[target as int] - (from + 6), b.skip(1));
        },
        Instruction::With { end_target } => {
            lemma_one(v, from, at);
            let after = from + 5;
            let g: nat = if at[end_target as int] > after {
                (at[end_target as int] - after) as nat
            } else {
                0
            };
            bytes::lemma_le_len(g, 2);
            lemma_op(0x94, le(g, 2));
            assert(b[3] == b.skip(3)[0] && b[4] == b.skip(3)[1]);
            lemma_le(b, 3, g);
        },
        _ => {},
    }
}

proof fn lemma_one(v: Seq<Low>, from: int, at: Seq<nat>)
    requires
        v.len() == 1,
    ensures
        avm1::lows_code(v, from, at, Seq::empty(), 1) == avm1::low_code(
            v[0],
            from + avm1::low_size(v[0], 0),
            at,
            Seq::empty(),
        ),
{
    reveal_with_fuel(avm1::lows_code, 2);
    let b = avm1::lows_code(v, from, at, Seq::empty(), 1);
    assert(b =~= avm1::low_code(v[0], from + avm1::low_size(v[0], 0), at, Seq::empty()));
}

/// An action of one byte, and another.
proof fn lemma_two(v: Seq<Low>, from: int, at: Seq<nat>)
    requires
        v.len() == 2,
        v[0] == avm1::bare(0x12),
    ensures
        ({
            let b = avm1::lows_code(v, from, at, Seq::empty(), 2);
            &&& b.len() == 1 + avm1::low_size(v[1], 0)
            &&& b[0] == 0x12
            &&& b.skip(1) == avm1::low_code(
                v[1],
                from + 1 + avm1::low_size(v[1], 0),
                at,
                Seq::empty(),
            )
        }),
{
    reveal_with_fuel(avm1::lows_code, 3);
    let b = avm1::lows_code(v, from, at, Seq::empty(), 2);
    let c = avm1::low_code(v[1], from + 1 + avm1::low_size(v[1], 0), at, Seq::empty());
    avm1::lemma_low_size(v[1], from + 1 + avm1::low_size(v[1], 0), at, Seq::empty());
    assert(b =~= seq![0x12u8] + c);
    assert(b.skip(1) =~= c);
}

/// A distance behind an opcode.
proof fn lemma_distance(o: u8, d: int, b: Seq<u8>)
    requires
        o >= 0x80,
        b == avm1::op_code(o, le((d as u16) as nat, 2)),
    ensures
        b.len() == 5,
        sized(b, o),
        distance_at(b, 3, d),
{
    let w = d as u16;
    bytes::lemma_le_len(w as nat, 2);
    lemma_op(o, le(w as nat, 2));
    assert(b[3] == b.skip(3)[0] && b[4] == b.skip(3)[1]);
    lemma_le(b, 3, w as nat);
    if -0x8000 <= d < 0x8000 {
        let x = d as i16;
        assert((x as u16) as i16 == x) by (bit_vector);
        assert(d as u16 == x as u16);
    }
}

} // verus!
