//! The bytes of the lists that an action stream holds: pushed values, dictionaries and
//! the parameters of functions.
use super::avm1::{self, Low, Texts};
use super::code_laws::{law_value_bytes, lemma_le, lemma_lows, lemma_text, spelled, value_bytes};
use super::reading_laws::{params_stand, texts_stand};
use crate::apt::bytes::{self, le};
use crate::apt::file_format::half;
use crate::apt::model::{Instruction, Value};
use crate::apt::reader::is_latin1;
use crate::text;
use vstd::prelude::*;

verus! {

/// Parts one behind the other.
pub open spec fn together(v: Seq<Seq<u8>>) -> Seq<u8>
    decreases v.len(),
{
    if v.len() == 0 {
        Seq::empty()
    } else {
        together(v.drop_last()) + v.last()
    }
}

/// Whether parts are the values that are pushed, each by its kind and itself.
pub open spec fn value_parts(parts: Seq<Seq<u8>>, v: Seq<Value>) -> bool {
    &&& parts.len() == v.len()
    &&& forall|i: int| 0 <= i < v.len() ==> value_bytes(#[trigger] parts[i], v[i])
}

proof fn lemma_pushes(v: Seq<Value>, n: nat)
    requires
        n <= v.len(),
        avm1::pushes_err(v, n) is None,
    ensures
        exists|parts: Seq<Seq<u8>>| #[trigger]
            value_parts(parts, v.take(n as int)) && together(parts) == avm1::pushes(v, n),
    decreases n,
{
    if n == 0 {
        assert(value_parts(Seq::<Seq<u8>>::empty(), v.take(0)));
        assert(together(Seq::<Seq<u8>>::empty()) == avm1::pushes(v, 0));
    } else {
        let m = (n - 1) as nat;
        lemma_pushes(v, m);
        let before = choose|parts: Seq<Seq<u8>>| #[trigger]
            value_parts(parts, v.take(m as int)) && together(parts) == avm1::pushes(v, m);
        law_value_bytes(v[n - 1]);
        let parts = before.push(avm1::pushed(v[n - 1]));
        assert(parts.drop_last() =~= before);
        let w = v.take(n as int);
        assert forall|i: int| 0 <= i < w.len() implies value_bytes(#[trigger] parts[i], w[i]) by {
            if i < m {
                assert(parts[i] == before[i] && w[i] == v.take(m as int)[i]);
            }
        }
        assert(value_parts(parts, w));
    }
}

/// Values are pushed behind 0x96 and the size of them all, one behind the other.
pub proof fn law_pushed_values(v: Seq<Value>, texts: Texts, from: int, at: Seq<nat>)
    requires
        avm1::pushes_err(v, v.len()) is None,
    ensures
        ({
            let b = avm1::insn_code(Instruction::Push(v), texts, from, at);
            &&& b.len() >= 3
            &&& b[0] == 0x96
            &&& exists|parts: Seq<Seq<u8>>| #[trigger]
                value_parts(parts, v) && together(parts) == b.skip(3)
        }),
{
    let p = avm1::pushes(v, v.len());
    let lows = seq![Low::Op(0x96, p)];
    let b = avm1::insn_code(Instruction::Push(v), texts, from, at);
    reveal(avm1::lower);
    assert(avm1::lower(Instruction::Push(v), texts) == lows);
    lemma_lows(lows, from, at);
    bytes::lemma_le_len(p.len(), 2);
    assert(b.skip(3) =~= p);
    lemma_pushes(v, v.len());
    assert(v.take(v.len() as int) =~= v);
}

/// A text behind others.
proof fn lemma_text_more(d: Seq<u8>, p: int, e: int, v: Seq<Seq<char>>, s: Seq<char>)
    requires
        texts_stand(d, p, e, v),
        spelled(d, e, s),
    ensures
        texts_stand(d, p, e + s.len() + 1, v.push(s)),
    decreases v.len(),
{
    reveal_with_fuel(texts_stand, 2);
    let w = v.push(s);
    if v.len() > 0 {
        lemma_text_more(d, p + v[0].len() + 1, e, v.skip(1), s);
        assert(w.skip(1) =~= v.skip(1).push(s));
    } else {
        assert(w.skip(1) =~= Seq::empty());
    }
}

proof fn lemma_param_more(
    d: Seq<u8>,
    p: int,
    e: int,
    v: Seq<(u32, Seq<char>)>,
    s: (u32, Seq<char>),
)
    requires
        params_stand(d, p, e, v),
        s.0 == d[e],
        spelled(d, e + 1, s.1),
    ensures
        params_stand(d, p, e + s.1.len() + 2, v.push(s)),
    decreases v.len(),
{
    reveal_with_fuel(params_stand, 2);
    let w = v.push(s);
    if v.len() > 0 {
        lemma_param_more(d, p + v[0].1.len() + 2, e, v.skip(1), s);
        assert(w.skip(1) =~= v.skip(1).push(s));
    } else {
        assert(w.skip(1) =~= Seq::empty());
    }
}

proof fn lemma_names(d: Seq<u8>, p: int, v: Seq<Seq<char>>, n: nat)
    requires
        0 <= p,
        n <= v.len(),
        avm1::names_err(v, n) is None,
        p + avm1::param_names(v, n).len() <= d.len(),
        d.subrange(p, p + avm1::param_names(v, n).len()) == avm1::param_names(v, n),
    ensures
        texts_stand(d, p, p + avm1::param_names(v, n).len(), v.take(n as int)),
    decreases n,
{
    if n > 0 {
        let before = avm1::param_names(v, (n - 1) as nat);
        let all = avm1::param_names(v, n);
        let s = v[n - 1];
        let e = p + before.len();
        assert(d.subrange(p, e) =~= all.take(before.len() as int));
        assert(all.take(before.len() as int) =~= before);
        lemma_names(d, p, v, (n - 1) as nat);
        assert(d.subrange(e, e + s.len() + 1) =~= all.skip(before.len() as int));
        assert(all.skip(before.len() as int) =~= avm1::cstr(s));
        lemma_text(d, e, s);
        lemma_text_more(d, p, e, v.take(n - 1), s);
        assert(v.take(n - 1).push(s) =~= v.take(n as int));
    }
}

proof fn lemma_params(d: Seq<u8>, p: int, v: Seq<(u32, Seq<char>)>, n: nat)
    requires
        0 <= p,
        n <= v.len(),
        avm1::reg_params_err(v, n) is None,
        forall|i: int| 0 <= i < n ==> (#[trigger] v[i]).0 <= 0xFF,
        p + avm1::reg_params(v, n).len() <= d.len(),
        d.subrange(p, p + avm1::reg_params(v, n).len()) == avm1::reg_params(v, n),
    ensures
        params_stand(d, p, p + avm1::reg_params(v, n).len(), v.take(n as int)),
    decreases n,
{
    if n > 0 {
        let before = avm1::reg_params(v, (n - 1) as nat);
        let all = avm1::reg_params(v, n);
        let s = v[n - 1];
        let e = p + before.len();
        let r = seq![s.0 as u8];
        assert(all == before + r + avm1::cstr(s.1));
        assert(d.subrange(p, e) =~= all.take(before.len() as int));
        assert(all.take(before.len() as int) =~= before);
        lemma_params(d, p, v, (n - 1) as nat);
        assert(d[e] == d.subrange(p, p + all.len())[before.len() as int]);
        assert(d.subrange(e + 1, e + 1 + s.1.len() + 1) =~= all.skip(before.len() as int + 1));
        assert(all.skip(before.len() as int + 1) =~= avm1::cstr(s.1));
        lemma_text(d, e + 1, s.1);
        lemma_param_more(d, p, e, v.take(n - 1), s);
        assert(v.take(n - 1).push(s) =~= v.take(n as int));
    }
}

/// Whether a text is what a value is in words: texts are themselves.
pub open spec fn in_words(v: Value, texts: Texts, s: Seq<char>) -> bool {
    match v {
        Value::String(x) => s == x,
        Value::Integer(i) => if i < 0 {
            s == seq!['-'] + text::decimal((-i) as nat)
        } else {
            s == text::decimal(i as nat)
        },
        Value::Float(f) => avm1::float_text(texts, f) == Some(s),
        Value::Boolean(b) => if b {
            s == seq!['t', 'r', 'u', 'e']
        } else {
            s == seq!['f', 'a', 'l', 's', 'e']
        },
        Value::Register(r) => if r < 0 {
            s == seq!['r', '-'] + text::decimal((-r) as nat)
        } else {
            s == seq!['r'] + text::decimal(r as nat)
        },
        Value::Lookup(i) => s == seq!['c'] + text::decimal(i as nat),
        Value::Undefined => s == seq!['u', 'n', 'd', 'e', 'f', 'i', 'n', 'e', 'd'],
    }
}

/// Whether texts are what the values are in words.
pub open spec fn all_in_words(v: Seq<Value>, texts: Texts, w: Seq<Seq<char>>) -> bool {
    &&& w.len() == v.len()
    &&& forall|i: int| 0 <= i < v.len() ==> in_words(v[i], texts, #[trigger] w[i])
}

proof fn lemma_words(v: Value, texts: Texts)
    requires
        avm1::value_text(v, texts) is Some,
    ensures
        in_words(v, texts, avm1::value_text(v, texts)->0),
{
    reveal_strlit("true");
    reveal_strlit("false");
    reveal_strlit("r");
    reveal_strlit("c");
    reveal_strlit("undefined");
    let s = avm1::value_text(v, texts)->0;
    match v {
        Value::Boolean(b) => {
            if b {
                assert(s =~= seq!['t', 'r', 'u', 'e']);
            } else {
                assert(s =~= seq!['f', 'a', 'l', 's', 'e']);
            }
        },
        Value::Register(r) => {
            if r < 0 {
                assert(s =~= seq!['r', '-'] + text::decimal((-r) as nat));
            } else {
                assert(s =~= seq!['r'] + text::decimal(r as nat));
            }
        },
        Value::Lookup(i) => {
            assert(s =~= seq!['c'] + text::decimal(i as nat));
        },
        Value::Undefined => {
            assert(s =~= seq!['u', 'n', 'd', 'e', 'f', 'i', 'n', 'e', 'd']);
        },
        _ => {},
    }
}

proof fn lemma_entries(d: Seq<u8>, p: int, v: Seq<Value>, texts: Texts, n: nat) -> (w: Seq<
    Seq<char>,
>)
    requires
        0 <= p,
        n <= v.len(),
        avm1::pool_err(v, texts, n) is None,
        p + avm1::pool_entries(v, texts, n).len() <= d.len(),
        d.subrange(p, p + avm1::pool_entries(v, texts, n).len()) == avm1::pool_entries(
            v,
            texts,
            n,
        ),
    ensures
        texts_stand(d, p, p + avm1::pool_entries(v, texts, n).len(), w),
        all_in_words(v.take(n as int), texts, w),
    decreases n,
{
    if n > 0 {
        let before = avm1::pool_entries(v, texts, (n - 1) as nat);
        let all = avm1::pool_entries(v, texts, n);
        assert(avm1::entry_err(v[n - 1], texts) is None);
        let s = avm1::value_text(v[n - 1], texts)->0;
        let e = p + before.len();
        assert(d.subrange(p, e) =~= all.take(before.len() as int));
        assert(all.take(before.len() as int) =~= before);
        let x = lemma_entries(d, p, v, texts, (n - 1) as nat);
        assert(d.subrange(e, e + s.len() + 1) =~= all.skip(before.len() as int));
        assert(all.skip(before.len() as int) =~= avm1::cstr(s));
        lemma_text(d, e, s);
        lemma_text_more(d, p, e, x, s);
        lemma_words(v[n - 1], texts);
        let w = x.push(s);
        let t = v.take(n as int);
        assert forall|i: int| 0 <= i < t.len() implies in_words(t[i], texts, #[trigger] w[i]) by {
            if i < n - 1 {
                assert(w[i] == x[i] && t[i] == v.take(n - 1)[i]);
            }
        }
        w
    } else {
        Seq::empty()
    }
}

/// A dictionary stands behind 0x88 and its size: how many texts, and the texts, each
/// ended by a zero.
pub proof fn law_dictionary(v: Seq<Value>, texts: Texts, from: int, at: Seq<nat>)
    requires
        avm1::pool_err(v, texts, v.len()) is None,
    ensures
        ({
            let b = avm1::insn_code(Instruction::DefineDictionary(v), texts, from, at);
            &&& b.len() >= 5
            &&& b[0] == 0x88
            &&& half(b, 3) == v.len() % 0x1_0000
            &&& exists|w: Seq<Seq<char>>|
                all_in_words(v, texts, w) && #[trigger] texts_stand(b, 5, b.len() as int, w)
        }),
{
    let p = avm1::constant_pool(v, texts);
    let insn = Instruction::DefineDictionary(v);
    let lows = seq![Low::Op(0x88, p)];
    let b = avm1::insn_code(insn, texts, from, at);
    reveal(avm1::lower);
    assert(avm1::lower(insn, texts) == lows);
    lemma_lows(lows, from, at);
    bytes::lemma_le_len(p.len(), 2);
    bytes::lemma_le_len(v.len(), 2);
    let entries = avm1::pool_entries(v, texts, v.len());
    assert(b.len() == 5 + entries.len());
    assert(b.subrange(5, 5 + entries.len() as int) =~= entries);
    assert(b[3] == le(v.len(), 2)[0] && b[4] == le(v.len(), 2)[1]);
    lemma_le(b, 3, v.len());
    let w = lemma_entries(b, 5, v, texts, v.len());
    assert(v.take(v.len() as int) =~= v);
}

/// Whether a function stands in bytes: what it is called, how many parameters it has and
/// their names, the size of its body, and the body.
pub open spec fn function_stands(
    b: Seq<u8>,
    name: Seq<char>,
    params: Seq<Seq<char>>,
    e: int,
    body: Seq<u8>,
) -> bool {
    let n = name.len() as int;
    &&& b[0] == 0x9B
    &&& half(b, 1) == (e + 2 - 3) % 0x1_0000
    &&& spelled(b, 3, name)
    &&& half(b, n + 4) == params.len() % 0x1_0000
    &&& texts_stand(b, n + 6, e, params)
    &&& half(b, e) == body.len() % 0x1_0000
    &&& b.len() == e + 2 + body.len()
    &&& b.skip(e + 2) == body
}

/// A function is written with its name, its parameters and its body.
#[verifier::rlimit(40)]
pub proof fn law_function(
    name: Seq<char>,
    params: Seq<Seq<char>>,
    body: Seq<Instruction>,
    texts: Texts,
    from: int,
    at: Seq<nat>,
)
    requires
        is_latin1(name),
        avm1::names_err(params, params.len()) is None,
    ensures
        ({
            let b = avm1::insn_code(
                Instruction::DefineFunction { name, params, body },
                texts,
                from,
                at,
            );
            exists|e: int| #[trigger]
                function_stands(b, name, params, e, avm1::code(body, texts))
        }),
{
    let insn = Instruction::DefineFunction { name, params, body };
    let inner = avm1::code(body, texts);
    let head = avm1::function_head(name, params);
    let b = avm1::insn_code(insn, texts, from, at);
    let c = avm1::cstr(name);
    let names = avm1::param_names(params, params.len());
    let size = le(head.len() + 2, 2);
    let count = le(params.len(), 2);
    let rest = le(inner.len(), 2);
    reveal(avm1::lower);
    reveal_with_fuel(avm1::lows_code, 2);
    assert(b =~= seq![0x9Bu8] + size + head + rest + inner);
    bytes::lemma_le_len(head.len() + 2, 2);
    bytes::lemma_le_len(params.len(), 2);
    bytes::lemma_le_len(inner.len(), 2);
    let n = name.len() as int;
    let e = n + 6 + names.len();
    assert(head.len() == n + 3 + names.len());
    assert(b[1] == size[0] && b[2] == size[1]);
    lemma_le(b, 1, head.len() + 2);
    assert(b.subrange(3, 3 + n + 1) =~= c);
    lemma_text(b, 3, name);
    assert(b[n + 4] == count[0] && b[n + 5] == count[1]);
    lemma_le(b, n + 4, params.len());
    assert(b.subrange(n + 6, n + 6 + names.len()) =~= names);
    lemma_names(b, n + 6, params, params.len());
    assert(params.take(params.len() as int) =~= params);
    assert(b[e] == rest[0] && b[e + 1] == rest[1]);
    lemma_le(b, e, inner.len());
    assert(b.skip(e + 2) =~= inner);
    assert(function_stands(b, name, params, e, inner));
}

/// Whether a function with registers stands in bytes.
pub open spec fn function2_stands(
    b: Seq<u8>,
    name: Seq<char>,
    params: Seq<(u32, Seq<char>)>,
    registers: i16,
    flags: i16,
    e: int,
    body: Seq<u8>,
) -> bool {
    let n = name.len() as int;
    &&& b[0] == 0x8E
    &&& half(b, 1) == (e + 2 - 3) % 0x1_0000
    &&& spelled(b, 3, name)
    &&& half(b, n + 4) == params.len() % 0x1_0000
    &&& 0 <= registers <= 0xFF ==> b[n + 6] == registers
    &&& half(b, n + 7) == flags as u16
    &&& params_stand(b, n + 9, e, params)
    &&& half(b, e) == body.len() % 0x1_0000
    &&& b.len() == e + 2 + body.len()
    &&& b.skip(e + 2) == body
}

/// A function with registers is written with its name, its parameters and their
/// registers, how many registers it has, its flags and its body.
#[verifier::rlimit(40)]
pub proof fn law_function2(
    name: Seq<char>,
    params: Seq<(u32, Seq<char>)>,
    registers: i16,
    flags: i16,
    body: Seq<Instruction>,
    texts: Texts,
    from: int,
    at: Seq<nat>,
)
    requires
        is_latin1(name),
        avm1::reg_params_err(params, params.len()) is None,
        forall|i: int| 0 <= i < params.len() ==> (#[trigger] params[i]).0 <= 0xFF,
    ensures
        ({
            let b = avm1::insn_code(
                Instruction::DefineFunction2 {
                    name,
                    params,
                    register_count: registers,
                    flags,
                    body,
                },
                texts,
                from,
                at,
            );
            exists|e: int| #[trigger]
                function2_stands(b, name, params, registers, flags, e, avm1::code(body, texts))
        }),
{
    let insn = Instruction::DefineFunction2 {
        name,
        params,
        register_count: registers,
        flags,
        body,
    };
    let inner = avm1::code(body, texts);
    let head = avm1::function2_head(name, params, registers, flags);
    let b = avm1::insn_code(insn, texts, from, at);
    let c = avm1::cstr(name);
    let names = avm1::reg_params(params, params.len());
    let size = le(head.len() + 2, 2);
    let count = le(params.len(), 2);
    let bits = le((flags as u16) as nat, 2);
    let rest = le(inner.len(), 2);
    reveal(avm1::lower);
    reveal_with_fuel(avm1::lows_code, 2);
    assert(b =~= seq![0x8Eu8] + size + head + rest + inner);
    bytes::lemma_le_len(head.len() + 2, 2);
    bytes::lemma_le_len(params.len(), 2);
    bytes::lemma_le_len((flags as u16) as nat, 2);
    bytes::lemma_le_len(inner.len(), 2);
    let n = name.len() as int;
    let e = n + 9 + names.len();
    assert(head.len() == n + 6 + names.len());
    assert(b[1] == size[0] && b[2] == size[1]);
    lemma_le(b, 1, head.len() + 2);
    assert(b.subrange(3, 3 + n + 1) =~= c);
    lemma_text(b, 3, name);
    assert(b[n + 4] == count[0] && b[n + 5] == count[1]);
    lemma_le(b, n + 4, params.len());
    assert(b[n + 6] == registers as u8);
    assert(b[n + 7] == bits[0] && b[n + 8] == bits[1]);
    lemma_le(b, n + 7, (flags as u16) as nat);
    assert(b.subrange(n + 9, n + 9 + names.len()) =~= names);
    lemma_params(b, n + 9, params, params.len());
    assert(params.take(params.len() as int) =~= params);
    assert(b[e] == rest[0] && b[e + 1] == rest[1]);
    lemma_le(b, e, inner.len());
    assert(b.skip(e + 2) =~= inner);
    assert(function2_stands(b, name, params, registers, flags, e, inner));
}

} // verus!
