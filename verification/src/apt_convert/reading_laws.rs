//! The instructions that bytecode spells, opcode by opcode.
use super::code_laws::spelled;
use super::narrow;
use super::reading::{self, Raw};
use crate::apt::bytes::un_le;
use crate::apt::file_format::{half, lemma_half, lemma_word, word};
use crate::apt::model::{Instruction, Value};
use crate::apt::reader::terminator;
use vstd::prelude::*;

verus! {

/// Whether a value is pushed from `p` up to `e`: its kind, and itself.
pub open spec fn value_stands(d: Seq<u8>, p: int, e: int, v: Value) -> bool {
    let q = p + 1;
    &&& 0 <= p < e <= d.len()
    &&& match v {
        Value::String(s) => d[p] == 0 && spelled(d, q, s) && e == q + s.len() + 1,
        Value::Float(f) => {
            ||| d[p] == 1 && f == word(d, q) && e == q + 4
            ||| d[p] == 6 && e == q + 8 && f == narrow::narrowed(
                (word(d, q) * 0x1_0000_0000 + word(d, q + 4)) as u64,
            ) as u32
        },
        Value::Undefined => (d[p] == 2 || d[p] == 3) && e == q,
        Value::Register(r) => d[p] == 4 && r == d[q] && e == q + 1,
        Value::Boolean(b) => d[p] == 5 && b == (d[q] != 0) && e == q + 1,
        Value::Integer(i) => d[p] == 7 && i == word(d, q) as i32 && e == q + 4,
        Value::Lookup(k) => {
            ||| d[p] == 8 && k == d[q] && e == q + 1
            ||| d[p] == 9 && k == half(d, q) && e == q + 2
        },
    }
}

/// Whether values are pushed one behind the other from `p` up to the end.
pub open spec fn values_stand(d: Seq<u8>, p: int, v: Seq<Value>) -> bool
    decreases v.len(),
{
    if v.len() == 0 {
        p == d.len()
    } else {
        exists|e: int|
            #![trigger value_stands(d, p, e, v[0])]
            value_stands(d, p, e, v[0]) && values_stand(d, e, v.skip(1))
    }
}

/// Whether terminated texts stand one behind the other from `p` up to `e`.
pub open spec fn texts_stand(d: Seq<u8>, p: int, e: int, v: Seq<Seq<char>>) -> bool
    decreases v.len(),
{
    if v.len() == 0 {
        e == p
    } else {
        spelled(d, p, v[0]) && texts_stand(d, p + v[0].len() + 1, e, v.skip(1))
    }
}

/// Whether registers with terminated texts stand one behind the other from `p` up to `e`.
pub open spec fn params_stand(d: Seq<u8>, p: int, e: int, v: Seq<(u32, Seq<char>)>) -> bool
    decreases v.len(),
{
    if v.len() == 0 {
        e == p
    } else {
        v[0].0 == d[p] && spelled(d, p + 1, v[0].1) && params_stand(
            d,
            p + v[0].1.len() + 2,
            e,
            v.skip(1),
        )
    }
}

/// Whether a text is what stands before the first zero from `p` on.
proof fn lemma_text(d: Seq<u8>, p: int)
    requires
        0 <= p,
    ensures
        reading::string_at(d, p) matches Ok((s, e)) ==> spelled(d, p, s) && e == p + s.len() + 1,
{
    reading::lemma_terminator_bounds(d, p);
    lemma_zero(d, p);
}

proof fn lemma_zero(d: Seq<u8>, i: int)
    ensures
        terminator(d, i) matches Some(e) ==> d[e] == 0,
    decreases d.len() - i,
{
    if i < d.len() && d[i] != 0 {
        lemma_zero(d, i + 1);
    }
}

proof fn lemma_one(d: Seq<u8>, p: int)
    ensures
        un_le(d, p, 1) == d[p],
{
    reveal_with_fuel(un_le, 2);
}

/// A value that is read stands in the bytes by its kind.
pub proof fn law_value_read(d: Seq<u8>, p: int)
    requires
        0 <= p < d.len(),
    ensures
        reading::value_at(d, p) matches Ok((v, e)) ==> value_stands(d, p, e, v),
{
    lemma_text(d, p + 1);
    lemma_one(d, p + 1);
    lemma_half(d, p + 1);
    lemma_word(d, p + 1);
    lemma_word(d, p + 5);
}

proof fn lemma_values(d: Seq<u8>, p: int)
    requires
        0 <= p <= d.len(),
    ensures
        reading::values(d, p) matches Ok((v, _)) ==> values_stand(d, p, v),
    decreases d.len() - p,
{
    if p < d.len() {
        law_value_read(d, p);
        if let Ok((x, e)) = reading::value_at(d, p) {
            lemma_values(d, e);
            if let Ok((rest, q)) = reading::values(d, e) {
                let v = seq![x] + rest;
                assert(v.skip(1) =~= rest);
                assert(value_stands(d, p, e, v[0]));
            }
        }
    }
}

proof fn lemma_strings(d: Seq<u8>, p: int, n: nat)
    requires
        0 <= p,
    ensures
        reading::strings(d, p, n) matches Ok((v, e)) ==> texts_stand(d, p, e, v) && v.len() == n
            && p <= e,
    decreases n,
{
    if n > 0 {
        lemma_text(d, p);
        if let Ok((x, e)) = reading::string_at(d, p) {
            lemma_strings(d, e, (n - 1) as nat);
            if let Ok((rest, q)) = reading::strings(d, e, (n - 1) as nat) {
                let v = seq![x] + rest;
                assert(v.skip(1) =~= rest);
            }
        }
    }
}

proof fn lemma_reg_strings(d: Seq<u8>, p: int, n: nat)
    requires
        0 <= p,
    ensures
        reading::reg_strings(d, p, n) matches Ok((v, e)) ==> params_stand(d, p, e, v) && v.len()
            == n && p <= e,
    decreases n,
{
    if n > 0 && p < d.len() {
        lemma_text(d, p + 1);
        if let Ok((x, e)) = reading::string_at(d, p + 1) {
            lemma_reg_strings(d, e, (n - 1) as nat);
            if let Ok((rest, q)) = reading::reg_strings(d, e, (n - 1) as nat) {
                let v = seq![(d[p] as u32, x)] + rest;
                assert(v.skip(1) =~= rest);
            }
        }
    }
}

/// Whether texts are the values of a dictionary.
pub open spec fn all_texts(v: Seq<Value>, w: Seq<Seq<char>>) -> bool {
    &&& v.len() == w.len()
    &&& forall|i: int| 0 <= i < v.len() ==> #[trigger] v[i] == Value::String(w[i])
}

/// Whether the names of a function's parameters end at `e`.
pub open spec fn names_end(p: Seq<u8>, name: Seq<char>, v: Seq<Seq<char>>, e: int) -> bool {
    texts_stand(p, name.len() as int + 3, e, v)
}

/// Whether the parameters of a function with registers end at `e`.
pub open spec fn params_end(
    p: Seq<u8>,
    name: Seq<char>,
    v: Seq<(u32, Seq<char>)>,
    e: int,
) -> bool {
    params_stand(p, name.len() as int + 6, e, v)
}

/// Whether an opcode with operands `p` spells an instruction, wherever it leads and
/// whatever its body is.
#[verifier::opaque]
pub open spec fn spells(o: u8, p: Seq<u8>, insn: Instruction) -> bool {
    match insn {
        Instruction::End => o == 0,
        Instruction::GotoFrame(f) => o == 0x81 && p.len() >= 2 && f == half(p, 0),
        Instruction::GetUrl { url, target } => {
            o == 0x83 && spelled(p, 0, url) && spelled(p, url.len() as int + 1, target)
        },
        Instruction::StoreRegister(r) => {
            &&& o == 0x87
            &&& p.len() > 0 ==> r == p[0]
            &&& p.len() == 0 ==> r == 0
        },
        Instruction::DefineDictionary(v) => {
            &&& o == 0x88
            &&& p.len() < 2 ==> v.len() == 0
            &&& p.len() >= 2 ==> v.len() == half(p, 0) && exists|w: Seq<Seq<char>>, e: int|
                all_texts(v, w) && #[trigger] texts_stand(p, 2, e, w)
        },
        Instruction::SetTarget(s) => o == 0x8B && spelled(p, 0, s),
        Instruction::GotoLabel(s) => o == 0x8C && spelled(p, 0, s),
        Instruction::GotoFrame2 { play } => o == 0x9F && play == (p.len() > 0 && p[0] % 2 == 1),
        Instruction::Push(v) => o == 0x96 && values_stand(p, 0, v),
        Instruction::BranchAlways { .. } => o == 0x99 && p.len() >= 2,
        Instruction::BranchIfTrue { .. } => o == 0x9D && p.len() >= 2,
        Instruction::With { .. } => o == 0x94 && p.len() >= 2,
        Instruction::DefineFunction { name, params, .. } => {
            let q = name.len() as int + 1;
            &&& o == 0x9B
            &&& spelled(p, 0, name)
            &&& params.len() == half(p, q)
            &&& exists|e: int| #[trigger] names_end(p, name, params, e)
        },
        Instruction::DefineFunction2 { name, params, register_count, flags, .. } => {
            let q = name.len() as int + 1;
            &&& o == 0x8E
            &&& spelled(p, 0, name)
            &&& params.len() == half(p, q)
            &&& register_count == p[q + 2]
            &&& flags == half(p, q + 3) as i16
            &&& exists|e: int| #[trigger] params_end(p, name, params, e)
        },
        Instruction::Simple(x) => {
            &&& o == x
            &&& o != 0 && o != 0x81 && o != 0x83 && o != 0x87 && o != 0x88 && o != 0x8B && o != 0x8C
                && o != 0x9F && o != 0x96 && o != 0x99 && o != 0x9D && o != 0x94 && o != 0x9B && o
                != 0x8E
        },
        _ => false,
    }
}

/// Whether a body of `n` bytes follows an instruction.
pub open spec fn body_size(p: Seq<u8>, insn: Instruction, n: nat) -> bool {
    ||| insn matches Instruction::DefineFunction { name, params, .. } && named_size(
        p,
        name,
        params,
        n,
    )
    ||| insn matches Instruction::DefineFunction2 { name, params, .. } && listed_size(
        p,
        name,
        params,
        n,
    )
}

/// Whether `n` stands behind the names of a function's parameters.
pub open spec fn named_size(p: Seq<u8>, name: Seq<char>, v: Seq<Seq<char>>, n: nat) -> bool {
    exists|e: int| #[trigger] names_end(p, name, v, e) && n == half(p, e)
}

/// Whether `n` stands behind the parameters of a function with registers.
pub open spec fn listed_size(
    p: Seq<u8>,
    name: Seq<char>,
    v: Seq<(u32, Seq<char>)>,
    n: nat,
) -> bool {
    exists|e: int| #[trigger] params_end(p, name, v, e) && n == half(p, e)
}

/// Where an instruction with operands `p` that ends at `after` leads.
pub open spec fn leads_to(p: Seq<u8>, insn: Instruction, after: int) -> Option<int> {
    match insn {
        Instruction::BranchAlways { .. } => Some(after + (half(p, 0) as i16)),
        Instruction::BranchIfTrue { .. } => Some(after + (half(p, 0) as i16)),
        Instruction::With { .. } => Some(after + half(p, 0)),
        _ => None,
    }
}

proof fn lemma_function(p: Seq<u8>, after: int)
    ensures
        reading::function(p) matches Ok(st) ==> spells(0x9B, p, st.insn) && st.link is None && (
        st.size matches Some(n) && body_size(p, st.insn, n)) && st.insn is DefineFunction,
{
    lemma_text(p, 0);
    if let Ok((name, q)) = reading::string_at(p, 0) {
        lemma_half(p, q);
        if let Ok(n) = reading::number_at(p, q, 2) {
            lemma_strings(p, q + 2, n);
            if let Ok((params, r)) = reading::strings(p, q + 2, n) {
                lemma_half(p, r);
                assert(names_end(p, name, params, r));
                if let Ok(size) = reading::number_at(p, r, 2) {
                    assert(named_size(p, name, params, size));
                }
                reveal(spells);
            }
        }
    }
}

proof fn lemma_function2(p: Seq<u8>, after: int)
    ensures
        reading::function2(p) matches Ok(st) ==> spells(0x8E, p, st.insn) && st.link is None && (
        st.size matches Some(n) && body_size(p, st.insn, n)) && st.insn is DefineFunction2,
{
    lemma_text(p, 0);
    if let Ok((name, q)) = reading::string_at(p, 0) {
        lemma_half(p, q);
        lemma_half(p, q + 3);
        let n = un_le(p, q, 2);
        lemma_reg_strings(p, q + 5, n);
        if let Ok((params, r)) = reading::reg_strings(p, q + 5, n) {
            lemma_half(p, r);
            assert(params_end(p, name, params, r));
            if let Ok(size) = reading::number_at(p, r, 2) {
                assert(listed_size(p, name, params, size));
            }
            reveal(spells);
        }
    }
}

proof fn lemma_pool(p: Seq<u8>)
    ensures
        reading::pool(p) matches Ok(v) ==> spells(0x88, p, Instruction::DefineDictionary(v)),
{
    reveal(spells);
    lemma_half(p, 0);
    if p.len() >= 2 {
        let n = un_le(p, 0, 2);
        lemma_strings(p, 2, n);
        if let Ok((w, e)) = reading::strings(p, 2, n) {
            assert(all_texts(reading::as_values(w), w) && texts_stand(p, 2, e, w));
        }
    }
}

/// An opcode spells its instruction.
#[verifier::rlimit(40)]
pub proof fn law_step(o: u8, p: Seq<u8>, after: int)
    ensures
        reading::step(o, p, after) matches Ok(st) ==> {
            &&& spells(o, p, st.insn)
            &&& st.link == leads_to(p, st.insn, after)
            &&& match st.size {
                Some(n) => body_size(p, st.insn, n),
                None => !(st.insn is DefineFunction || st.insn is DefineFunction2),
            }
        },
{
    reveal(reading::step);
    lemma_half(p, 0);
    if o == 0x9B {
        lemma_function(p, after);
    } else if o == 0x8E {
        lemma_function2(p, after);
    } else if o == 0x88 {
        lemma_pool(p);
    } else {
        lemma_values(p, 0);
        lemma_text(p, 0);
        if let Ok((s, q)) = reading::string_at(p, 0) {
            lemma_text(p, q);
        }
        reveal(spells);
    }
}

/// Where the operands of the instruction at `p` end: those from 0x80 on have some, as many
/// as the two bytes behind them say.
pub open spec fn operands_end(d: Seq<u8>, p: int) -> int {
    if d[p] < 0x80 {
        p + 1
    } else {
        p + 3 + half(d, p + 1)
    }
}

/// The operands of the instruction at `p`.
pub open spec fn operands(d: Seq<u8>, p: int) -> Seq<u8> {
    if d[p] < 0x80 {
        Seq::empty()
    } else {
        d.subrange(p + 3, operands_end(d, p))
    }
}

/// The body that an instruction has, and the bytes it takes.
pub open spec fn body_stands(
    d: Seq<u8>,
    after: int,
    n: nat,
    insn: Instruction,
) -> bool {
    let body = match insn {
        Instruction::DefineFunction { body, .. } => body,
        Instruction::DefineFunction2 { body, .. } => body,
        _ => Seq::empty(),
    };
    let end = if after + n < d.len() {
        after + n
    } else {
        d.len() as int
    };
    reading::block(d.subrange(after, end)) matches Ok(b) && b == body
}

/// Whether an instruction stands from `p` up to `e`, with its operands and its body,
/// wherever it leads.
pub open spec fn insn_stands(d: Seq<u8>, p: int, e: int, insn: Instruction) -> bool {
    let after = operands_end(d, p);
    &&& 0 <= p < d.len()
    &&& after <= d.len()
    &&& spells(d[p], operands(d, p), insn)
    &&& if insn is DefineFunction || insn is DefineFunction2 {
        exists|n: nat|
            #[trigger] body_size(operands(d, p), insn, n) && e == after + n && body_stands(
                d,
                after,
                n,
                insn,
            )
    } else {
        e == after
    }
}

/// Whether the `i`-th of the instructions that start at `at` leads to the one that starts
/// where its operands say, or behind the last where none does.
pub open spec fn insn_leads(d: Seq<u8>, at: Seq<int>, i: int, insn: Instruction) -> bool {
    let n = at.len() - 1;
    leads_to(operands(d, at[i]), insn, operands_end(d, at[i])) matches Some(byte) ==> {
        let t = match insn {
            Instruction::BranchAlways { target } => target,
            Instruction::BranchIfTrue { target } => target,
            Instruction::With { end_target } => end_target,
            _ => 0,
        };
        ||| t < n && at[t as int] == byte
        ||| t == n && forall|k: int| 0 <= k < n ==> #[trigger] at[k] != byte
    }
}

/// Whether actions stand one behind the other from their offsets on, up to the end.
spec fn raws_stand(d: Seq<u8>, r: Seq<Raw>, end: int) -> bool {
    forall|i: int|
        #![trigger r[i]]
        0 <= i < r.len() ==> {
            let e = if i + 1 < r.len() {
                r[i + 1].offset
            } else {
                end
            };
            &&& insn_stands(d, r[i].offset, e, r[i].insn)
            &&& r[i].link == leads_to(
                operands(d, r[i].offset),
                r[i].insn,
                operands_end(d, r[i].offset),
            )
        }
}

/// The size of a body is the same once the body is known.
proof fn lemma_same_size(p: Seq<u8>, insn: Instruction, body: Seq<Instruction>, n: nat)
    requires
        body_size(p, insn, n),
    ensures
        body_size(p, reading::with_body(insn, body), n),
{
}

proof fn lemma_raws(d: Seq<u8>, p: int)
    requires
        0 <= p,
    ensures
        reading::raws(d, p) matches Ok((r, e)) ==> {
            &&& raws_stand(d, r, e)
            &&& r.len() > 0 ==> r[0].offset == p
            &&& r.len() == 0 ==> e == p && p >= d.len()
            &&& e >= d.len()
            &&& r.len() <= reading::left(d, p)
        },
    decreases reading::left(d, p),
{
    if p < d.len() {
        lemma_half(d, p + 1);
        if let Ok(after) = reading::extent(d, p) {
            let o = operands(d, p);
            assert(after == operands_end(d, p));
            assert(o == reading::payload(d, p, after));
            law_step(d[p], o, after);
            if let Ok(st) = reading::step(d[p], o, after) {
                match st.size {
                    None => {
                        let raw = Raw { offset: p, insn: st.insn, link: st.link };
                        lemma_raws(d, after);
                        if let Ok((rest, e)) = reading::raws(d, after) {
                            lemma_front(d, raw, after, rest, e);
                        }
                    },
                    Some(n) => {
                        if let Ok(body) = reading::block(reading::up_to(d, after, n)) {
                            let insn = reading::with_body(st.insn, body);
                            let raw = Raw { offset: p, insn, link: st.link };
                            assert(spells(d[p], o, insn)) by {
                                reveal(spells);
                            }
                            lemma_same_size(o, st.insn, body, n);
                            lemma_raws(d, after + n);
                            if let Ok((rest, e)) = reading::raws(d, after + n) {
                                lemma_front(d, raw, after + n, rest, e);
                            }
                        }
                    },
                }
            }
        }
    }
}

proof fn lemma_front(d: Seq<u8>, raw: Raw, next: int, rest: Seq<Raw>, e: int)
    requires
        raws_stand(d, rest, e),
        rest.len() > 0 ==> rest[0].offset == next,
        rest.len() == 0 ==> e == next,
        insn_stands(d, raw.offset, next, raw.insn),
        raw.link == leads_to(
            operands(d, raw.offset),
            raw.insn,
            operands_end(d, raw.offset),
        ),
    ensures
        raws_stand(d, seq![raw] + rest, e),
{
    let r = seq![raw] + rest;
    assert forall|i: int| #![trigger r[i]] 0 <= i < r.len() implies {
        let n = if i + 1 < r.len() {
            r[i + 1].offset
        } else {
            e
        };
        &&& insn_stands(d, r[i].offset, n, r[i].insn)
        &&& r[i].link == leads_to(
            operands(d, r[i].offset),
            r[i].insn,
            operands_end(d, r[i].offset),
        )
    } by {
        if i > 0 {
            assert(r[i] == rest[i - 1]);
            if i + 1 < r.len() {
                assert(r[i + 1] == rest[i]);
            }
        } else if r.len() > 1 {
            assert(r[1] == rest[0]);
        }
    }
}

proof fn lemma_index(r: Seq<Raw>, byte: int, i: int)
    requires
        0 <= i <= r.len(),
        forall|k: int| 0 <= k < i ==> (#[trigger] r[k]).offset != byte,
    ensures
        ({
            let t = reading::index_of(r, byte, i);
            ||| 0 <= t < r.len() && r[t].offset == byte
            ||| t == r.len() && forall|k: int| 0 <= k < r.len() ==> (#[trigger] r[k]).offset != byte
        }),
    decreases r.len() - i,
{
    if i < r.len() && r[i].offset != byte {
        lemma_index(r, byte, i + 1);
    }
}

/// Whether instructions stand from the offsets `at` on, one behind the other, the last of
/// the offsets being the end, and lead where their operands say.
pub open spec fn code_stands(d: Seq<u8>, at: Seq<int>, v: Seq<Instruction>) -> bool {
    &&& at.len() == v.len() + 1
    &&& at[0] == 0
    &&& at[v.len() as int] >= d.len()
    &&& forall|i: int|
        #![trigger v[i]]
        0 <= i < v.len() ==> insn_stands(d, at[i], at[i + 1], v[i]) && insn_leads(d, at, i, v[i])
}

/// Shapes do not depend on where an instruction leads.
proof fn lemma_linked(d: Seq<u8>, p: int, e: int, raw: Raw, r: Seq<Raw>)
    requires
        insn_stands(d, p, e, raw.insn),
        raw.link is None ==> leads_to(operands(d, p), raw.insn, operands_end(d, p)) is None,
    ensures
        insn_stands(d, p, e, reading::linked(raw, r)),
{
    reveal(spells);
    let insn = reading::linked(raw, r);
    if insn is DefineFunction || insn is DefineFunction2 {
        assert(insn == raw.insn);
    }
}

proof fn lemma_each(d: Seq<u8>, r: Seq<Raw>, end: int, i: int)
    requires
        raws_stand(d, r, end),
        0 <= i < r.len() <= usize::MAX,
    ensures
        ({
            let at = Seq::new(r.len(), |i: int| r[i].offset).push(end);
            let insn = reading::linked(r[i], r);
            insn_stands(d, at[i], at[i + 1], insn) && insn_leads(d, at, i, insn)
        }),
{
    let at = Seq::new(r.len(), |i: int| r[i].offset).push(end);
    let raw = r[i];
    lemma_linked(d, at[i], at[i + 1], raw, r);
    if let Some(byte) = raw.link {
        lemma_index(r, byte, 0);
        let t = reading::index_of(r, byte, 0);
        if t < r.len() {
            assert(at[t] == r[t].offset);
        } else {
            assert forall|k: int| 0 <= k < r.len() implies #[trigger] at[k] != byte by {
                assert(at[k] == r[k].offset);
            }
        }
    }
}

/// The instructions that are read from bytecode stand in it one behind the other, each by
/// its opcode and with its operands, and every branch leads to the instruction that
/// starts where its operands say.
pub proof fn law_code_read(d: Seq<u8>)
    requires
        d.len() <= usize::MAX,
    ensures
        reading::block(d) matches Ok(v) ==> exists|at: Seq<int>| #[trigger] code_stands(d, at, v),
{
    lemma_raws(d, 0);
    if let Ok((r, end)) = reading::raws(d, 0) {
        let v = reading::link_all(r);
        let at = Seq::new(r.len(), |i: int| r[i].offset).push(end);
        assert forall|i: int| #![trigger v[i]] 0 <= i < v.len() implies {
            insn_stands(d, at[i], at[i + 1], v[i]) && insn_leads(d, at, i, v[i])
        } by {
            lemma_each(d, r, end, i);
        }
        assert(code_stands(d, at, v));
        assert(reading::block(d)->Ok_0 == v);
    }
}

} // verus!
