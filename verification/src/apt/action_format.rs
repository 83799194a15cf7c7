//! How an action stream stands in the bytes of a file: opcode by opcode.
//!
//! What an opcode takes starts at the next multiple of a pointer's width behind it,
//! unless it is a number of one, two or four bytes right behind it.
use super::actions::{DictRefKind, PushStringKind};
use super::decode::{self, Ctx, Fix};
use super::file_format::{
    address, count, fits, group_words, half, held, lemma_fit, lemma_fits, lemma_row,
    lemma_strides, next, read_align, text_behind, wide, word,
};
use super::model::{CatchVar, Instruction, Value};
use super::reader::{items, reps, Rd, Src};
use vstd::prelude::*;

verus! {

broadcast use group_words;

/// The opcodes that stand alone.
pub open spec fn alone(op: u8) -> bool {
    ||| 0x04 <= op <= 0x15
    ||| op == 0x17 || op == 0x18 || op == 0x1C || op == 0x1D
    ||| 0x20 <= op <= 0x2C
    ||| 0x30 <= op <= 0x37
    ||| 0x3A <= op <= 0x56
    ||| 0x58 <= op <= 0x5E
    ||| 0x60 <= op <= 0x67
    ||| op == 0x69
    ||| 0x70 <= op <= 0x76
    ||| op == 0x8A || op == 0x9A || op == 0x9E || op == 0xBA
}

/// A list of constants: how many, and where their indices are.
pub open spec fn items_at(x: Ctx, q: int, v: Seq<Value>) -> bool {
    let d = x.src.data;
    let ps = x.src.ps;
    let row = next(address(d, q + wide(ps, 1), ps) as int, ps);
    &&& v.len() == count(word(d, q))
    &&& forall|i: int| 0 <= i < v.len() ==> item_at(x, row + wide(ps, i), #[trigger] v[i])
}

/// A constant: its index.
pub open spec fn item_at(x: Ctx, p: int, v: Value) -> bool {
    let k = address(x.src.data, p, x.src.ps);
    k < x.consts.len() && v == x.consts[k as int]
}

/// Names of parameters: how many, and where the pointers to them are.
pub open spec fn names_at(x: Ctx, n: int, off: u64, v: Seq<Seq<char>>) -> bool {
    let ps = x.src.ps;
    &&& v.len() == n
    &&& forall|i: int|
        0 <= i < v.len() ==> text_behind(
            x.src.data,
            next(off as int, ps) + wide(ps, i),
            ps,
            #[trigger] v[i],
        )
}

/// Parameters in registers: each a register and a pointer to a name.
pub open spec fn params_at(x: Ctx, n: int, off: u64, v: Seq<(u32, Seq<char>)>) -> bool {
    let ps = x.src.ps;
    let d = x.src.data;
    &&& v.len() == n
    &&& forall|i: int|
        #![trigger v[i]]
        0 <= i < v.len() ==> {
            let p = next(off as int, ps) + wide(ps, 2 * i);
            v[i].0 == word(d, p) && text_behind(d, p + wide(ps, 1), ps, v[i].1)
        }
}

/// Whether the instructions from `p` up to `e` are these.
pub open spec fn body_at(x: Ctx, p: int, e: int, v: Seq<Instruction>) -> bool {
    let (w, c) = decode::block(x, Rd::start(p), Some(e));
    c.err is None && w == v
}

/// The signed number in a pointer-wide slot.
pub open spec fn signed_at(d: Seq<u8>, p: int, ps: nat) -> int {
    if ps == 4 {
        (word(d, p) as i32) as int
    } else {
        (address(d, p, ps) as i64) as int
    }
}

/// Whether an instruction stands from `p` up to `e`, wherever it leads.
#[verifier::opaque]
pub open spec fn shape_at(x: Ctx, p: int, e: int, insn: Instruction) -> bool {
    let d = x.src.data;
    let ps = x.src.ps;
    let op = d[p];
    let q = next(p + 1, ps);
    match insn {
        Instruction::End => op == 0 && e == p + 1,
        Instruction::Simple(o) => op == o && alone(o) && e == p + 1,
        Instruction::GotoFrame(f) => op == 0x81 && f == word(d, q) as i32 && e == q + 4,
        Instruction::GetUrl { url, target } => {
            &&& op == 0x83
            &&& text_behind(d, q, ps, url)
            &&& text_behind(d, q + wide(ps, 1), ps, target)
            &&& e == q + wide(ps, 2)
        },
        Instruction::StoreRegister(r) => op == 0x87 && r == word(d, q) as i32 && e == q + 4,
        Instruction::SetTarget(s) => {
            op == 0x8B && text_behind(d, q, ps, s) && e == q + wide(ps, 1)
        },
        Instruction::GotoLabel(s) => {
            op == 0x8C && text_behind(d, q, ps, s) && e == q + wide(ps, 1)
        },
        Instruction::GotoFrame2 { play } => {
            op == 0x9F && play == (word(d, q) != 0) && e == q + 4
        },
        Instruction::Push(v) => op == 0x96 && items_at(x, q, v) && e == q + wide(ps, 2),
        Instruction::DefineDictionary(v) => {
            op == 0x88 && items_at(x, q, v) && e == q + wide(ps, 2)
        },
        Instruction::DefineFunction { name, params, body } => {
            let s = q + wide(ps, 6);
            &&& op == 0x9B
            &&& text_behind(d, q, ps, name)
            &&& names_at(
                x,
                count(word(d, q + wide(ps, 1))),
                address(d, q + wide(ps, 2), ps),
                params,
            )
            &&& e == s + count(word(d, q + wide(ps, 3)))
            &&& body_at(x, s, e, body)
        },
        Instruction::DefineFunction2 { name, params, register_count, flags, body } => {
            let s = q + 8 + wide(ps, 5);
            &&& op == 0x8E
            &&& text_behind(d, q, ps, name)
            &&& register_count == half(d, q + wide(ps, 1) + 4) as i16
            &&& flags == half(d, q + wide(ps, 1) + 6) as i16
            &&& params_at(
                x,
                count(word(d, q + wide(ps, 1))),
                address(d, q + 8 + wide(ps, 1), ps),
                params,
            )
            &&& e == s + count(word(d, q + 8 + wide(ps, 2)))
            &&& body_at(x, s, e, body)
        },
        Instruction::Try { has_catch, has_finally, catch_var, .. } => {
            let flags = d[q + 12];
            &&& op == 0x8F
            &&& e == q + 16 + wide(ps, 1)
            &&& has_catch == (flags % 2 == 1)
            &&& has_finally == (flags / 2 % 2 == 1)
            &&& catch_var matches Some(CatchVar::Register(r)) ==> flags / 4 % 2 == 1 && r == d[q
                + 15]
            &&& catch_var matches Some(CatchVar::Variable(s)) ==> flags / 4 % 2 == 0 && has_catch
                && text_behind(d, q + 16, ps, s)
            &&& catch_var is None ==> flags / 4 % 2 == 0 && !has_catch
        },
        Instruction::With { .. } => op == 0x94 && e == q + wide(ps, 1),
        Instruction::BranchAlways { .. } => op == 0x99 && e == q + 4,
        Instruction::BranchIfTrue { .. } => op == 0x9D && e == q + 4,
        Instruction::BranchIfFalse { .. } => op == 0xB8 && e == q + 4,
        Instruction::TraceStart(v) => op == 0x77 && v == word(d, p + 1) && e == p + 5,
        Instruction::PushString { kind, value } => {
            &&& op == match kind {
                PushStringKind::Push => 0xA1u8,
                PushStringKind::GetVar => 0xA4u8,
                PushStringKind::GetMember => 0xA5u8,
                PushStringKind::SetVar => 0xA6u8,
                PushStringKind::SetMember => 0xA7u8,
            }
            &&& text_behind(d, q, ps, value)
            &&& e == q + wide(ps, 1)
        },
        Instruction::DictRef { kind, index } => {
            &&& op == match kind {
                DictRefKind::PushByte => 0xA2u8,
                DictRefKind::PushWord => 0xA3u8,
                DictRefKind::ByteGetVar => 0xAEu8,
                DictRefKind::ByteGetMember => 0xAFu8,
                DictRefKind::CallFuncPop => 0xB0u8,
                DictRefKind::CallFuncSetVar => 0xB1u8,
                DictRefKind::CallMethodPop => 0xB2u8,
                DictRefKind::CallMethodSetVar => 0xB3u8,
            }
            &&& if kind is PushWord {
                index == half(d, p + 1) && e == p + 3
            } else {
                index == d[p + 1] && e == p + 2
            }
        },
        Instruction::PushFloat(v) => op == 0xB4 && v == word(d, p + 1) && e == p + 5,
        Instruction::PushByte(v) => op == 0xB5 && v == d[p + 1] && e == p + 2,
        Instruction::PushWord(v) => op == 0xB6 && v == half(d, p + 1) && e == p + 3,
        Instruction::PushDWord(v) => op == 0xB7 && v == word(d, p + 1) && e == p + 5,
        Instruction::PushRegister(v) => op == 0xB9 && v == d[p + 1] && e == p + 2,
    }
}

/// How far from its end an instruction leads.
pub open spec fn distance(x: Ctx, p: int, insn: Instruction) -> int {
    let q = next(p + 1, x.src.ps);
    if insn is With {
        signed_at(x.src.data, q, x.src.ps)
    } else {
        (word(x.src.data, q) as i32) as int
    }
}

/// The index of the instruction that one leads to.
pub open spec fn target_of(insn: Instruction) -> Option<usize> {
    match insn {
        Instruction::With { end_target } => Some(end_target),
        Instruction::BranchAlways { target } => Some(target),
        Instruction::BranchIfTrue { target } => Some(target),
        Instruction::BranchIfFalse { target } => Some(target),
        _ => None,
    }
}

/// Whether the `i`-th of the instructions that start at `b` leads where its bytes say:
/// a branch and a block as far from its end as they say, and the three blocks of a `Try`
/// one behind the other.
#[verifier::opaque]
pub open spec fn links_at(x: Ctx, b: Seq<int>, i: int, insn: Instruction) -> bool {
    let d = x.src.data;
    let e = b[i + 1];
    let q = next(b[i] + 1, x.src.ps);
    &&& target_of(insn) matches Some(k) ==> k < b.len() && (0 <= e + distance(x, b[i], insn)
        ==> b[k as int] == e + distance(x, b[i], insn))
    &&& insn matches Instruction::Try { try_count, catch_count, finally_count, .. } ==> {
        let t = i + 1 + try_count;
        let k = t + catch_count;
        let f = k + finally_count;
        &&& f < b.len()
        &&& b[t] == e + word(d, q)
        &&& b[k] == b[t] + word(d, q + 4)
        &&& b[f] == b[k] + word(d, q + 8)
    }
}

/// Whether instructions start at `b`, one behind the other, the last of `b` being where
/// the last one ends.
pub open spec fn block_at(x: Ctx, b: Seq<int>, v: Seq<Instruction>) -> bool {
    &&& b.len() == v.len() + 1
    &&& forall|i: int, j: int| 0 <= i < j < b.len() ==> b[i] < b[j]
    &&& forall|i: int|
        #![trigger v[i]]
        0 <= i < v.len() ==> shape_at(x, b[i], b[i + 1], v[i]) && links_at(x, b, i, v[i])
}

/// Whether offsets that are still to be resolved are those that the bytes say.
pub open spec fn fix_at(x: Ctx, p: int, e: int, insn: Instruction, fix: Fix) -> bool {
    let d = x.src.data;
    let q = next(p + 1, x.src.ps);
    match fix {
        Fix::Nothing => target_of(insn) is None && !(insn is Try),
        Fix::Target(t) => {
            &&& target_of(insn) is Some
            &&& 0 <= e + distance(x, p, insn) ==> t == e + distance(x, p, insn)
        },
        Fix::TryEnds(t, k, f) => {
            &&& insn is Try
            &&& t == e + word(d, q)
            &&& k == t + word(d, q + 4)
            &&& f == k + word(d, q + 8)
        },
    }
}

pub proof fn lemma_small(w: u32)
    ensures
        w < 0x8000_0000 ==> (w as i32) == w,
        w >= 0x8000_0000 ==> (w as i32) < 0,
        items(w as i32) == count(w),
{
    assert(w < 0x8000_0000 ==> (w as i32) == w) by (bit_vector);
    assert(w >= 0x8000_0000 ==> (w as i32) < 0) by (bit_vector);
}

/// A number at the next multiple of a pointer's width.
pub proof fn lemma_aligned(src: Src, c: Rd)
    requires
        held(src),
        src.u32(src.align_ptr(c)).1.err is None,
    ensures
        c.err is None,
        src.align_ptr(c) == Rd::start(next(c.pos, src.ps)),
        src.u32(src.align_ptr(c)) == (
            word(src.data, next(c.pos, src.ps)),
            Rd::start(next(c.pos, src.ps) + 4),
        ),
{
    read_align(src, c);
    lemma_fit(c.pos, src.ps);
}

/// A text at the next multiple of a pointer's width.
pub proof fn lemma_text(src: Src, c: Rd)
    requires
        held(src),
        src.ptr_string(src.align_ptr(c)).1.err is None,
    ensures
        c.err is None,
        src.ptr_string(src.align_ptr(c)).1 == Rd::start(next(c.pos, src.ps) + src.ps),
        text_behind(
            src.data,
            next(c.pos, src.ps),
            src.ps,
            src.ptr_string(src.align_ptr(c)).0,
        ),
{
    read_align(src, c);
    lemma_fit(c.pos, src.ps);
}

proof fn lemma_item(x: Ctx, d: Rd)
    requires
        held(x.src),
        decode::pool_item(x, d).1.err is None,
    ensures
        d.err is None,
        decode::pool_item(x, d).1.pos == next(d.pos, x.src.ps) + x.src.ps,
        ({
            let k = address(x.src.data, next(d.pos, x.src.ps), x.src.ps);
            k < x.consts.len() && decode::pool_item(x, d).0 == x.consts[k as int]
        }),
{
}

/// A list of constants.
#[verifier::rlimit(40)]
pub proof fn lemma_items(x: Ctx, c: Rd)
    requires
        held(x.src),
        decode::pool_items(x, c).1.err is None,
    ensures
        c.err is None,
        items_at(x, next(c.pos, x.src.ps), decode::pool_items(x, c).0),
        decode::pool_items(x, c).1 == Rd::start(next(c.pos, x.src.ps) + wide(x.src.ps, 2)),
{
    let src = x.src;
    let ps = src.ps;
    let (n, c1) = src.i32(src.align_ptr(c));
    let (off, c2) = src.ptr(c1);
    let step = decode::item_step(x);
    let place = |i: int| next(off as int, ps) + wide(ps, i);
    let good = |p: int, v: Value| item_at(x, p, v);
    assert forall|d: Rd| (#[trigger] step(d)).1.err is None implies {
        &&& d.err is None
        &&& step(d).1.pos == next(d.pos, ps) + ps
        &&& good(next(d.pos, ps), step(d).0)
    } by {
        lemma_item(x, d);
    }
    lemma_strides(ps);
    lemma_row(step, c2.at(off as int), items(n), ps, ps as int, ps as int, place, good);
    lemma_aligned(src, c);
    let q = next(c.pos, ps);
    lemma_fit(c.pos, ps);
    lemma_fits(q, 4, ps);
    lemma_small(word(src.data, q));
    let v = decode::pool_items(x, c).0;
    assert(off == address(src.data, q + wide(ps, 1), ps));
    assert(v.len() == count(word(src.data, q)));
    assert forall|i: int| 0 <= i < v.len() implies item_at(
        x,
        next(off as int, ps) + wide(ps, i),
        #[trigger] v[i],
    ) by {
        assert(good(place(i), v[i]));
    }
}

pub proof fn lemma_names(x: Ctx, c: Rd, n: nat)
    requires
        held(x.src),
        reps(decode::name_step(x), c, n).1.err is None,
        0 <= c.pos <= u64::MAX,
    ensures
        c.err is None,
        names_at(x, n as int, c.pos as u64, reps(decode::name_step(x), c, n).0),
{
    let ps = x.src.ps;
    let step = decode::name_step(x);
    let place = |i: int| next(c.pos, ps) + wide(ps, i);
    let good = |p: int, s: Seq<char>| text_behind(x.src.data, p, ps, s);
    lemma_strides(ps);
    lemma_row(step, c, n, ps, ps as int, ps as int, place, good);
    let v = reps(step, c, n).0;
    assert forall|i: int| 0 <= i < v.len() implies text_behind(
        x.src.data,
        next(c.pos, ps) + wide(ps, i),
        ps,
        #[trigger] v[i],
    ) by {
        assert(good(place(i), v[i]));
    }
}

proof fn lemma_param(x: Ctx, d: Rd)
    requires
        held(x.src),
        decode::reg_param(x, d).1.err is None,
    ensures
        d.err is None,
        decode::reg_param(x, d).1.pos == next(d.pos, x.src.ps) + 2 * x.src.ps,
        decode::reg_param(x, d).0.0 == word(x.src.data, next(d.pos, x.src.ps)),
        text_behind(
            x.src.data,
            next(d.pos, x.src.ps) + wide(x.src.ps, 1),
            x.src.ps,
            decode::reg_param(x, d).0.1,
        ),
{
    lemma_aligned(x.src, d);
    lemma_fit(d.pos, x.src.ps);
    lemma_fits(next(d.pos, x.src.ps), 4, x.src.ps);
}

pub proof fn lemma_params(x: Ctx, c: Rd, n: nat)
    requires
        held(x.src),
        reps(decode::param_step(x), c, n).1.err is None,
        0 <= c.pos <= u64::MAX,
    ensures
        c.err is None,
        params_at(x, n as int, c.pos as u64, reps(decode::param_step(x), c, n).0),
{
    let ps = x.src.ps;
    let d = x.src.data;
    let step = decode::param_step(x);
    let place = |i: int| next(c.pos, ps) + wide(ps, 2 * i);
    let good = |p: int, r: (u32, Seq<char>)|
        r.0 == word(d, p) && text_behind(d, p + wide(ps, 1), ps, r.1);
    assert forall|e: Rd| (#[trigger] step(e)).1.err is None implies {
        &&& e.err is None
        &&& step(e).1.pos == next(e.pos, ps) + 2 * ps
        &&& good(next(e.pos, ps), step(e).0)
    } by {
        lemma_param(x, e);
    }
    lemma_strides(ps);
    lemma_row(step, c, n, ps, 2 * ps as int, 2 * ps as int, place, good);
    let v = reps(step, c, n).0;
    assert forall|i: int| #![trigger v[i]] 0 <= i < v.len() implies {
        let p = next(c.pos, ps) + wide(ps, 2 * i);
        v[i].0 == word(d, p) && text_behind(d, p + wide(ps, 1), ps, v[i].1)
    } by {
        assert(good(place(i), v[i]));
    }
}

/// The size of a body, and what is skipped in front of it.
pub proof fn lemma_extent(x: Ctx, c: Rd)
    requires
        held(x.src),
        0 <= c.pos,
        fits(c.pos, x.src.ps),
        decode::body_extent(x, c).1.err is None,
    ensures
        c.err is None,
        ({
            let ps = x.src.ps;
            let (end, e) = decode::body_extent(x, c);
            &&& e == Rd::start(c.pos + wide(ps, 3))
            &&& end == c.pos + wide(ps, 3) + count(word(x.src.data, c.pos))
            &&& e.pos <= x.src.len()
        }),
{
    let src = x.src;
    let ps = src.ps;
    let a = src.align(c, 4);
    assert(a == c || a.pos == c.pos) by {
        reveal(next);
    }
    let (size, c1) = src.i32(a);
    let b = src.align_ptr(c1);
    let (_, c2) = src.i32(b);
    lemma_aligned(src, c1);
    lemma_fits(c.pos, 4, ps);
    lemma_fits(c.pos + wide(ps, 1), 4, ps);
    lemma_small(word(src.data, c.pos));
}

} // verus!
