//! What was read of an action stream stands in the bytes, opcode by opcode.
use super::action_format::{
    block_at, body_at, fix_at, lemma_aligned, lemma_extent, lemma_items, lemma_names,
    lemma_params, lemma_small, lemma_text, links_at, names_at, params_at, shape_at, target_of,
};
use super::decode::{self, Ctx, Fix, Raw};
use super::encode;
use super::file_format::{
    address, count, fits, group_words, half, held, lemma_fit, lemma_fits, next, read_align,
    text_behind, wide, word,
};
use super::flush;
use super::io::joined;
use super::laws::{self, terminable};
use super::layout::Image;
use super::model::Instruction;
use super::out::Out;
use super::parsed;
use super::readback::limit;
use super::readback_actions::storable_stream;
use super::reader::{items, reps, Rd, Src};
use super::writable;
use vstd::prelude::*;

verus! {

broadcast use group_words;

proof fn lemma_flags(f: u8)
    ensures
        (f & 1 != 0) == (f % 2 == 1),
        (f & 2 != 0) == (f / 2 % 2 == 1),
        (f & 4 != 0) == (f / 4 % 2 == 1),
{
    assert((f & 1 != 0) == (f % 2 == 1)) by (bit_vector);
    assert((f & 2 != 0) == (f / 2 % 2 == 1)) by (bit_vector);
    assert((f & 4 != 0) == (f / 4 % 2 == 1)) by (bit_vector);
}

proof fn lemma_nonzero(w: u32)
    ensures
        ((w as i32) != 0) == (w != 0),
{
    assert(((w as i32) != 0) == (w != 0)) by (bit_vector);
}

/// Whether what was read at `c` stands there.
spec fn stands(x: Ctx, p: int, got: ((Instruction, Fix), Rd)) -> bool {
    got.1.err is None ==> {
        &&& shape_at(x, p, got.1.pos, got.0.0)
        &&& fix_at(x, p, got.1.pos, got.0.0, got.0.1)
    }
}

#[verifier::rlimit(40)]
proof fn lemma_try(x: Ctx, p: int)
    requires
        held(x.src),
        0 <= p < x.src.len(),
        x.src.data[p] == 0x8F,
    ensures
        stands(x, p, decode::try_payload(x, Rd::start(p + 1))),
{
    reveal(decode::try_payload);
    let c = Rd::start(p + 1);
    let got = decode::try_payload(x, c);
    let q = next(p + 1, x.src.ps);
    if got.1.err is None {
        lemma_aligned(x.src, c);
        lemma_fit(p + 1, x.src.ps);
        lemma_fits(q, 16, x.src.ps);
        lemma_flags(x.src.data[q + 12]);
        reveal(shape_at);
    }
}

proof fn lemma_with(x: Ctx, p: int)
    requires
        held(x.src),
        0 <= p < x.src.len(),
        x.src.data[p] == 0x94,
    ensures
        stands(x, p, decode::with_payload(x, Rd::start(p + 1))),
{
    let c = Rd::start(p + 1);
    let got = decode::with_payload(x, c);
    if got.1.err is None {
        if x.src.ps == 8 {
            assert(x.src.u64(x.src.align_ptr(c)) == x.src.ptr(c));
        }
        read_align(x.src, c);
        lemma_fit(p + 1, x.src.ps);
        reveal(shape_at);
    }
}

proof fn lemma_branch(x: Ctx, p: int, insn: Instruction)
    requires
        held(x.src),
        0 <= p < x.src.len(),
        target_of(insn) is Some,
        !(insn is With),
        shape_at(x, p, next(p + 1, x.src.ps) + 4, insn),
    ensures
        stands(x, p, decode::branch_payload(x, Rd::start(p + 1), insn)),
{
    let c = Rd::start(p + 1);
    let got = decode::branch_payload(x, c, insn);
    if got.1.err is None {
        lemma_aligned(x.src, c);
    }
}

/// Instructions that take numbers right behind the opcode.
proof fn lemma_near(x: Ctx, p: int)
    requires
        held(x.src),
        0 <= p < x.src.len(),
        ({
            let op = x.src.data[p];
            op == 0 || op == 0x77 || 0xAE <= op <= 0xB7 || op == 0xA2 || op == 0xA3 || op == 0xB9
                || (op < 0x77 && decode::simple(op))
        }),
    ensures
        stands(x, p, decode::flat_insn(x, x.src.data[p], p, Rd::start(p + 1))),
{
    reveal(decode::flat_insn);
    reveal(shape_at);
}

/// Instructions that take a number or texts at the next multiple of a pointer's width.
proof fn lemma_far(x: Ctx, p: int)
    requires
        held(x.src),
        0 <= p < x.src.len(),
        ({
            let op = x.src.data[p];
            op == 0x81 || op == 0x83 || op == 0x87 || op == 0x8B || op == 0x8C || op == 0x9F
                || op == 0xA1 || 0xA4 <= op <= 0xA7
        }),
    ensures
        stands(x, p, decode::flat_insn(x, x.src.data[p], p, Rd::start(p + 1))),
{
    reveal(decode::flat_insn);
    let c = Rd::start(p + 1);
    let op = x.src.data[p];
    let got = decode::flat_insn(x, op, p, c);
    let q = next(p + 1, x.src.ps);
    if got.1.err is None {
        read_align(x.src, c);
        lemma_fit(p + 1, x.src.ps);
        lemma_fits(q, x.src.ps as int, x.src.ps);
        lemma_nonzero(word(x.src.data, q));
        reveal(shape_at);
    }
}

/// Instructions without a body.
proof fn lemma_flat(x: Ctx, p: int)
    requires
        held(x.src),
        0 <= p < x.src.len(),
        x.src.data[p] != 0x9B,
        x.src.data[p] != 0x8E,
    ensures
        stands(x, p, decode::flat_insn(x, x.src.data[p], p, Rd::start(p + 1))),
{
    let c = Rd::start(p + 1);
    let op = x.src.data[p];
    let got = decode::flat_insn(x, op, p, c);
    if got.1.err is None {
        if op == 0 || op == 0x77 || 0xAE <= op <= 0xB7 || op == 0xA2 || op == 0xA3 || op == 0xB9
            || (op < 0x77 && decode::simple(op)) {
            lemma_near(x, p);
        } else if op == 0x81 || op == 0x83 || op == 0x87 || op == 0x8B || op == 0x8C || op == 0x9F
            || op == 0xA1 || 0xA4 <= op <= 0xA7 {
            lemma_far(x, p);
        } else if op == 0x8F {
            lemma_try(x, p);
            reveal(decode::flat_insn);
        } else if op == 0x94 {
            lemma_with(x, p);
            reveal(decode::flat_insn);
        } else if op == 0x99 || op == 0x9D || op == 0xB8 {
            reveal(decode::flat_insn);
            let insn = got.0.0;
            assert(shape_at(x, p, next(p + 1, x.src.ps) + 4, insn)) by {
                reveal(shape_at);
            }
            lemma_branch(x, p, insn);
        } else if op == 0x96 || op == 0x88 {
            reveal(decode::flat_insn);
            lemma_items(x, c);
            reveal(shape_at);
        } else {
            reveal(decode::flat_insn);
            reveal(shape_at);
        }
    }
}

/// An error in front of a body's size stays.
proof fn lemma_begun(x: Ctx, c: Rd)
    requires
        held(x.src),
        decode::body_extent(x, c).1.err is None,
    ensures
        c.err is None,
{
}

/// A number behind a slot that is as wide as a pointer.
proof fn lemma_four(src: Src, p: int)
    requires
        held(src),
        0 <= p,
        fits(p, src.ps),
    ensures
        src.align(Rd::start(p), 4) == Rd::start(p),
{
    reveal(next);
}

/// The head of a function with names of parameters.
#[verifier::rlimit(40)]
proof fn lemma_head(x: Ctx, p: int)
    requires
        held(x.src),
        0 <= p < x.src.len(),
        decode::function_head(x, Rd::start(p + 1)).1.err is None,
    ensures
        ({
            let d = x.src.data;
            let ps = x.src.ps;
            let q = next(p + 1, ps);
            let (h, b) = decode::function_head(x, Rd::start(p + 1));
            &&& text_behind(d, q, ps, h.name)
            &&& names_at(
                x,
                count(word(d, q + wide(ps, 1))),
                address(d, q + wide(ps, 2), ps),
                h.params,
            )
            &&& b == Rd::start(q + wide(ps, 6))
            &&& b.pos <= x.src.len()
            &&& h.end == b.pos + count(word(d, q + wide(ps, 3)))
        }),
{
    reveal(decode::function_head);
    let c = Rd::start(p + 1);
    let src = x.src;
    let ps = src.ps;
    let q = next(p + 1, ps);
    let (_, c1) = src.ptr_string(src.align_ptr(c));
    lemma_fit(p + 1, ps);
    lemma_fits(q, ps as int, ps);
    lemma_fits(q, 2 * ps as int, ps);
    lemma_fits(q, 3 * ps as int, ps);
    lemma_fits(q + wide(ps, 1), 4, ps);
    let (n, c2) = src.i32(src.align(c1, 4));
    let (off, c3) = src.ptr(c2);
    let (_, d) = reps(decode::name_step(x), c3.at(off as int), items(n));
    lemma_begun(x, d.at(c3.pos));
    lemma_names(x, c3.at(off as int), items(n));
    lemma_text(src, c);
    lemma_four(src, q + wide(ps, 1));
    assert(c1 == Rd::start(q + wide(ps, 1)));
    assert(c2 == Rd::start(q + wide(ps, 1) + 4));
    assert(c3 == Rd::start(q + wide(ps, 3)));
    lemma_extent(x, d.at(c3.pos));
    lemma_small(word(src.data, q + wide(ps, 1)));
}

/// The head of a function with parameters in registers.
#[verifier::rlimit(40)]
proof fn lemma_head2(x: Ctx, p: int)
    requires
        held(x.src),
        0 <= p < x.src.len(),
        decode::function2_head(x, Rd::start(p + 1)).1.err is None,
    ensures
        ({
            let d = x.src.data;
            let ps = x.src.ps;
            let q = next(p + 1, ps);
            let (h, b) = decode::function2_head(x, Rd::start(p + 1));
            &&& text_behind(d, q, ps, h.name)
            &&& h.register_count == half(d, q + wide(ps, 1) + 4) as i16
            &&& h.flags == half(d, q + wide(ps, 1) + 6) as i16
            &&& params_at(
                x,
                count(word(d, q + wide(ps, 1))),
                address(d, q + 8 + wide(ps, 1), ps),
                h.params,
            )
            &&& b == Rd::start(q + 8 + wide(ps, 5))
            &&& b.pos <= x.src.len()
            &&& h.end == b.pos + count(word(d, q + 8 + wide(ps, 2)))
        }),
{
    reveal(decode::function2_head);
    let c = Rd::start(p + 1);
    let src = x.src;
    let ps = src.ps;
    let q = next(p + 1, ps);
    let (_, c1) = src.ptr_string(src.align_ptr(c));
    lemma_fit(p + 1, ps);
    lemma_fits(q, ps as int, ps);
    lemma_fits(q, 8 + ps as int, ps);
    lemma_fits(q, 8 + 2 * ps as int, ps);
    lemma_fits(q + wide(ps, 1), 8, ps);
    let (n, c2) = src.i32(src.align(c1, 4));
    let (_, c3) = src.i16(c2);
    let (_, c4) = src.i16(c3);
    let (off, c5) = src.ptr(c4);
    let (_, d) = reps(decode::param_step(x), c5.at(off as int), items(n));
    lemma_begun(x, d.at(c5.pos));
    lemma_params(x, c5.at(off as int), items(n));
    lemma_text(src, c);
    lemma_four(src, q + wide(ps, 1));
    assert(c1 == Rd::start(q + wide(ps, 1)));
    assert(c2 == Rd::start(q + wide(ps, 1) + 4));
    assert(c4 == Rd::start(q + wide(ps, 1) + 8));
    assert(c5 == Rd::start(q + 8 + wide(ps, 2)));
    lemma_extent(x, d.at(c5.pos));
    lemma_small(word(src.data, q + wide(ps, 1)));
}

/// One instruction.
proof fn lemma_insn(x: Ctx, p: int)
    requires
        held(x.src),
        0 <= p <= x.src.len(),
    ensures
        stands(x, p, decode::insn(x, Rd::start(p))),
{
    let c = Rd::start(p);
    let got = decode::insn(x, c);
    let d = x.src.u8(c).1;
    if got.1.err is None {
        let op = x.src.data[p];
        if op == 0x9B {
            lemma_head(x, p);
            lemma_fit(p + 1, x.src.ps);
            let (h, b) = decode::function_head(x, d);
            assert(body_at(x, b.pos, h.end, got.0.0->DefineFunction_body));
            reveal(shape_at);
        } else if op == 0x8E {
            lemma_head2(x, p);
            lemma_fit(p + 1, x.src.ps);
            let (h, b) = decode::function2_head(x, d);
            assert(body_at(x, b.pos, h.end, got.0.0->DefineFunction2_body));
            reveal(shape_at);
        } else {
            lemma_flat(x, p);
        }
    }
}

/// Whether instructions stand one behind the other, up to `e`.
spec fn raws_at(x: Ctx, r: Seq<Raw>, e: int) -> bool {
    let b = decode::boundaries(r, e);
    forall|i: int|
        #![trigger r[i]]
        0 <= i < r.len() ==> shape_at(x, b[i] as int, b[i + 1] as int, r[i].insn) && fix_at(
            x,
            b[i] as int,
            b[i + 1] as int,
            r[i].insn,
            r[i].fix,
        )
}

proof fn lemma_raws(x: Ctx, p: int, end: Option<int>)
    requires
        held(x.src),
        parsed::blob(x),
        0 <= p <= x.src.len(),
        decode::raws(x, Rd::start(p), end).1.err is None,
    ensures
        ({
            let (r, d) = decode::raws(x, Rd::start(p), end);
            &&& raws_at(x, r, d.pos)
            &&& p <= d.pos
            &&& end matches Some(e) ==> d.pos >= e
            &&& end is None ==> r.len() > 0 && r.last().insn is End
            &&& end is None ==> forall|i: int|
                0 <= i < r.len() - 1 ==> !((#[trigger] r[i]).insn is End)
        }),
    decreases x.src.len() - p,
{
    let c = Rd::start(p);
    if !(end is Some && p >= end->0) {
        parsed::lemma_inside_insn(x, c);
        lemma_insn(x, p);
        writable::lemma_spaced(x, c, end);
        let ((i, fix), d) = decode::insn(x, c);
        let raw = Raw { start: p as u64, insn: i, fix };
        if i is End && end is None {
            let r = seq![raw];
            let b = decode::boundaries(r, d.pos);
            assert(b[0] == p && b[1] == d.pos);
        } else {
            lemma_raws(x, d.pos, end);
            writable::lemma_spaced(x, d, end);
            let (rest, e) = decode::raws(x, d, end);
            let all = seq![raw] + rest;
            let later = decode::boundaries(rest, e.pos);
            let b = decode::boundaries(all, e.pos);
            assert(b =~= seq![p as u64] + later);
            assert forall|k: int| #![trigger all[k]] 0 <= k < all.len() implies {
                &&& shape_at(x, b[k] as int, b[k + 1] as int, all[k].insn)
                &&& fix_at(x, b[k] as int, b[k + 1] as int, all[k].insn, all[k].fix)
            } by {
                if k > 0 {
                    assert(all[k] == rest[k - 1]);
                } else {
                    assert(b[1] == later[0]);
                }
            }
            assert forall|k: int| end is None && 0 <= k < all.len() - 1 implies !((
            #[trigger] all[k]).insn is End) by {
                if k > 0 {
                    assert(all[k] == rest[k - 1]);
                }
            }
        }
    }
}

/// Offsets that grow are no smaller than their indices.
proof fn lemma_growth(b: Seq<u64>, i: int)
    requires
        decode::increasing(b),
        0 <= i < b.len(),
    ensures
        i <= b[i],
    decreases i,
{
    if i > 0 {
        lemma_growth(b, i - 1);
    }
}

/// An offset among those that grow.
proof fn lemma_place(b: Seq<u64>, t: u64)
    requires
        decode::increasing(b),
        b.contains(t),
    ensures
        0 <= b.index_of(t) < b.len(),
        b[b.index_of(t)] == t,
        b.index_of(t) <= t,
{
    let i = b.index_of(t);
    lemma_growth(b, i);
}

/// Shapes do not depend on where an instruction leads.
proof fn lemma_shape(x: Ctx, p: int, e: int, r: Raw, bounds: Seq<u64>, i: int)
    requires
        shape_at(x, p, e, r.insn),
        fix_at(x, p, e, r.insn, r.fix),
    ensures
        shape_at(x, p, e, decode::resolve_one(r, bounds, i)),
{
    reveal(shape_at);
}

/// One instruction, with the indices that it leads to.
proof fn lemma_links(x: Ctx, b: Seq<u64>, r: Raw, i: int)
    requires
        decode::increasing(b),
        0 <= i < b.len() - 1,
        b[b.len() - 1] <= usize::MAX,
        fix_at(x, b[i] as int, b[i + 1] as int, r.insn, r.fix),
        writable::ordered(r.fix, b[i + 1] as int),
        decode::off_boundary(b, r.fix) is None,
    ensures
        links_at(
            x,
            Seq::new(b.len(), |j: int| b[j] as int),
            i,
            decode::resolve_one(r, b, i),
        ),
{
    reveal(links_at);
    let c = Seq::new(b.len(), |j: int| b[j] as int);
    match r.fix {
        Fix::Nothing => {},
        Fix::Target(t) => {
            lemma_place(b, t);
            let k = b.index_of(t);
            assert(c[k] == t);
        },
        Fix::TryEnds(t, k, f) => {
            lemma_place(b, t);
            lemma_place(b, k);
            lemma_place(b, f);
            let (ti, ki, fi): (int, int, int) = (b.index_of(t), b.index_of(k), b.index_of(f));
            assert(i + 1 <= ti <= ki <= fi);
            assert(c[ti] == t && c[ki] == k && c[fi] == f);
        },
    }
}

/// One instruction of a block that could be resolved.
proof fn lemma_each(x: Ctx, r: Seq<Raw>, d: Rd, stream: int, i: int)
    requires
        raws_at(x, r, d.pos),
        0 <= i < r.len(),
        0 <= d.pos <= usize::MAX,
        ({
            let bounds = decode::boundaries(r, d.pos);
            &&& decode::increasing(bounds)
            &&& writable::ordered(r[i].fix, bounds[i + 1] as int)
            &&& decode::resolve(r, bounds, stream, d, r.len()).1.err is None
        }),
    ensures
        ({
            let bounds = decode::boundaries(r, d.pos);
            let b = Seq::new(bounds.len(), |j: int| bounds[j] as int);
            let v = decode::resolve_one(r[i], bounds, i);
            shape_at(x, b[i], b[i + 1], v) && links_at(x, b, i, v)
        }),
{
    let bounds = decode::boundaries(r, d.pos);
    if decode::off_boundary(bounds, r[i].fix) is Some {
        assert(decode::resolve(r, bounds, stream, d, (i + 1) as nat).1.err is Some);
        decode::lemma_resolve_sticky(r, bounds, stream, d, (i + 1) as nat, r.len());
    }
    lemma_shape(x, bounds[i] as int, bounds[i + 1] as int, r[i], bounds, i);
    lemma_links(x, bounds, r[i], i);
}

/// Resolving does not move.
proof fn lemma_settled(r: Seq<Raw>, bounds: Seq<u64>, stream: int, c: Rd, n: nat)
    requires
        n <= r.len(),
    ensures
        decode::resolve(r, bounds, stream, c, n).1.err is None ==> decode::resolve(
            r,
            bounds,
            stream,
            c,
            n,
        ).1 == c,
    decreases n,
{
    if n > 0 {
        lemma_settled(r, bounds, stream, c, (n - 1) as nat);
    }
}

/// What was read stands in the bytes.
proof fn lemma_standing(x: Ctx, p: int, end: Option<int>, r: Seq<Raw>, d: Rd)
    requires
        held(x.src),
        x.src.len() <= usize::MAX,
        0 <= p <= x.src.len(),
        decode::block(x, Rd::start(p), end).1.err is None,
        decode::raws(x, Rd::start(p), end) == (r, d),
    ensures
        ({
            let bounds = decode::boundaries(r, d.pos);
            let b = Seq::new(bounds.len(), |j: int| bounds[j] as int);
            &&& block_at(x, b, decode::block(x, Rd::start(p), end).0)
            &&& b[0] == p
            &&& b.last() == d.pos
        }),
{
    let c = Rd::start(p);
    lemma_raws(x, p, end);
    writable::lemma_spaced(x, c, end);
    let bounds = decode::boundaries(r, d.pos);
    decode::lemma_resolve(r, bounds, p, d, r.len());
    let v = decode::block(x, c, end).0;
    let b = Seq::new(bounds.len(), |j: int| bounds[j] as int);
    assert forall|i: int| #![trigger v[i]] 0 <= i < v.len() implies {
        shape_at(x, b[i], b[i + 1], v[i]) && links_at(x, b, i, v[i])
    } by {
        assert(v[i] == decode::resolve_one(r[i], bounds, i));
        lemma_each(x, r, d, p, i);
    }
}

/// Instructions that were read stand in the bytes one behind the other, each by its opcode
/// and with what belongs to it, and every branch, `With` and `Try` leads to the
/// instructions that start where its bytes say. A stream ends with its only `End`; a
/// body ends where its size says.
pub proof fn law_block_read(x: Ctx, p: int, end: Option<int>)
    requires
        held(x.src),
        x.src.len() <= usize::MAX,
        0 <= p <= x.src.len(),
        decode::block(x, Rd::start(p), end).1.err is None,
    ensures
        ({
            let (v, d) = decode::block(x, Rd::start(p), end);
            &&& exists|b: Seq<int>| #[trigger] block_at(x, b, v) && b[0] == p && b.last() == d.pos
            &&& end matches Some(e) ==> d.pos >= e
            &&& end is None ==> v.len() > 0 && v.last() is End
            &&& end is None ==> forall|i: int|
                0 <= i < v.len() - 1 ==> !((#[trigger] v[i]) is End)
        }),
{
    let c = Rd::start(p);
    let (r, d) = decode::raws(x, c, end);
    lemma_standing(x, p, end, r, d);
    lemma_raws(x, p, end);
    let bounds = decode::boundaries(r, d.pos);
    decode::lemma_resolve(r, bounds, p, d, r.len());
    lemma_settled(r, bounds, p, d, r.len());
    let (v, e) = decode::block(x, c, end);
    assert forall|i: int| end is None && 0 <= i < v.len() - 1 implies !((
    #[trigger] v[i]) is End) by {
        assert(v[i] == decode::resolve_one(r[i], bounds, i));
        assert(!(r[i].insn is End));
    }
    if end is None {
        assert(v[v.len() - 1] == decode::resolve_one(r[r.len() - 1], bounds, r.len() - 1));
    }
}

/// The bytes of a stream that was written hold its instructions by their opcodes, one
/// behind the other from where it starts, with every distance as its branches lead.
pub proof fn law_stream_written(o: Out, v: Seq<Instruction>)
    requires
        o.ok(),
        storable_stream(v, o.ps()),
        encode::block_err(v) is None,
        ({
            let s = encode::stream(o, v);
            let strings = flush::all_strings(joined(s.img, s.def));
            let blob = flush::flush(joined(s.img, s.def));
            &&& s.consts.len() <= i32::MAX
            &&& flush::first_foreign(strings, strings.len()) is None
            &&& terminable(strings)
            &&& blob.len() <= limit(o.ps())
            &&& blob.len() <= usize::MAX
            &&& blob.len() <= i64::MAX
        }),
    ensures
        ({
            let s = encode::stream(o, v);
            let blob = flush::flush(joined(s.img, s.def)).img.bytes;
            let x = Ctx { src: Src { data: blob, ps: o.ps() }, consts: s.consts };
            exists|b: Seq<int>| #[trigger]
                block_at(x, b, v) && b[0] == o.len() && b.last() == s.len()
        }),
{
    let s = encode::stream(o, v);
    let blob = flush::flush(joined(s.img, s.def)).img.bytes;
    let x = Ctx { src: Src { data: blob, ps: o.ps() }, consts: s.consts };
    laws::law_stream_roundtrip(o, v);
    assert(x.src.ps == 4 || x.src.ps == 8) by {
        reveal(Out::ok);
        reveal(Image::inv);
    }
    law_block_read(x, o.len(), None);
}

} // verus!
