//! A movie that was read can be written.
use super::clean::law_clean_layout;
use super::constfile;
use super::decode::{self, Ctx, Fix, Raw};
use super::encode;
use super::flush;
use super::model::{self, Instruction};
use super::opcode;
use super::parsed::{self, blob, sound};
use super::parsing::{self, Px};
use super::reader::{self, items, reps, Rd, Src};
use super::writing;
use vstd::prelude::*;

verus! {

/// The ends of the blocks of a `Try` that ends at `end`, in order.
pub open spec fn ordered(fix: Fix, end: int) -> bool {
    fix matches Fix::TryEnds(t, k, f) ==> end <= t <= k <= f
}

proof fn lemma_try_ends(x: Ctx, c: Rd)
    requires
        blob(x),
        0 <= c.pos,
        decode::try_payload(x, c).1.err is None,
    ensures
        ordered(decode::try_payload(x, c).0.1, decode::try_payload(x, c).1.pos),
{
    parsed::lemma_inside_try(x, c);
    reveal(decode::try_payload);
}

proof fn lemma_insn_ends(x: Ctx, c: Rd)
    requires
        blob(x),
        0 <= c.pos,
        decode::insn(x, c).1.err is None,
    ensures
        ordered(decode::insn(x, c).0.1, decode::insn(x, c).1.pos),
{
    let (op, d) = x.src.u8(c);
    if op != opcode::DEFINE_FUNCTION && op != opcode::DEFINE_FUNCTION2 {
        if op == opcode::TRY {
            assert(decode::flat_insn(x, op, c.pos, d) == decode::try_payload(x, d)) by {
                reveal(decode::flat_insn);
            }
            lemma_try_ends(x, d);
        } else {
            reveal(decode::flat_insn);
        }
    }
}

/// Instructions follow one another, and the blocks of each `Try` follow it.
pub proof fn lemma_spaced(x: Ctx, c: Rd, end: Option<int>)
    requires
        blob(x),
        0 <= c.pos <= x.src.len(),
        decode::raws(x, c, end).1.err is None,
    ensures
        ({
            let (r, d) = decode::raws(x, c, end);
            let b = decode::boundaries(r, d.pos);
            &&& b[0] == c.pos
            &&& decode::increasing(b)
            &&& forall|i: int| 0 <= i < r.len() ==> ordered((#[trigger] r[i]).fix, b[i + 1] as int)
            &&& d.pos <= x.src.len()
        }),
    decreases x.src.len() - c.pos,
{
    if !(c.err is Some || (end is Some && c.pos >= end->0)) {
        parsed::lemma_inside_insn(x, c);
        let ((i, fix), d) = decode::insn(x, c);
        let raw = Raw { start: c.pos as u64, insn: i, fix };
        if d.err is None {
            lemma_insn_ends(x, c);
            if !(i is End && end is None) {
                lemma_spaced(x, d, end);
                let (rest, e) = decode::raws(x, d, end);
                let all = seq![raw] + rest;
                let later = decode::boundaries(rest, e.pos);
                let b = decode::boundaries(all, e.pos);
                assert(b =~= seq![c.pos as u64] + later);
                assert forall|i: int| 0 <= i < all.len() implies ordered(
                    (#[trigger] all[i]).fix,
                    b[i + 1] as int,
                ) by {
                    if i > 0 {
                        assert(all[i] == rest[i - 1]);
                    }
                }
            }
        }
    }
}

/// An instruction whose targets are not known yet.
pub open spec fn unset(insn: Instruction) -> bool {
    decode::with_counts(decode::with_target(insn, 0), 0, 0, 0) == insn
}

/// What an instruction that was read holds can be written.
proof fn lemma_insn(x: Ctx, c: Rd)
    requires
        blob(x),
        0 <= c.pos,
        decode::insn(x, c).1.err is None,
    ensures
        encode::insn_err(decode::insn(x, c).0.0) is None,
        unset(decode::insn(x, c).0.0),
    decreases x.src.len() - c.pos, 0int,
{
    let (op, d) = x.src.u8(c);
    if op == opcode::DEFINE_FUNCTION {
        let (h, b) = decode::function_head(x, d);
        if b.err is None && c.pos < b.pos <= x.src.len() {
            lemma_block(x, b, Some(h.end));
        }
    } else if op == opcode::DEFINE_FUNCTION2 {
        let (h, b) = decode::function2_head(x, d);
        if b.err is None && c.pos < b.pos <= x.src.len() {
            lemma_block(x, b, Some(h.end));
        }
    } else {
        reveal(decode::flat_insn);
        reveal(decode::try_payload);
    }
}

proof fn lemma_raws(x: Ctx, c: Rd, end: Option<int>)
    requires
        blob(x),
        0 <= c.pos,
    ensures
        forall|i: int|
            0 <= i < decode::raws(x, c, end).0.len() ==> encode::insn_err(
                (#[trigger] decode::raws(x, c, end).0[i]).insn,
            ) is None && unset(decode::raws(x, c, end).0[i].insn),
    decreases x.src.len() - c.pos, 1int,
{
    if !(c.err is Some || (end is Some && c.pos >= end->0)) {
        let ((i, fix), d) = decode::insn(x, c);
        if d.err is None && c.pos < d.pos <= x.src.len() {
            lemma_insn(x, c);
            if !(i is End && end is None) {
                lemma_raws(x, d, end);
                let raw = Raw { start: c.pos as u64, insn: i, fix };
                let rest = decode::raws(x, d, end).0;
                let all = seq![raw] + rest;
                assert forall|j: int| 0 <= j < all.len() implies encode::insn_err(
                    (#[trigger] all[j]).insn,
                ) is None && unset(all[j].insn) by {
                    if j > 0 {
                        assert(all[j] == rest[j - 1]);
                    }
                }
            }
        }
    }
}

/// Where a boundary stands.
proof fn lemma_index(b: Seq<u64>, t: u64)
    requires
        b.contains(t),
    ensures
        0 <= b.index_of(t) < b.len(),
        b[b.index_of(t)] == t,
{
}

/// The targets of an instruction exist once they are found among the boundaries.
proof fn lemma_target(r: Seq<Raw>, b: Seq<u64>, i: int)
    requires
        0 <= i < r.len(),
        b.len() == r.len() + 1,
        r.len() <= usize::MAX,
        decode::increasing(b),
        ordered(r[i].fix, b[i + 1] as int),
        decode::off_boundary(b, r[i].fix) is None,
        unset(r[i].insn),
    ensures
        encode::target_err(decode::resolve_one(r[i], b, i), i, r.len()) is None,
{
    match r[i].fix {
        Fix::Nothing => {},
        Fix::Target(t) => {
            lemma_index(b, t);
        },
        Fix::TryEnds(t, k, f) => {
            lemma_index(b, t);
            lemma_index(b, k);
            lemma_index(b, f);
            let (p, q, s) = (b.index_of(t), b.index_of(k), b.index_of(f));
            assert(i + 1 <= p) by {
                if p < i + 1 {
                    assert(b[p] < b[i + 1]);
                }
            }
            assert(p <= q) by {
                if q < p {
                    assert(b[q] < b[p]);
                }
            }
            assert(q <= s) by {
                if s < q {
                    assert(b[s] < b[q]);
                }
            }
        },
    }
}

proof fn lemma_bodies(v: Seq<Instruction>, n: nat)
    requires
        n <= v.len(),
        forall|i: int| 0 <= i < v.len() ==> encode::insn_err(#[trigger] v[i]) is None,
    ensures
        encode::bodies_err(v, n) is None,
    decreases n,
{
    if n > 0 {
        lemma_bodies(v, (n - 1) as nat);
    }
}

proof fn lemma_targets(v: Seq<Instruction>, n: nat)
    requires
        n <= v.len(),
        forall|i: int| 0 <= i < v.len() ==> encode::target_err(#[trigger] v[i], i, v.len()) is None,
    ensures
        encode::targets_err(v, n) is None,
    decreases n,
{
    if n > 0 {
        lemma_targets(v, (n - 1) as nat);
    }
}

/// A block that was read can be written.
pub proof fn lemma_block(x: Ctx, c: Rd, end: Option<int>)
    requires
        blob(x),
        0 <= c.pos <= x.src.len(),
        decode::block(x, c, end).1.err is None,
    ensures
        encode::block_err(decode::block(x, c, end).0) is None,
    decreases x.src.len() - c.pos, 2int,
{
    lemma_raws(x, c, end);
    let (r, d) = decode::raws(x, c, end);
    lemma_spaced(x, c, end);
    parsed::lemma_raws(x, c, end);
    let b = decode::boundaries(r, d.pos);
    decode::lemma_resolve(r, b, c.pos, d, r.len());
    let v = decode::resolve(r, b, c.pos, d, r.len()).0;
    assert forall|i: int| 0 <= i < v.len() implies encode::target_err(#[trigger] v[i], i, v.len())
        is None && encode::insn_err(v[i]) is None by {
        assert(v[i] == decode::resolve_one(r[i], b, i));
        assert(decode::off_boundary(b, r[i].fix) is None) by {
            if decode::off_boundary(b, r[i].fix) is Some {
                decode::lemma_resolve_sticky(r, b, c.pos, d, (i + 1) as nat, r.len());
            }
        }
        assert(unset(r[i].insn) && encode::insn_err(r[i].insn) is None);
        assert(ordered(r[i].fix, b[i + 1] as int));
        lemma_target(r, b, i);
    }
    lemma_bodies(v, v.len());
    lemma_targets(v, v.len());
}

/// A stream that was read can be written.
proof fn lemma_stream(x: Ctx, c: Rd, off: u64)
    requires
        sound(x),
        decode::stream(x, c, off).1.err is None,
    ensures
        c.err is None,
        encode::block_err(decode::stream(x, c, off).0) is None,
{
    if off != 0 {
        let start = c.at(off as int);
        if off > x.src.len() {
            assert(x.src.u8(start).1.err is Some);
            assert(decode::insn(x, start).1.err is Some);
            assert(decode::raws(x, start, None).1.err is Some);
        }
        lemma_block(x, start, None);
    } else {
        assert(encode::block_err(Seq::empty()) is None);
    }
}

/// What holds of one reading that met no error holds of each in a row.
proof fn lemma_reps<T>(step: spec_fn(Rd) -> (T, Rd), c: Rd, n: nat, p: spec_fn(T) -> bool)
    requires
        forall|d: Rd| (#[trigger] step(d)).1.err is None ==> d.err is None && p(step(d).0),
        reps(step, c, n).1.err is None,
    ensures
        c.err is None,
        forall|i: int| 0 <= i < reps(step, c, n).0.len() ==> p(#[trigger] reps(step, c, n).0[i]),
    decreases n,
{
    if n > 0 {
        lemma_reps(step, c, (n - 1) as nat, p);
    }
}

/// A filter that was read can be written.
proof fn lemma_filter(src: Src, c: Rd)
    requires
        parsing::filter(src, c).1.err is None,
    ensures
        c.err is None,
        writing::filter_err(parsing::filter(src, c).0) is None,
{
    reveal(parsing::filter);
    let (id, c) = src.u32(c);
    if id == 4 || id == 7 {
        let (n, c) = src.u32(c);
        let (colors_off, c) = src.ptr(c);
        let (ratios_off, c) = src.ptr(c);
        let (_, c) = src.u32(c);
        let (_, c) = src.u32(c);
        let (_, c) = src.u32(c);
        let (_, c) = src.u32(c);
        let (_, c) = src.u16(c);
        let (_, c) = src.u16(c);
        let a = c.at(colors_off as int);
        let b = reps(parsing::u32_step(src), a, n as nat).1.at(ratios_off as int);
        assert(b.err is None);
        assert(a.err is None);
        reader::lemma_reps_len(parsing::u32_step(src), a, n as nat);
        reader::lemma_reps_len(parsing::u8_step(src), b, n as nat);
    }
}

proof fn lemma_filters(v: Seq<model::Filter>, n: nat)
    requires
        n <= v.len(),
        forall|i: int| 0 <= i < v.len() ==> writing::filter_err(#[trigger] v[i]) is None,
    ensures
        writing::filters_err(v, n) is None,
    decreases n,
{
    if n > 0 {
        lemma_filters(v, (n - 1) as nat);
    }
}

proof fn lemma_filter_row(src: Src, c: Rd, n: u32)
    requires
        reps(parsing::filter_step(src), c, n as nat).1.err is None,
    ensures
        c.err is None,
        ({
            let v = reps(parsing::filter_step(src), c, n as nat).0;
            writing::filters_err(v, v.len()) is None
        }),
{
    let p = |f: model::Filter| writing::filter_err(f) is None;
    let step = parsing::filter_step(src);
    assert forall|d: Rd| (#[trigger] step(d)).1.err is None implies d.err is None && p(
        step(d).0,
    ) by {
        let (off, c) = src.ptr(d);
        lemma_filter(src, c.at(off as int));
    }
    lemma_reps(step, c, n as nat, p);
    let v = reps(step, c, n as nat).0;
    assert forall|i: int| 0 <= i < v.len() implies writing::filter_err(#[trigger] v[i]) is None by {
        assert(p(v[i]));
    }
    lemma_filters(v, v.len());
}

proof fn lemma_events(v: Seq<model::EventAction>, n: nat)
    requires
        n <= v.len(),
        forall|i: int| 0 <= i < v.len() ==> encode::block_err((#[trigger] v[i]).actions) is None,
    ensures
        writing::events_err(v, n) is None,
    decreases n,
{
    if n > 0 {
        lemma_events(v, (n - 1) as nat);
    }
}

proof fn lemma_event_row(x: Ctx, c: Rd, n: i32)
    requires
        sound(x),
        reps(parsing::event_step(x), c, items(n)).1.err is None,
    ensures
        c.err is None,
        ({
            let v = reps(parsing::event_step(x), c, items(n)).0;
            writing::events_err(v, v.len()) is None
        }),
{
    let p = |e: model::EventAction| encode::block_err(e.actions) is None;
    let step = parsing::event_step(x);
    assert forall|d: Rd| (#[trigger] step(d)).1.err is None implies d.err is None && p(
        step(d).0,
    ) by {
        let (_, c) = x.src.i32(x.src.align_ptr(d));
        let (_, c) = x.src.i32(c);
        let (off, c) = x.src.ptr(c);
        lemma_stream(x, c, off);
    }
    lemma_reps(step, c, items(n), p);
    let v = reps(step, c, items(n)).0;
    assert forall|i: int| 0 <= i < v.len() implies encode::block_err((#[trigger] v[i]).actions)
        is None by {
        assert(p(v[i]));
    }
    lemma_events(v, v.len());
}

/// A placement that was read can be written.
proof fn lemma_place(x: Ctx, c: Rd, extended: bool)
    requires
        sound(x),
        parsing::place_object(x, c, extended).1.err is None,
    ensures
        c.err is None,
        writing::place_err(parsing::place_object(x, c, extended).0) is None,
{
    reveal(parsing::place_object);
    let (h, c1) = parsing::place_head(x.src, c);
    let c2 = parsing::clip_actions(x, c1, h.flags, h.actions).1;
    let c3 = parsing::place_extra(x.src, c2, extended).1;
    assert(c3.err is None);
    if extended {
        let (mode, d) = x.src.i32(c2);
        let (n, d) = x.src.u32(d);
        let (off, d) = x.src.ptr(d);
        lemma_filter_row(x.src, d.at(off as int), n);
    }
    assert(c2.err is None);
    if h.flags & 0x80 != 0 && h.actions != 0 {
        let (n, d) = x.src.i32(c1.at(h.actions as int));
        let (blocks_off, d) = x.src.ptr(d);
        lemma_event_row(x, d.at(blocks_off as int), n);
    }
    assert(c1.err is None);
    assert(c.err is None) by {
        reveal(parsing::place_head);
    }
}

/// A control that was read can be written.
proof fn lemma_control(x: Ctx, c: Rd)
    requires
        sound(x),
        parsing::control(x, c).1.err is None,
    ensures
        c.err is None,
        writing::control_err(parsing::control(x, c).0) is None,
{
    reveal(parsing::control);
    let src = x.src;
    let (t, c) = src.i32(c);
    let c = src.align_ptr(c);
    if t == 1 {
        let (off, c) = src.ptr(c);
        lemma_stream(x, c, off);
    } else if t == 3 || t == 9 {
        lemma_place(x, c, t == 9);
    } else if t == 8 {
        let (_, c) = src.i32(c);
        let (off, c) = src.ptr(c);
        lemma_stream(x, c, off);
    }
}

proof fn lemma_controls(v: Seq<model::Control>, n: nat)
    requires
        n <= v.len(),
        forall|i: int| 0 <= i < v.len() ==> writing::control_err(#[trigger] v[i]) is None,
    ensures
        writing::controls_err(v, n) is None,
    decreases n,
{
    if n > 0 {
        lemma_controls(v, (n - 1) as nat);
    }
}

/// The controls of a frame that was read can be written.
proof fn lemma_frame(x: Ctx, c: Rd)
    requires
        sound(x),
        parsing::frame(x, c).1.err is None,
    ensures
        c.err is None,
        ({
            let v = parsing::frame(x, c).0.controls;
            writing::controls_err(v, v.len()) is None
        }),
{
    let (n, c1) = x.src.i32(x.src.align_ptr(c));
    let (off, c2) = x.src.ptr(c1);
    let p = |k: model::Control| writing::control_err(k) is None;
    let step = parsing::control_step(x);
    assert forall|d: Rd| (#[trigger] step(d)).1.err is None implies d.err is None && p(
        step(d).0,
    ) by {
        let (off, c) = x.src.ptr(d);
        lemma_control(x, c.at(off as int));
    }
    lemma_reps(step, c2.at(off as int), items(n), p);
    let v = reps(step, c2.at(off as int), items(n)).0;
    assert forall|i: int| 0 <= i < v.len() implies writing::control_err(#[trigger] v[i]) is None by {
        assert(p(v[i]));
    }
    lemma_controls(v, v.len());
}

proof fn lemma_frame_list(v: Seq<model::Frame>, n: nat)
    requires
        n <= v.len(),
        forall|i: int|
            0 <= i < v.len() ==> writing::controls_err(
                (#[trigger] v[i]).controls,
                v[i].controls.len(),
            ) is None,
    ensures
        writing::frames_err(v, n) is None,
    decreases n,
{
    if n > 0 {
        lemma_frame_list(v, (n - 1) as nat);
    }
}

/// Frames that were read can be written.
proof fn lemma_frames(x: Ctx, c: Rd, off: u64, n: i32)
    requires
        sound(x),
        parsing::frames(x, c, off, n).1.err is None,
    ensures
        c.err is None,
        ({
            let v = parsing::frames(x, c, off, n).0;
            writing::frames_err(v, v.len()) is None
        }),
{
    let p = |f: model::Frame| writing::controls_err(f.controls, f.controls.len()) is None;
    let step = parsing::frame_step(x);
    assert forall|d: Rd| (#[trigger] step(d)).1.err is None implies d.err is None && p(
        step(d).0,
    ) by {
        lemma_frame(x, d);
    }
    lemma_reps(step, c.at(off as int), items(n), p);
    let v = reps(step, c.at(off as int), items(n)).0;
    assert forall|i: int| 0 <= i < v.len() implies writing::controls_err(
        (#[trigger] v[i]).controls,
        v[i].controls.len(),
    ) is None by {
        assert(p(v[i]));
    }
    lemma_frame_list(v, v.len());
}

proof fn lemma_actions(v: Seq<model::ButtonAction>, n: nat)
    requires
        n <= v.len(),
        forall|i: int| 0 <= i < v.len() ==> encode::block_err((#[trigger] v[i]).actions) is None,
    ensures
        writing::actions_err(v, n) is None,
    decreases n,
{
    if n > 0 {
        lemma_actions(v, (n - 1) as nat);
    }
}

proof fn lemma_action_row(x: Ctx, c: Rd, n: i32)
    requires
        sound(x),
        reps(parsing::action_step(x), c, items(n)).1.err is None,
    ensures
        c.err is None,
        ({
            let v = reps(parsing::action_step(x), c, items(n)).0;
            writing::actions_err(v, v.len()) is None
        }),
{
    let p = |e: model::ButtonAction| encode::block_err(e.actions) is None;
    let step = parsing::action_step(x);
    assert forall|d: Rd| (#[trigger] step(d)).1.err is None implies d.err is None && p(
        step(d).0,
    ) by {
        let (_, c) = x.src.i32(x.src.align_ptr(d));
        let (off, c) = x.src.ptr(c);
        lemma_stream(x, c, off);
    }
    lemma_reps(step, c, items(n), p);
    let v = reps(step, c, items(n)).0;
    assert forall|i: int| 0 <= i < v.len() implies encode::block_err((#[trigger] v[i]).actions)
        is None by {
        assert(p(v[i]));
    }
    lemma_actions(v, v.len());
}

/// The streams of a button that was read can be written.
proof fn lemma_button(x: Ctx, c: Rd)
    requires
        sound(x),
        parsing::button(x, c).1.err is None,
    ensures
        ({
            let v = parsing::button(x, c).0.actions;
            writing::actions_err(v, v.len()) is None
        }),
{
    reveal(parsing::button);
    let src = x.src;
    let (_, c) = src.i32(c);
    let (_, c) = parsing::rect(src, c);
    let (n_triangles, c) = src.i32(c);
    let (n_vertices, c) = src.i32(c);
    let (vertices_off, c) = src.ptr(c);
    let (indices_off, c) = src.ptr(c);
    let (n_records, c) = src.i32(c);
    let (records_off, c) = src.ptr(c);
    let (n_conditions, c) = src.i32(c);
    let (conditions_off, c) = src.ptr(c);
    let (sound_off, c) = src.ptr(c);
    let c0 = c.at(vertices_off as int);
    let c1 = reps(parsing::vertex_step(src), c0, items(n_vertices)).1.at(indices_off as int);
    let c2 = reps(parsing::triangle_step(src), c1, items(n_triangles)).1.at(records_off as int);
    let c3 = reps(parsing::record_step(src), c2, items(n_records)).1.at(conditions_off as int);
    let d = reps(parsing::action_step(x), c3, items(n_conditions)).1;
    assert(parsing::button_sounds(src, d, sound_off).1.err is None);
    assert(d.err is None);
    lemma_action_row(x, c3, n_conditions);
}

/// A character that was read can be written.
proof fn lemma_character(p: Px, c: Rd)
    requires
        sound(p.x),
        parsing::character(p, c).1.err is None,
    ensures
        c.err is None,
        writing::character_err(parsing::character(p, c).0) is None,
{
    reveal(parsing::character);
    let src = p.x.src;
    let ((t, data), d) = parsing::char_header(p, c);
    if d.err is None {
        if t == 4 {
            lemma_button(p.x, d);
        } else if t == 5 {
            let (n, d) = src.i32(d);
            let (off, d) = src.ptr(d);
            let d = src.ptr(d).1;
            lemma_frames(p.x, d, off, n);
        }
    }
}

/// Character slots that were read can be written.
proof fn lemma_slots(p: Px, root: u64, c: Rd, n: nat)
    requires
        sound(p.x),
        parsing::char_slots(p, root, c, n).1.err is None,
    ensures
        c.err is None,
        ({
            let v = parsing::char_slots(p, root, c, n).0;
            v.len() == n && writing::slots_err(v, n) is None
        }),
    decreases n,
{
    if n > 0 {
        let m = (n - 1) as nat;
        let d = parsing::char_slots(p, root, c, m).1;
        let (off, e) = p.x.src.ptr(d);
        if e.err is None && off != 0 && m != 0 && off != root {
            lemma_character(p, e.at(off as int));
        }
        assert(d.err is None);
        lemma_slots(p, root, c, m);
        let (w, v) = (
            parsing::char_slots(p, root, c, m).0,
            parsing::char_slots(p, root, c, n).0,
        );
        lemma_slots_prefix(w, v, m);
    }
}

proof fn lemma_slots_prefix(w: Seq<model::CharacterSlot>, v: Seq<model::CharacterSlot>, n: nat)
    requires
        n <= w.len() <= v.len(),
        forall|i: int| 0 <= i < n ==> #[trigger] w[i] == v[i],
    ensures
        writing::slots_err(w, n) == writing::slots_err(v, n),
    decreases n,
{
    if n > 0 {
        lemma_slots_prefix(w, v, (n - 1) as nat);
        assert(w[n - 1] == v[n - 1]);
    }
}

proof fn lemma_import_row(src: Src, c: Rd, n: nat)
    requires
        reps(parsing::import_step(src), c, n).1.err is None,
    ensures
        c.err is None,
{
    let p = |x: model::Import| true;
    lemma_reps(parsing::import_step(src), c, n, p);
}

proof fn lemma_export_row(src: Src, c: Rd, n: nat)
    requires
        reps(parsing::export_step(src), c, n).1.err is None,
    ensures
        c.err is None,
{
    let p = |x: model::Export| true;
    lemma_reps(parsing::export_step(src), c, n, p);
}

/// A movie that was read can be written.
proof fn lemma_movie(p: Px, off: u64)
    requires
        sound(p.x),
        parsing::root(p, off).1.err is None,
    ensures
        writing::movie_err(parsing::root(p, off).0) is None,
{
    reveal(parsing::root);
    let src = p.x.src;
    let (h, c0) = parsing::root_head(p, Rd::start(off as int));
    let c1 = parsing::frames(p.x, c0, h.frames, h.n_frames).1.at(h.characters as int);
    let c2 = parsing::char_slots(p, off, c1, items(h.n_characters)).1.at(h.imports as int);
    let c3 = reps(parsing::import_step(src), c2, items(h.n_imports)).1.at(h.exports as int);
    lemma_export_row(src, c3, items(h.n_exports));
    lemma_import_row(src, c2, items(h.n_imports));
    lemma_slots(p, off, c1, items(h.n_characters));
    lemma_frames(p.x, c0, h.frames, h.n_frames);
}

pub proof fn lemma_no_foreign(v: Seq<(int, Seq<char>)>, n: nat)
    requires
        n <= v.len(),
        super::settle::all_clean(v),
    ensures
        flush::first_foreign(v, n) is None,
    decreases n,
{
    if n > 0 {
        lemma_no_foreign(v, (n - 1) as nat);
        assert(super::readback::clean(v[n - 1].1));
    }
}

/// A movie that was read can be written, with any layout.
pub proof fn law_read_movies_write(
    apt: Seq<u8>,
    consts: Seq<u8>,
    f: model::AptFile,
    ps: nat,
    decoupled: bool,
    tag: Seq<u8>,
)
    requires
        apt.len() <= usize::MAX,
        parsing::apt_file(apt, consts) == Ok::<model::AptFile, model::Error>(f),
    ensures
        writing::file_err(f, ps, decoupled, tag) is None,
{
    let h = parsing::header(apt)->Ok_0;
    let src = Src { data: consts, ps: h.ptr_size.width() };
    let (k, c) = constfile::read_const(src);
    parsed::lemma_constants(src);
    let p = Px {
        x: Ctx { src: Src { data: apt, ps: h.ptr_size.width() }, consts: k.constants },
        decoupled: h.decoupled,
    };
    lemma_movie(p, k.main_character_offset);
    parsed::law_read_movies(apt, consts, f, ps);
    law_clean_layout(f, ps, decoupled, tag);
    let a = flush::all_strings(writing::layout(f.movie, ps, decoupled, tag));
    lemma_no_foreign(a, a.len());
    let q = writing::const_part(f, ps, decoupled, tag);
    let b = flush::all_strings(constfile::const_layout(q, ps));
    lemma_no_foreign(b, b.len());
}

} // verus!
