//! What was read stands in the bytes, and so does what was written.
use super::constfile;
use super::decode::{self, Ctx};
use super::file_format::{
    address, bit, body_of, button_action_at, button_at, button_record_at, character_at,
    constant_at, constants_at, control_at, count, cxform_at, edit_text_at, event_at, events_at,
    export_at, filter_at, filters_at, fits, font_at, frame_at, frames_at, group_words, half, held,
    import_at, lemma_fit, lemma_fits, lemma_row, lemma_strides, matrix_at, movie_at, next,
    place_at, read_align, rect_at, run_at, slot_at, static_text_at, stream_at, triangle_at, wide,
    word,
};
use super::laws;
use super::model;
use super::parsing::{self, Px};
use super::readback_movie;
use super::reader::{items, reps, Rd, Src};
use super::types::GlyphEntry;
use super::writing;
use vstd::prelude::*;

verus! {

broadcast use group_words;

proof fn lemma_rect(src: Src, c: Rd)
    requires
        parsing::rect(src, c).1.err is None,
    ensures
        c.err is None,
        rect_at(src.data, c.pos, parsing::rect(src, c).0),
        parsing::rect(src, c).1 == Rd::start(c.pos + 16),
{
}

proof fn lemma_matrix(src: Src, c: Rd)
    requires
        parsing::matrix(src, c).1.err is None,
    ensures
        c.err is None,
        matrix_at(src.data, c.pos, parsing::matrix(src, c).0),
        parsing::matrix(src, c).1 == Rd::start(c.pos + 24),
{
}

proof fn lemma_cxform(src: Src, c: Rd)
    requires
        parsing::float_cxform(src, c).1.err is None,
    ensures
        c.err is None,
        cxform_at(src.data, c.pos, parsing::float_cxform(src, c).0),
        parsing::float_cxform(src, c).1 == Rd::start(c.pos + 32),
{
}

/// A step of `n` words.
proof fn lemma_words(src: Src, c: Rd, n: nat)
    requires
        reps(parsing::u32_step(src), c, n).1.err is None,
    ensures
        c.err is None,
        reps(parsing::u32_step(src), c, n).0.len() == n,
        forall|i: int|
            0 <= i < n ==> #[trigger] reps(parsing::u32_step(src), c, n).0[i] == word(
                src.data,
                c.pos + 4 * i,
            ),
{
    lemma_strides(4);
    let place = |i: int| c.pos + 4 * i;
    let good = |p: int, v: u32| v == word(src.data, p);
    lemma_row(parsing::u32_step(src), c, n, 1, 4, 4, place, good);
    let v = reps(parsing::u32_step(src), c, n).0;
    assert forall|i: int| 0 <= i < n implies #[trigger] v[i] == word(src.data, c.pos + 4 * i) by {
        assert(good(place(i), v[i]));
    }
}

proof fn lemma_octets(src: Src, c: Rd, n: nat)
    requires
        reps(parsing::u8_step(src), c, n).1.err is None,
    ensures
        c.err is None,
        reps(parsing::u8_step(src), c, n).0.len() == n,
        forall|i: int|
            0 <= i < n ==> #[trigger] reps(parsing::u8_step(src), c, n).0[i] == src.data[c.pos + i],
{
    lemma_strides(4);
    let place = |i: int| c.pos + i;
    let good = |p: int, v: u8| v == src.data[p];
    lemma_row(parsing::u8_step(src), c, n, 1, 1, 1, place, good);
    let v = reps(parsing::u8_step(src), c, n).0;
    assert forall|i: int| 0 <= i < n implies #[trigger] v[i] == src.data[c.pos + i] by {
        assert(good(place(i), v[i]));
    }
}

proof fn lemma_gradient(src: Src, c: Rd, is_bevel: bool)
    requires
        held(src),
        parsing::gradient(src, c.at(c.pos + 4), is_bevel).1.err is None,
        word(src.data, c.pos) == if is_bevel {
            7u32
        } else {
            4u32
        },
    ensures
        filter_at(src.data, src.ps, c.pos, parsing::gradient(src, c.at(c.pos + 4), is_bevel).0),
{
    reveal(filter_at);
    lemma_fit(c.pos + 8, src.ps);
    lemma_fits(next(c.pos + 8, src.ps), 0, src.ps);
    let (n, c1) = src.u32(c.at(c.pos + 4));
    let (colors_off, c2) = src.ptr(c1);
    let (ratios_off, c3) = src.ptr(c2);
    let (blur_x, c4) = src.u32(c3);
    let (blur_y, c5) = src.u32(c4);
    let (angle, c6) = src.u32(c5);
    let (distance, c7) = src.u32(c6);
    let (strength, c8) = src.u16(c7);
    let (flags, c9) = src.u16(c8);
    let (colors, d1) = reps(parsing::u32_step(src), c9.at(colors_off as int), n as nat);
    let (ratios, d2) = reps(parsing::u8_step(src), d1.at(ratios_off as int), n as nat);
    lemma_octets(src, d1.at(ratios_off as int), n as nat);
    lemma_words(src, c9.at(colors_off as int), n as nat);
}

#[verifier::rlimit(100)]
#[verifier::spinoff_prover]
proof fn lemma_filter(src: Src, c: Rd)
    requires
        held(src),
        parsing::filter(src, c).1.err is None,
    ensures
        c.err is None,
        filter_at(src.data, src.ps, c.pos, parsing::filter(src, c).0),
{
    reveal(parsing::filter);
    let (id, e) = src.u32(c);
    if id == 4 {
        lemma_gradient(src, c, false);
    } else if id == 7 {
        lemma_gradient(src, c, true);
    } else if id == 6 {
        lemma_words(src, e, 20);
        reveal(filter_at);
    } else {
        reveal(filter_at);
    }
}

/// Pointers to filters.
proof fn lemma_filters(src: Src, c: Rd, n: nat)
    requires
        held(src),
        reps(parsing::filter_step(src), c, n).1.err is None,
    ensures
        c.err is None,
        reps(parsing::filter_step(src), c, n).0.len() == n,
        filters_at(src.data, src.ps, c.pos, reps(parsing::filter_step(src), c, n).0),
{
    let ps = src.ps;
    let step = parsing::filter_step(src);
    let place = |i: int| next(c.pos, ps) + wide(ps, i);
    let good = |p: int, f: model::Filter|
        filter_at(src.data, ps, address(src.data, p, ps) as int, f);
    assert forall|d: Rd| (#[trigger] step(d)).1.err is None implies {
        &&& d.err is None
        &&& step(d).1.pos == next(d.pos, ps) + ps
        &&& good(next(d.pos, ps), step(d).0)
    } by {
        let (off, e) = src.ptr(d);
        lemma_filter(src, e.at(off as int));
    }
    lemma_strides(ps);
    lemma_row(step, c, n, ps, ps as int, ps as int, place, good);
    let v = reps(step, c, n).0;
    assert forall|i: int| 0 <= i < v.len() implies filter_at(
        src.data,
        ps,
        address(src.data, next(c.pos, ps) + wide(ps, i), ps) as int,
        #[trigger] v[i],
    ) by {
        assert(good(place(i), v[i]));
    }
}

proof fn lemma_stream(x: Ctx, c: Rd, off: u64)
    requires
        decode::stream(x, c, off).1.err is None,
    ensures
        c.err is None,
        stream_at(x, off, decode::stream(x, c, off).0),
        decode::stream(x, c, off).1 == c,
{
}

/// A set of clip event handlers.
proof fn lemma_events(x: Ctx, c: Rd, p: int, n: i32, blocks: u64)
    requires
        held(x.src),
        n == word(x.src.data, p) as i32,
        blocks == address(x.src.data, next(p + 4, x.src.ps), x.src.ps),
        c.pos == blocks,
        reps(parsing::event_step(x), c, items(n)).1.err is None,
    ensures
        c.err is None,
        events_at(x, p, reps(parsing::event_step(x), c, items(n)).0),
{
    let ps = x.src.ps;
    let step = parsing::event_step(x);
    let row = next(blocks as int, ps);
    let place = |i: int| row + 8 * i + wide(ps, i);
    let good = |p: int, e: model::EventAction| event_at(x, p, e);
    assert forall|d: Rd| (#[trigger] step(d)).1.err is None implies {
        &&& d.err is None
        &&& step(d).1.pos == next(d.pos, ps) + 8 + ps
        &&& good(next(d.pos, ps), step(d).0)
    } by {
        lemma_event(x, d);
    }
    lemma_strides(ps);
    lemma_row(step, c, items(n), ps, 8 + ps as int, 8 + ps as int, place, good);
    let v = reps(step, c, items(n)).0;
    assert forall|i: int| 0 <= i < v.len() implies event_at(
        x,
        row + 8 * i + wide(ps, i),
        #[trigger] v[i],
    ) by {
        assert(good(place(i), v[i]));
    }
    lemma_count(word(x.src.data, p));
}

/// A number that is aligned before it is read.
proof fn lemma_aligned(src: Src, c: Rd)
    requires
        held(src),
        src.u32(src.align_ptr(c)).1.err is None,
    ensures
        c.err is None,
        src.align_ptr(c) == Rd::start(next(c.pos, src.ps)),
        src.u32(src.align_ptr(c)) == (
            word(src.data, next(c.pos, src.ps)),
            Rd::start(next(c.pos, src.ps) + 4),
        ),
{
    read_align(src, c);
    lemma_fit(c.pos, src.ps);
}

proof fn lemma_count(w: u32)
    ensures
        items(w as i32) == count(w),
{
    assert(w < 0x8000_0000 ==> (w as i32) == w) by (bit_vector);
    assert(w >= 0x8000_0000 ==> (w as i32) < 0) by (bit_vector);
}

proof fn lemma_event(x: Ctx, d: Rd)
    requires
        held(x.src),
        parsing::event_action(x, d).1.err is None,
    ensures
        d.err is None,
        parsing::event_action(x, d).1.pos == next(d.pos, x.src.ps) + 8 + x.src.ps,
        event_at(x, next(d.pos, x.src.ps), parsing::event_action(x, d).0),
{
    let src = x.src;
    let (_, c1) = src.i32(src.align_ptr(d));
    let (_, c2) = src.i32(c1);
    let (off, c3) = src.ptr(c2);
    lemma_stream(x, c3, off);
    lemma_aligned(src, d);
    lemma_fit(d.pos, src.ps);
    lemma_fits(next(d.pos, src.ps), 8, src.ps);
}

proof fn lemma_bits(w: u32)
    ensures
        ((w as i32) & 0x01 != 0) == bit(w, 1),
        ((w as i32) & 0x02 != 0) == bit(w, 2),
        ((w as i32) & 0x04 != 0) == bit(w, 4),
        ((w as i32) & 0x08 != 0) == bit(w, 8),
        ((w as i32) & 0x10 != 0) == bit(w, 16),
        ((w as i32) & 0x20 != 0) == bit(w, 32),
        ((w as i32) & 0x40 != 0) == bit(w, 64),
        ((w as i32) & 0x80 != 0) == bit(w, 128),
{
    assert(((w as i32) & 0x01 != 0) == (w % 2 == 1)) by (bit_vector);
    assert(((w as i32) & 0x02 != 0) == ((w / 2) % 2 == 1)) by (bit_vector);
    assert(((w as i32) & 0x04 != 0) == ((w / 4) % 2 == 1)) by (bit_vector);
    assert(((w as i32) & 0x08 != 0) == ((w / 8) % 2 == 1)) by (bit_vector);
    assert(((w as i32) & 0x10 != 0) == ((w / 16) % 2 == 1)) by (bit_vector);
    assert(((w as i32) & 0x20 != 0) == ((w / 32) % 2 == 1)) by (bit_vector);
    assert(((w as i32) & 0x40 != 0) == ((w / 64) % 2 == 1)) by (bit_vector);
    assert(((w as i32) & 0x80 != 0) == ((w / 128) % 2 == 1)) by (bit_vector);
}

/// The fixed part of a placement.
pub open spec fn head_at(src: Src, p: int, h: parsing::PlaceHead) -> bool {
    let d = src.data;
    let ps = src.ps;
    &&& h.flags == word(d, p) as i32
    &&& h.depth == word(d, p + 4) as i32
    &&& h.character_id == word(d, p + 8) as i32
    &&& matrix_at(d, p + 12, h.matrix)
    &&& h.scale == word(d, p + 36)
    &&& h.bias == word(d, p + 40)
    &&& h.ratio == word(d, p + 44)
    &&& h.name == address(d, p + 48, ps)
    &&& h.clip_depth == word(d, p + 48 + wide(ps, 1)) as i32
    &&& h.actions == address(d, p + 48 + wide(ps, 2), ps)
}

pub proof fn lemma_place_head(src: Src, c: Rd)
    requires
        held(src),
        fits(c.pos, src.ps),
        parsing::place_head(src, c).1.err is None,
    ensures
        c.err is None,
        head_at(src, c.pos, parsing::place_head(src, c).0),
        parsing::place_head(src, c).1 == Rd::start(c.pos + 48 + wide(src.ps, 3)),
{
    reveal(parsing::place_head);
    lemma_fits(c.pos, 48, src.ps);
    lemma_fits(c.pos + 48, 4, src.ps);
    lemma_fits(c.pos + 48 + wide(src.ps, 1), 4, src.ps);
}

proof fn lemma_blend(w: u32)
    ensures
        (w as i32) == -1 <==> w == 0xFFFF_FFFF,
{
    assert((w as i32) == -1i32 <==> w == 0xFFFF_FFFFu32) by (bit_vector);
}

proof fn lemma_extra(src: Src, c: Rd, extended: bool)
    requires
        held(src),
        fits(c.pos, src.ps),
        parsing::place_extra(src, c, extended).1.err is None,
    ensures
        c.err is None,
        ({
            let d = src.data;
            let (mode, filters) = parsing::place_extra(src, c, extended).0;
            if extended {
                &&& mode == if word(d, c.pos) == 0xFFFF_FFFF {
                    None
                } else {
                    Some(word(d, c.pos) as i32)
                }
                &&& filters.len() == word(d, c.pos + 4)
                &&& filters_at(d, src.ps, address(d, c.pos + 8, src.ps) as int, filters)
            } else {
                mode is None && filters.len() == 0
            }
        }),
{
    if extended {
        let (mode, c1) = src.i32(c);
        let (n, c2) = src.u32(c1);
        let (off, c3) = src.ptr(c2);
        lemma_filters(src, c3.at(off as int), n as nat);
        lemma_fits(c.pos, 8, src.ps);
        lemma_blend(word(src.data, c.pos));
    }
}

proof fn lemma_clips(x: Ctx, c: Rd, flags: i32, off: u64)
    requires
        held(x.src),
        parsing::clip_actions(x, c, flags, off).1.err is None,
    ensures
        c.err is None,
        parsing::clip_actions(x, c, flags, off).1 == c,
        parsing::clip_actions(x, c, flags, off).0 is Some == (flags & 0x80 != 0 && off != 0),
        parsing::clip_actions(x, c, flags, off).0 matches Some(v) ==> events_at(x, off as int, v),
{
    if flags & 0x80 != 0 && off != 0 {
        let (n, d1) = x.src.i32(c.at(off as int));
        let (blocks, d2) = x.src.ptr(d1);
        lemma_events(x, d2.at(blocks as int), off as int, n, blocks);
    }
}

/// A placement.
proof fn lemma_place(x: Ctx, c: Rd, extended: bool)
    requires
        held(x.src),
        fits(c.pos, x.src.ps),
        parsing::place_object(x, c, extended).1.err is None,
    ensures
        c.err is None,
        place_at(x, c.pos, extended, parsing::place_object(x, c, extended).0),
{
    reveal(parsing::place_object);
    reveal(place_at);
    let (h, c1) = parsing::place_head(x.src, c);
    let (clips, c2) = parsing::clip_actions(x, c1, h.flags, h.actions);
    let (extra, c3) = parsing::place_extra(x.src, c2, extended);
    let (name, c4) = parsing::place_name(x.src, c3, h.flags, h.name);
    assert(c3.err is None);
    assert(c2.err is None) by {
        if c2.err is Some {
            if extended {
                lemma_reps_err(x.src, c2);
            }
        }
    }
    lemma_clips(x, c1, h.flags, h.actions);
    lemma_place_head(x.src, c);
    lemma_fits(c.pos, 48, x.src.ps);
    lemma_fits(c.pos + 48, 0, x.src.ps);
    lemma_extra(x.src, c2, extended);
    lemma_bits(word(x.src.data, c.pos));
}

proof fn lemma_reps_err(src: Src, c: Rd)
    requires
        held(src),
        c.err is Some,
    ensures
        parsing::place_extra(src, c, true).1.err is Some,
{
}

/// A control.
proof fn lemma_control(x: Ctx, c: Rd)
    requires
        held(x.src),
        parsing::control(x, c).1.err is None,
    ensures
        c.err is None,
        control_at(x, c.pos, parsing::control(x, c).0),
{
    reveal(parsing::control);
    reveal(control_at);
    let src = x.src;
    let ps = src.ps;
    let (t, c1) = src.i32(c);
    let b = src.align_ptr(c1);
    read_align(src, c1);
    let w = word(src.data, c.pos);
    lemma_small(w);
    if t == 1 {
        let (off, c2) = src.ptr(b);
        lemma_stream(x, c2, off);
    } else if t == 3 || t == 9 {
        lemma_body(src, c.pos);
        lemma_place(x, b, t == 9);
    } else if t == 8 {
        let (sprite, c2) = src.i32(b);
        let (off, c3) = src.ptr(c2);
        lemma_stream(x, c3, off);
    }
    lemma_body(src, c.pos);
}

proof fn lemma_small(w: u32)
    ensures
        w < 0x8000_0000 ==> (w as i32) == w,
        w >= 0x8000_0000 ==> (w as i32) < 0,
{
    assert(w < 0x8000_0000 ==> (w as i32) == w) by (bit_vector);
    assert(w >= 0x8000_0000 ==> (w as i32) < 0) by (bit_vector);
}

/// Behind a number, at the next multiple of a pointer's width.
proof fn lemma_body(src: Src, p: int)
    requires
        held(src),
    ensures
        fits(next(p + 4, src.ps), src.ps),
        next(next(p + 4, src.ps) + 4, src.ps) == next(p + 4, src.ps) + wide(src.ps, 1),
{
    lemma_fit(p + 4, src.ps);
    lemma_fits(next(p + 4, src.ps), 4, src.ps);
}

/// Pointers to controls.
proof fn lemma_controls(x: Ctx, c: Rd, n: nat)
    requires
        held(x.src),
        reps(parsing::control_step(x), c, n).1.err is None,
    ensures
        c.err is None,
        reps(parsing::control_step(x), c, n).0.len() == n,
        forall|i: int|
            0 <= i < n ==> control_at(
                x,
                address(x.src.data, next(c.pos, x.src.ps) + wide(x.src.ps, i), x.src.ps) as int,
                #[trigger] reps(parsing::control_step(x), c, n).0[i],
            ),
{
    let ps = x.src.ps;
    let step = parsing::control_step(x);
    let place = |i: int| next(c.pos, ps) + wide(ps, i);
    let good = |p: int, k: model::Control|
        control_at(x, address(x.src.data, p, ps) as int, k);
    assert forall|d: Rd| (#[trigger] step(d)).1.err is None implies {
        &&& d.err is None
        &&& step(d).1.pos == next(d.pos, ps) + ps
        &&& good(next(d.pos, ps), step(d).0)
    } by {
        let (off, e) = x.src.ptr(d);
        lemma_control(x, e.at(off as int));
    }
    lemma_strides(ps);
    lemma_row(step, c, n, ps, ps as int, ps as int, place, good);
    let v = reps(step, c, n).0;
    assert forall|i: int| 0 <= i < n implies control_at(
        x,
        address(x.src.data, next(c.pos, ps) + wide(ps, i), ps) as int,
        #[trigger] v[i],
    ) by {
        assert(good(place(i), v[i]));
    }
}

proof fn lemma_frame(x: Ctx, d: Rd)
    requires
        held(x.src),
        parsing::frame(x, d).1.err is None,
    ensures
        d.err is None,
        parsing::frame(x, d).1.pos == next(d.pos, x.src.ps) + 2 * x.src.ps,
        frame_at(x, next(d.pos, x.src.ps), parsing::frame(x, d).0),
{
    reveal(frame_at);
    let src = x.src;
    let (n, c1) = src.i32(src.align_ptr(d));
    let (off, c2) = src.ptr(c1);
    lemma_controls(x, c2.at(off as int), items(n));
    lemma_aligned(src, d);
    lemma_fit(d.pos, src.ps);
    lemma_fits(next(d.pos, src.ps), 4, src.ps);
    lemma_count(word(src.data, next(d.pos, src.ps)));
}

proof fn lemma_frames(x: Ctx, c: Rd, off: u64, n: i32)
    requires
        held(x.src),
        parsing::frames(x, c, off, n).1.err is None,
    ensures
        c.err is None,
        parsing::frames(x, c, off, n).0.len() == items(n),
        frames_at(x, off as int, parsing::frames(x, c, off, n).0),
{
    let ps = x.src.ps;
    let step = parsing::frame_step(x);
    let place = |i: int| next(off as int, ps) + wide(ps, 2 * i);
    let good = |p: int, f: model::Frame| frame_at(x, p, f);
    assert forall|d: Rd| (#[trigger] step(d)).1.err is None implies {
        &&& d.err is None
        &&& step(d).1.pos == next(d.pos, ps) + 2 * ps
        &&& good(next(d.pos, ps), step(d).0)
    } by {
        lemma_frame(x, d);
    }
    lemma_strides(ps);
    lemma_row(
        step,
        c.at(off as int),
        items(n),
        ps,
        2 * ps as int,
        2 * ps as int,
        place,
        good,
    );
    let v = parsing::frames(x, c, off, n).0;
    assert forall|i: int| 0 <= i < v.len() implies frame_at(
        x,
        next(off as int, ps) + wide(ps, 2 * i),
        #[trigger] v[i],
    ) by {
        assert(good(place(i), v[i]));
    }
}

proof fn lemma_indices(src: Src, c: Rd, n: nat)
    requires
        held(src),
        reps(parsing::index_step(src), c, n).1.err is None,
    ensures
        c.err is None,
        reps(parsing::index_step(src), c, n).0.len() == n,
        forall|i: int|
            0 <= i < n ==> #[trigger] reps(parsing::index_step(src), c, n).0[i] == word(
                src.data,
                next(c.pos, src.ps) + wide(src.ps, i),
            ),
{
    let ps = src.ps;
    let step = parsing::index_step(src);
    let place = |i: int| next(c.pos, ps) + wide(ps, i);
    let good = |p: int, v: u32| v == word(src.data, p);
    assert forall|d: Rd| (#[trigger] step(d)).1.err is None implies {
        &&& d.err is None
        &&& step(d).1.pos == next(d.pos, ps) + ps
        &&& good(next(d.pos, ps), step(d).0)
    } by {
        lemma_index(src, d);
    }
    lemma_strides(ps);
    lemma_row(step, c, n, ps, ps as int, ps as int, place, good);
    let v = reps(step, c, n).0;
    assert forall|i: int| 0 <= i < n implies #[trigger] v[i] == word(
        src.data,
        next(c.pos, ps) + wide(ps, i),
    ) by {
        assert(good(place(i), v[i]));
    }
}

/// The low half of a pointer-wide slot.
proof fn lemma_index(src: Src, d: Rd)
    requires
        held(src),
        parsing::index_slot(src, d).1.err is None,
    ensures
        d.err is None,
        parsing::index_slot(src, d).0 == word(src.data, next(d.pos, src.ps)),
        parsing::index_slot(src, d).1 == Rd::start(next(d.pos, src.ps) + src.ps),
{
    let p = next(d.pos, src.ps);
    let lo = word(src.data, p);
    let hi = word(src.data, p + 4);
    let v = src.ptr(d).0;
    if src.ps == 8 {
        assert(v == lo + 0x1_0000_0000 * hi);
        assert((v as u32) == (v % 0x1_0000_0000) as u32) by (bit_vector);
    }
}

proof fn lemma_vertices(src: Src, c: Rd, n: nat)
    requires
        reps(parsing::vertex_step(src), c, n).1.err is None,
    ensures
        c.err is None,
        reps(parsing::vertex_step(src), c, n).0.len() == n,
        forall|i: int|
            0 <= i < n ==> (#[trigger] reps(parsing::vertex_step(src), c, n).0[i]).0 == word(
                src.data,
                c.pos + 8 * i,
            ) && reps(parsing::vertex_step(src), c, n).0[i].1 == word(
                src.data,
                c.pos + 8 * i + 4,
            ),
{
    lemma_strides(4);
    let place = |i: int| c.pos + 8 * i;
    let good = |p: int, v: (u32, u32)| v.0 == word(src.data, p) && v.1 == word(src.data, p + 4);
    lemma_row(parsing::vertex_step(src), c, n, 1, 8, 8, place, good);
    let v = reps(parsing::vertex_step(src), c, n).0;
    assert forall|i: int| 0 <= i < n implies (#[trigger] v[i]).0 == word(src.data, c.pos + 8 * i)
        && v[i].1 == word(src.data, c.pos + 8 * i + 4) by {
        assert(good(place(i), v[i]));
    }
}

proof fn lemma_triangles(src: Src, c: Rd, n: nat)
    requires
        reps(parsing::triangle_step(src), c, n).1.err is None,
    ensures
        c.err is None,
        reps(parsing::triangle_step(src), c, n).0.len() == n,
        forall|i: int|
            0 <= i < n ==> triangle_at(
                src.data,
                c.pos + 6 * i,
                #[trigger] reps(parsing::triangle_step(src), c, n).0[i],
            ),
{
    lemma_strides(4);
    let place = |i: int| c.pos + 6 * i;
    let good = |p: int, t: Seq<i16>| triangle_at(src.data, p, t);
    lemma_row(parsing::triangle_step(src), c, n, 1, 6, 6, place, good);
    let v = reps(parsing::triangle_step(src), c, n).0;
    assert forall|i: int| 0 <= i < n implies triangle_at(
        src.data,
        c.pos + 6 * i,
        #[trigger] v[i],
    ) by {
        assert(good(place(i), v[i]));
    }
}

proof fn lemma_record(src: Src, d: Rd)
    requires
        held(src),
        parsing::button_record(src, d).1.err is None,
    ensures
        d.err is None,
        parsing::button_record(src, d).1.pos == next(d.pos, src.ps) + 60 + 2 * src.ps,
        button_record_at(
            src.data,
            src.ps,
            next(d.pos, src.ps),
            parsing::button_record(src, d).0,
        ),
{
    let (states, c1) = src.i32(src.align_ptr(d));
    let (id, c2) = parsing::index_slot(src, c1);
    let (layer, c3) = src.i32(c2);
    let (m, c4) = parsing::matrix(src, c3);
    lemma_cxform(src, c4);
    lemma_matrix(src, c3);
    lemma_index(src, c1);
    lemma_aligned(src, d);
    lemma_fit(d.pos, src.ps);
    lemma_fits(next(d.pos, src.ps), 4, src.ps);
}

proof fn lemma_records(src: Src, c: Rd, n: nat)
    requires
        held(src),
        reps(parsing::record_step(src), c, n).1.err is None,
    ensures
        c.err is None,
        reps(parsing::record_step(src), c, n).0.len() == n,
        forall|i: int|
            0 <= i < n ==> button_record_at(
                src.data,
                src.ps,
                next(c.pos, src.ps) + 56 * i + wide(src.ps, 3 * i),
                #[trigger] reps(parsing::record_step(src), c, n).0[i],
            ),
{
    let ps = src.ps;
    let step = parsing::record_step(src);
    let place = |i: int| next(c.pos, ps) + 56 * i + wide(ps, 3 * i);
    let good = |p: int, r: model::ButtonRecord| button_record_at(src.data, ps, p, r);
    assert forall|d: Rd| (#[trigger] step(d)).1.err is None implies {
        &&& d.err is None
        &&& step(d).1.pos == next(d.pos, ps) + (60 + 2 * ps)
        &&& good(next(d.pos, ps), step(d).0)
    } by {
        lemma_record(src, d);
    }
    lemma_strides(ps);
    lemma_row(step, c, n, ps, 60 + 2 * ps as int, 56 + 3 * ps as int, place, good);
    let v = reps(step, c, n).0;
    assert forall|i: int| 0 <= i < n implies button_record_at(
        src.data,
        ps,
        next(c.pos, ps) + 56 * i + wide(ps, 3 * i),
        #[trigger] v[i],
    ) by {
        assert(good(place(i), v[i]));
    }
}

proof fn lemma_action(x: Ctx, d: Rd)
    requires
        held(x.src),
        parsing::button_action(x, d).1.err is None,
    ensures
        d.err is None,
        parsing::button_action(x, d).1.pos == next(d.pos, x.src.ps) + 2 * x.src.ps,
        button_action_at(x, next(d.pos, x.src.ps), parsing::button_action(x, d).0),
{
    let src = x.src;
    let (_, c1) = src.i32(src.align_ptr(d));
    let (off, c2) = src.ptr(c1);
    lemma_stream(x, c2, off);
    lemma_aligned(src, d);
    lemma_fit(d.pos, src.ps);
    lemma_fits(next(d.pos, src.ps), 4, src.ps);
}

proof fn lemma_actions(x: Ctx, c: Rd, n: nat)
    requires
        held(x.src),
        reps(parsing::action_step(x), c, n).1.err is None,
    ensures
        c.err is None,
        reps(parsing::action_step(x), c, n).0.len() == n,
        forall|i: int|
            0 <= i < n ==> button_action_at(
                x,
                next(c.pos, x.src.ps) + wide(x.src.ps, 2 * i),
                #[trigger] reps(parsing::action_step(x), c, n).0[i],
            ),
{
    let ps = x.src.ps;
    let step = parsing::action_step(x);
    let place = |i: int| next(c.pos, ps) + wide(ps, 2 * i);
    let good = |p: int, a: model::ButtonAction| button_action_at(x, p, a);
    assert forall|d: Rd| (#[trigger] step(d)).1.err is None implies {
        &&& d.err is None
        &&& step(d).1.pos == next(d.pos, ps) + 2 * ps
        &&& good(next(d.pos, ps), step(d).0)
    } by {
        lemma_action(x, d);
    }
    lemma_strides(ps);
    lemma_row(step, c, n, ps, 2 * ps as int, 2 * ps as int, place, good);
    let v = reps(step, c, n).0;
    assert forall|i: int| 0 <= i < n implies button_action_at(
        x,
        next(c.pos, ps) + wide(ps, 2 * i),
        #[trigger] v[i],
    ) by {
        assert(good(place(i), v[i]));
    }
}

proof fn lemma_glyphs(src: Src, c: Rd, n: nat)
    requires
        reps(parsing::glyph_step(src), c, n).1.err is None,
    ensures
        c.err is None,
        reps(parsing::glyph_step(src), c, n).0.len() == n,
        forall|i: int|
            0 <= i < n ==> (#[trigger] reps(parsing::glyph_step(src), c, n).0[i]).index == half(
                src.data,
                c.pos + 4 * i,
            ) as i16 && reps(parsing::glyph_step(src), c, n).0[i].advance == half(
                src.data,
                c.pos + 4 * i + 2,
            ) as i16,
{
    lemma_strides(4);
    let place = |i: int| c.pos + 4 * i;
    let good = |p: int, g: GlyphEntry|
        g.index == half(src.data, p) as i16 && g.advance == half(src.data, p + 2) as i16;
    lemma_row(parsing::glyph_step(src), c, n, 1, 4, 4, place, good);
    let v = reps(parsing::glyph_step(src), c, n).0;
    assert forall|i: int| 0 <= i < n implies (#[trigger] v[i]).index == half(
        src.data,
        c.pos + 4 * i,
    ) as i16 && v[i].advance == half(src.data, c.pos + 4 * i + 2) as i16 by {
        assert(good(place(i), v[i]));
    }
}

proof fn lemma_run(src: Src, d: Rd)
    requires
        held(src),
        parsing::text_record(src, d).1.err is None,
    ensures
        d.err is None,
        parsing::text_record(src, d).1.pos == next(d.pos, src.ps) + 48 + 2 * src.ps,
        run_at(src.data, src.ps, next(d.pos, src.ps), parsing::text_record(src, d).0),
{
    let (font_id, c1) = src.i32(src.align_ptr(d));
    let (cxform, c2) = parsing::float_cxform(src, c1);
    let (x_offset, c3) = src.u32(c2);
    let (y_offset, c4) = src.u32(c3);
    let (scale, c5) = src.u32(c4);
    let (n, c6) = src.i32(c5);
    let (off, c7) = src.ptr(c6);
    lemma_glyphs(src, c7.at(off as int), items(n));
    lemma_cxform(src, c1);
    lemma_aligned(src, d);
    lemma_fit(d.pos, src.ps);
    let p = next(d.pos, src.ps);
    lemma_fits(p, 52, src.ps);
    lemma_count(word(src.data, p + 48));
}

proof fn lemma_runs(src: Src, c: Rd, n: nat)
    requires
        held(src),
        reps(parsing::text_step(src), c, n).1.err is None,
    ensures
        c.err is None,
        reps(parsing::text_step(src), c, n).0.len() == n,
        forall|i: int|
            0 <= i < n ==> run_at(
                src.data,
                src.ps,
                next(c.pos, src.ps) + 48 * i + wide(src.ps, 2 * i),
                #[trigger] reps(parsing::text_step(src), c, n).0[i],
            ),
{
    let ps = src.ps;
    let step = parsing::text_step(src);
    let place = |i: int| next(c.pos, ps) + 48 * i + wide(ps, 2 * i);
    let good = |p: int, r: model::StaticTextRecord| run_at(src.data, src.ps, p, r);
    assert forall|d: Rd| (#[trigger] step(d)).1.err is None implies {
        &&& d.err is None
        &&& step(d).1.pos == next(d.pos, ps) + (48 + 2 * ps)
        &&& good(next(d.pos, ps), step(d).0)
    } by {
        lemma_run(src, d);
    }
    lemma_strides(ps);
    lemma_row(step, c, n, ps, 48 + 2 * ps as int, 48 + 2 * ps as int, place, good);
    let v = reps(step, c, n).0;
    assert forall|i: int| 0 <= i < n implies run_at(
        src.data,
        src.ps,
        next(c.pos, ps) + 48 * i + wide(ps, 2 * i),
        #[trigger] v[i],
    ) by {
        assert(good(place(i), v[i]));
    }
}

proof fn lemma_import(src: Src, d: Rd)
    requires
        held(src),
        parsing::import(src, d).1.err is None,
    ensures
        d.err is None,
        parsing::import(src, d).1.pos == next(d.pos, src.ps) + 4 * src.ps,
        import_at(src.data, src.ps, next(d.pos, src.ps), parsing::import(src, d).0),
{
    let a = src.align_ptr(d);
    let (movie, c1) = src.ptr_string(a);
    let (name, c2) = src.ptr_string(c1);
    let (id, c3) = src.u32(c2);
    read_align(src, d);
    let p = next(d.pos, src.ps);
    lemma_fit(d.pos, src.ps);
    lemma_fits(p, 0, src.ps);
    lemma_fits(p + wide(src.ps, 2), 4, src.ps);
}

proof fn lemma_export(src: Src, d: Rd)
    requires
        held(src),
        parsing::export(src, d).1.err is None,
    ensures
        d.err is None,
        parsing::export(src, d).1.pos == next(d.pos, src.ps) + (4 + src.ps),
        export_at(src.data, src.ps, next(d.pos, src.ps), parsing::export(src, d).0),
{
    let a = src.align_ptr(d);
    read_align(src, d);
    lemma_fit(d.pos, src.ps);
}

proof fn lemma_imports(src: Src, c: Rd, n: nat)
    requires
        held(src),
        reps(parsing::import_step(src), c, n).1.err is None,
    ensures
        c.err is None,
        reps(parsing::import_step(src), c, n).0.len() == n,
        forall|i: int|
            0 <= i < n ==> import_at(
                src.data,
                src.ps,
                next(c.pos, src.ps) + wide(src.ps, 4 * i),
                #[trigger] reps(parsing::import_step(src), c, n).0[i],
            ),
{
    let ps = src.ps;
    let step = parsing::import_step(src);
    let place = |i: int| next(c.pos, ps) + wide(ps, 4 * i);
    let good = |p: int, r: model::Import| import_at(src.data, src.ps, p, r);
    assert forall|d: Rd| (#[trigger] step(d)).1.err is None implies {
        &&& d.err is None
        &&& step(d).1.pos == next(d.pos, ps) + (4 * ps)
        &&& good(next(d.pos, ps), step(d).0)
    } by {
        lemma_import(src, d);
    }
    lemma_strides(ps);
    lemma_row(step, c, n, ps, 4 * ps as int, 4 * ps as int, place, good);
    let v = reps(step, c, n).0;
    assert forall|i: int| 0 <= i < n implies import_at(
        src.data,
        src.ps,
        next(c.pos, ps) + wide(ps, 4 * i),
        #[trigger] v[i],
    ) by {
        assert(good(place(i), v[i]));
    }
}

proof fn lemma_exports(src: Src, c: Rd, n: nat)
    requires
        held(src),
        reps(parsing::export_step(src), c, n).1.err is None,
    ensures
        c.err is None,
        reps(parsing::export_step(src), c, n).0.len() == n,
        forall|i: int|
            0 <= i < n ==> export_at(
                src.data,
                src.ps,
                next(c.pos, src.ps) + wide(src.ps, 2 * i),
                #[trigger] reps(parsing::export_step(src), c, n).0[i],
            ),
{
    let ps = src.ps;
    let step = parsing::export_step(src);
    let place = |i: int| next(c.pos, ps) + wide(ps, 2 * i);
    let good = |p: int, r: model::Export| export_at(src.data, src.ps, p, r);
    assert forall|d: Rd| (#[trigger] step(d)).1.err is None implies {
        &&& d.err is None
        &&& step(d).1.pos == next(d.pos, ps) + (4 + ps)
        &&& good(next(d.pos, ps), step(d).0)
    } by {
        lemma_export(src, d);
    }
    lemma_strides(ps);
    lemma_row(step, c, n, ps, 4 + ps as int, 2 * ps as int, place, good);
    let v = reps(step, c, n).0;
    assert forall|i: int| 0 <= i < n implies export_at(
        src.data,
        src.ps,
        next(c.pos, ps) + wide(ps, 2 * i),
        #[trigger] v[i],
    ) by {
        assert(good(place(i), v[i]));
    }
}

proof fn lemma_edit_text(src: Src, c: Rd)
    requires
        held(src),
        fits(c.pos, src.ps),
        parsing::edit_text(src, c).1.err is None,
    ensures
        c.err is None,
        edit_text_at(src.data, src.ps, c.pos, parsing::edit_text(src, c).0),
{
    let (bounds, c1) = parsing::rect(src, c);
    lemma_rect(src, c);
    lemma_fits(c.pos, 40, src.ps);
    lemma_fits(c.pos, 44, src.ps);
    lemma_fits(c.pos + 40, 0, src.ps);
    lemma_small(word(src.data, c.pos + 20));
    lemma_zero(word(src.data, c.pos + 32));
    lemma_zero(word(src.data, c.pos + 36));
    lemma_zero(word(src.data, c.pos + 40));
}

proof fn lemma_zero(w: u32)
    ensures
        (w as i32 == 0) == (w == 0),
{
    lemma_small(w);
}

proof fn lemma_font(src: Src, c: Rd)
    requires
        held(src),
        fits(c.pos, src.ps),
        parsing::font(src, c).1.err is None,
    ensures
        c.err is None,
        font_at(src.data, src.ps, c.pos, parsing::font(src, c).0),
{
    let (name, c1) = src.ptr_string(c);
    let (n, c2) = src.i32(c1);
    let (off, c3) = src.ptr(c2);
    lemma_indices(src, c3.at(off as int), items(n));
    lemma_fits(c.pos, 0, src.ps);
    lemma_fits(c.pos + wide(src.ps, 1), 4, src.ps);
    lemma_count(word(src.data, c.pos + wide(src.ps, 1)));
}

proof fn lemma_static_text(src: Src, c: Rd)
    requires
        held(src),
        fits(c.pos, src.ps),
        parsing::static_text(src, c).1.err is None,
    ensures
        c.err is None,
        static_text_at(src.data, src.ps, c.pos, parsing::static_text(src, c).0),
{
    let (bounds, c1) = parsing::rect(src, c);
    let (m, c2) = parsing::matrix(src, c1);
    let (n, c3) = src.i32(c2);
    let (off, c4) = src.ptr(c3);
    lemma_runs(src, c4.at(off as int), items(n));
    lemma_matrix(src, c1);
    lemma_rect(src, c);
    lemma_fits(c.pos, 44, src.ps);
    lemma_count(word(src.data, c.pos + 40));
}

proof fn lemma_sounds(src: Src, c: Rd, off: u64)
    requires
        held(src),
        parsing::button_sounds(src, c, off).1.err is None,
    ensures
        c.err is None,
        parsing::button_sounds(src, c, off).0 is Some == (off != 0),
        parsing::button_sounds(src, c, off).0 matches Some(s) ==> {
            let row = next(off as int, src.ps);
            &&& s.over_up_to_idle == word(src.data, row)
            &&& s.idle_to_over_up == word(src.data, row + wide(src.ps, 1))
            &&& s.over_up_to_over_down == word(src.data, row + wide(src.ps, 2))
            &&& s.over_down_to_over_up == word(src.data, row + wide(src.ps, 3))
        },
{
    if off != 0 {
        let row = next(off as int, src.ps);
        lemma_fit(off as int, src.ps);
        lemma_fits(row, 0, src.ps);
        let (a, c1) = parsing::index_slot(src, c.at(off as int));
        let (b, c2) = parsing::index_slot(src, c1);
        let (d, c3) = parsing::index_slot(src, c2);
        lemma_index(src, c3);
        lemma_index(src, c2);
        lemma_index(src, c1);
        lemma_index(src, c.at(off as int));
    }
}

#[verifier::rlimit(40)]
proof fn lemma_button(x: Ctx, c: Rd)
    requires
        held(x.src),
        fits(c.pos, x.src.ps),
        parsing::button(x, c).1.err is None,
    ensures
        c.err is None,
        button_at(x, c.pos, parsing::button(x, c).0),
{
    reveal(parsing::button);
    let src = x.src;
    let ps = src.ps;
    let (menu, c1) = src.i32(c);
    let (bounds, c2) = parsing::rect(src, c1);
    let (n_triangles, c3) = src.i32(c2);
    let (n_vertices, c4) = src.i32(c3);
    let (vertices_off, c5) = src.ptr(c4);
    let (indices_off, c6) = src.ptr(c5);
    let (n_records, c7) = src.i32(c6);
    let (records_off, c8) = src.ptr(c7);
    let (n_conditions, c9) = src.i32(c8);
    let (conditions_off, c10) = src.ptr(c9);
    let (sound_off, c11) = src.ptr(c10);
    let v0 = c11.at(vertices_off as int);
    let (vertices, d1) = reps(parsing::vertex_step(src), v0, items(n_vertices));
    let (triangles, d2) = reps(
        parsing::triangle_step(src),
        d1.at(indices_off as int),
        items(n_triangles),
    );
    let (records, d3) = reps(
        parsing::record_step(src),
        d2.at(records_off as int),
        items(n_records),
    );
    let (actions, d4) = reps(
        parsing::action_step(x),
        d3.at(conditions_off as int),
        items(n_conditions),
    );
    lemma_sounds(src, d4, sound_off);
    lemma_actions(x, d3.at(conditions_off as int), items(n_conditions));
    lemma_records(src, d2.at(records_off as int), items(n_records));
    lemma_triangles(src, d1.at(indices_off as int), items(n_triangles));
    lemma_vertices(src, v0, items(n_vertices));
    lemma_button_head(src, c);
    let p = c.pos;
    let q = next(p + 28, ps);
    lemma_count(word(src.data, p + 20));
    lemma_count(word(src.data, p + 24));
    lemma_count(word(src.data, q + wide(ps, 2)));
    lemma_count(word(src.data, q + wide(ps, 4)));
    lemma_zero(word(src.data, p));
    reveal(button_at);
}

/// What precedes the mesh of a button.
proof fn lemma_button_head(src: Src, c: Rd)
    requires
        held(src),
        fits(c.pos, src.ps),
    ensures
        ({
            let d = src.data;
            let ps = src.ps;
            let q = next(c.pos + 28, ps);
            let (menu, c1) = src.i32(c);
            let (bounds, c2) = parsing::rect(src, c1);
            let (n_triangles, c3) = src.i32(c2);
            let (n_vertices, c4) = src.i32(c3);
            let (vertices_off, c5) = src.ptr(c4);
            let (indices_off, c6) = src.ptr(c5);
            let (n_records, c7) = src.i32(c6);
            let (records_off, c8) = src.ptr(c7);
            let (n_conditions, c9) = src.i32(c8);
            let (conditions_off, c10) = src.ptr(c9);
            let (sound_off, c11) = src.ptr(c10);
            c11.err is None ==> {
                &&& c.err is None
                &&& menu == word(d, c.pos) as i32
                &&& rect_at(d, c.pos + 4, bounds)
                &&& n_triangles == word(d, c.pos + 20) as i32
                &&& n_vertices == word(d, c.pos + 24) as i32
                &&& vertices_off == address(d, q, ps)
                &&& indices_off == address(d, q + wide(ps, 1), ps)
                &&& n_records == word(d, q + wide(ps, 2)) as i32
                &&& records_off == address(d, q + wide(ps, 3), ps)
                &&& n_conditions == word(d, q + wide(ps, 4)) as i32
                &&& conditions_off == address(d, q + wide(ps, 5), ps)
                &&& sound_off == address(d, q + wide(ps, 6), ps)
            }
        }),
{
    let ps = src.ps;
    let q = next(c.pos + 28, ps);
    lemma_fits(c.pos, 28, ps);
    lemma_fit(c.pos + 28, ps);
    lemma_fits(q, 0, ps);
    lemma_fits(q + wide(ps, 2), 4, ps);
    lemma_fits(q + wide(ps, 4), 4, ps);
}

/// What precedes the body of a character.
proof fn lemma_prelude(p: Px, c: Rd)
    requires
        held(p.x.src),
        parsing::char_header(p, c).1.err is None,
    ensures
        c.err is None,
        ({
            let d = p.x.src.data;
            let ps = p.x.src.ps;
            let ((t, data), e) = parsing::char_header(p, c);
            &&& t == word(d, c.pos) as i32
            &&& p.decoupled ==> data == word(d, next(c.pos + 4, ps) + wide(ps, 1))
            &&& e == Rd::start(body_of(c.pos, ps, p.decoupled))
            &&& fits(e.pos, ps)
        }),
{
    let ps = p.x.src.ps;
    let q = next(c.pos + 4, ps);
    lemma_fit(c.pos + 4, ps);
    lemma_fits(q, 0, ps);
    lemma_fits(q + wide(ps, 1), 4, ps);
    lemma_fits(q + wide(ps, 3), 0, ps);
}

proof fn lemma_word_id(w: u32)
    ensures
        (w & 0x7FFF) as u16 == (w % 0x8000) as u16,
{
    assert(w & 0x7FFF == w % 0x8000) by (bit_vector);
}

/// A character.
proof fn lemma_character(p: Px, c: Rd)
    requires
        held(p.x.src),
        parsing::character(p, c).1.err is None,
    ensures
        c.err is None,
        character_at(p, c.pos, parsing::character(p, c).0),
{
    reveal(parsing::character);
    reveal(character_at);
    let src = p.x.src;
    let ps = src.ps;
    let ((t, data), e) = parsing::char_header(p, c);
    lemma_small(word(src.data, c.pos));
    if e.err is None {
        lemma_prelude(p, c);
        lemma_word_id(data);
        if t == 1 {
            lemma_rect(src, e);
        } else if t == 2 {
            lemma_edit_text(src, e);
        } else if t == 3 {
            lemma_font(src, e);
        } else if t == 4 {
            lemma_button(p.x, e);
        } else if t == 5 {
            let (n, c1) = src.i32(e);
            let (off, c2) = src.ptr(c1);
            let c3 = src.ptr(c2).1;
            lemma_frames(p.x, c3, off, n);
            lemma_fits(e.pos, 4, ps);
            lemma_count(word(src.data, e.pos));
        } else if t == 8 {
            let (a, c1) = parsing::index_slot(src, e);
            lemma_index(src, c1);
            lemma_index(src, e);
            lemma_fits(e.pos, 0, ps);
        } else if t == 10 {
            lemma_static_text(src, e);
        }
    }
}

/// Character slots.
proof fn lemma_slots(p: Px, root: u64, c: Rd, n: nat)
    requires
        held(p.x.src),
        parsing::char_slots(p, root, c, n).1.err is None,
    ensures
        c.err is None,
        parsing::char_slots(p, root, c, n).0.len() == n,
        n > 0 ==> parsing::char_slots(p, root, c, n).1.pos == next(c.pos, p.x.src.ps) + wide(
            p.x.src.ps,
            n as int,
        ),
        n == 0 ==> parsing::char_slots(p, root, c, n).1 == c,
        forall|i: int|
            0 <= i < n ==> slot_at(
                p,
                root as int,
                i,
                next(c.pos, p.x.src.ps) + wide(p.x.src.ps, i),
                #[trigger] parsing::char_slots(p, root, c, n).0[i],
            ),
    decreases n,
{
    if n > 0 && c.err is None {
        let m = (n - 1) as nat;
        let ps = p.x.src.ps;
        let (got, d) = parsing::char_slots(p, root, c, m);
        let (slot, e) = parsing::char_slot(p, root, m, d);
        let (off, f) = p.x.src.ptr(d);
        if off != 0 && !(m == 0 || off == root) {
            lemma_character(p, f.at(off as int));
        }
        lemma_slots(p, root, c, m);
        lemma_fit(c.pos, ps);
        assert(next(d.pos, ps) == next(c.pos, ps) + wide(ps, m as int)) by {
            if m > 0 {
                lemma_wide_fits(next(c.pos, ps), m as int, ps);
            }
        }
        let v = parsing::char_slots(p, root, c, n).0;
        assert forall|i: int| 0 <= i < n implies slot_at(
            p,
            root as int,
            i,
            next(c.pos, ps) + wide(ps, i),
            #[trigger] v[i],
        ) by {
            if i < m {
                assert(v[i] == got[i]);
            }
        }
    }
}

proof fn lemma_wide_fits(p: int, n: int, ps: nat)
    requires
        ps == 4 || ps == 8,
        fits(p, ps),
    ensures
        fits(p + wide(ps, n), ps),
{
    reveal(next);
    if ps == 4 {
        assert((p + 4 * n) % 4 == p % 4);
    } else {
        assert((p + 8 * n) % 8 == p % 8);
    }
}

/// What precedes the frames of a movie.
proof fn lemma_root_head(p: Px, c: Rd)
    requires
        held(p.x.src),
        parsing::root_head(p, c).1.err is None,
    ensures
        c.err is None,
        ({
            let d = p.x.src.data;
            let ps = p.x.src.ps;
            let b = body_of(c.pos, ps, p.decoupled);
            let s = b + wide(ps, 5);
            let h = parsing::root_head(p, c).0;
            &&& word(d, c.pos) == 9
            &&& h.n_frames == word(d, b) as i32
            &&& h.frames == address(d, b + wide(ps, 1), ps)
            &&& h.n_characters == word(d, b + wide(ps, 3)) as i32
            &&& h.characters == address(d, b + wide(ps, 4), ps)
            &&& h.width == word(d, s)
            &&& h.height == word(d, s + 4)
            &&& h.ms_per_frame == word(d, s + 8)
            &&& h.n_imports == word(d, s + 12) as i32
            &&& h.imports == address(d, s + 16, ps)
            &&& h.n_exports == word(d, s + 16 + wide(ps, 1)) as i32
            &&& h.exports == address(d, s + 16 + wide(ps, 2), ps)
        }),
{
    reveal(parsing::root_head);
    let src = p.x.src;
    let ps = src.ps;
    let ((t, data), e) = parsing::char_header(p, c);
    let f = if t != 9 {
        e.fail(model::Error::RootNotAnimation(t))
    } else {
        e
    };
    assert(f.err is None);
    lemma_prelude(p, c);
    lemma_small(word(src.data, c.pos));
    let b = e.pos;
    lemma_fits(b, 4, ps);
    lemma_fits(b + wide(ps, 3), 4, ps);
    let s = b + wide(ps, 5);
    lemma_fits(s, 16, ps);
    lemma_fits(s + 16, 0, ps);
    lemma_fits(s + 16 + wide(ps, 1), 4, ps);
}

/// A movie.
proof fn lemma_movie(p: Px, off: u64)
    requires
        held(p.x.src),
        parsing::root(p, off).1.err is None,
    ensures
        movie_at(p, off as int, parsing::root(p, off).0),
{
    reveal(parsing::root);
    let src = p.x.src;
    let ps = src.ps;
    let (h, c0) = parsing::root_head(p, Rd::start(off as int));
    let (frames, c1) = parsing::frames(p.x, c0, h.frames, h.n_frames);
    let (characters, c2) = parsing::char_slots(
        p,
        off,
        c1.at(h.characters as int),
        items(h.n_characters),
    );
    let (imports, c3) = reps(
        parsing::import_step(src),
        c2.at(h.imports as int),
        items(h.n_imports),
    );
    lemma_exports(src, c3.at(h.exports as int), items(h.n_exports));
    lemma_imports(src, c2.at(h.imports as int), items(h.n_imports));
    lemma_slots(p, off, c1.at(h.characters as int), items(h.n_characters));
    lemma_frames(p.x, c0, h.frames, h.n_frames);
    lemma_root_head(p, Rd::start(off as int));
    let d = src.data;
    let b = body_of(off as int, ps, p.decoupled);
    let s = b + wide(ps, 5);
    lemma_count(word(d, b));
    lemma_count(word(d, b + wide(ps, 3)));
    lemma_count(word(d, s + 12));
    lemma_count(word(d, s + 16 + wide(ps, 1)));
    reveal(movie_at);
}

/// The four bytes of a slot.
proof fn lemma_payload(src: Src, c: Rd)
    requires
        held(src),
        constfile::read_payload(src, c).1.err is None,
    ensures
        c.err is None,
        constfile::read_payload(src, c).0 == word(src.data, next(c.pos, src.ps)),
        constfile::read_payload(src, c).1.pos == next(c.pos, src.ps) + src.ps,
{
    lemma_aligned(src, c);
}

proof fn lemma_entry(src: Src, d: Rd)
    requires
        held(src),
        constfile::read_entry(src, d).1.err is None,
    ensures
        d.err is None,
        constfile::read_entry(src, d).1.pos == next(d.pos, src.ps) + 2 * src.ps,
        constant_at(src.data, src.ps, next(d.pos, src.ps), constfile::read_entry(src, d).0),
{
    let (t, c) = src.i32(src.align_ptr(d));
    lemma_aligned(src, d);
    let p = next(d.pos, src.ps);
    lemma_fit(d.pos, src.ps);
    lemma_fits(p, 4, src.ps);
    lemma_small(word(src.data, p));
    if constfile::ENTRY_REGISTER <= t <= constfile::ENTRY_LOOKUP {
        lemma_payload(src, c);
    }
}

/// A constant file that was read stands in its bytes.
pub proof fn law_constants_read(src: Src)
    requires
        held(src),
        constfile::read_const(src).1.err is None,
    ensures
        constants_at(src.data, src.ps, constfile::read_const(src).0),
{
    reveal(constants_at);
    let ps = src.ps;
    let start = if src.len() < 20 {
        Rd::start(0).fail(model::Error::BadConstMagic)
    } else {
        Rd::start(20)
    };
    let (main, c1) = src.ptr(start);
    let (n, c2) = src.i32(c1);
    let (table, c3) = src.ptr(c2);
    let step = constfile::entry_step(src);
    let row = next(table as int, ps);
    let place = |i: int| row + wide(ps, 2 * i);
    let good = |p: int, v: model::Value| constant_at(src.data, ps, p, v);
    assert forall|d: Rd| (#[trigger] step(d)).1.err is None implies {
        &&& d.err is None
        &&& step(d).1.pos == next(d.pos, ps) + 2 * ps
        &&& good(next(d.pos, ps), step(d).0)
    } by {
        lemma_entry(src, d);
    }
    lemma_strides(ps);
    lemma_row(
        step,
        c3.at(table as int),
        items(n),
        ps,
        2 * ps as int,
        2 * ps as int,
        place,
        good,
    );
    let p = next(20, ps);
    lemma_fit(20, ps);
    lemma_fits(p, 0, ps);
    lemma_fits(p + wide(ps, 1), 4, ps);
    lemma_count(word(src.data, p + wide(ps, 1)));
    let v = reps(step, c3.at(table as int), items(n)).0;
    assert forall|i: int| 0 <= i < v.len() implies constant_at(
        src.data,
        ps,
        row + wide(ps, 2 * i),
        #[trigger] v[i],
    ) by {
        assert(good(place(i), v[i]));
    }
}

/// The tag at the start of an `.apt` file: eight letters, then behind colons whether
/// rendering is decoupled, the digit of the SWF version, and the width of a pointer.
pub open spec fn tag_at(d: Seq<u8>, h: model::Header) -> bool {
    &&& d.len() >= 16
    &&& d[0] == 0x41 && d[1] == 0x70 && d[2] == 0x74 && d[3] == 0x20
    &&& d[4] == 0x44 && d[5] == 0x61 && d[6] == 0x74 && d[7] == 0x61
    &&& h.decoupled == (d[8] == 0x3A && d[9] == 0x31)
    &&& d[10] == 0x3A && d[11] >= 0x30 ==> h.swf_version == d[11] - 0x30
    &&& d[10] != 0x3A ==> h.swf_version == 6
    &&& h.ptr_size.width() == if d[12] == 0x3A && d[13] == 0x38 {
        8nat
    } else {
        4nat
    }
    &&& d[12] == 0x3A ==> d[13] == 0x34 || d[13] == 0x38
    &&& h.raw_tag.len() == 16
    &&& forall|i: int| 0 <= i < 16 ==> #[trigger] h.raw_tag[i] == d[i]
}

/// Whether the pair of files holds the movie: its tag, its constants, and the movie
/// where the constant file says that its root character is.
pub open spec fn file_at(apt: Seq<u8>, consts: Seq<u8>, f: model::AptFile) -> bool {
    let ps = f.header.ptr_size.width();
    &&& tag_at(apt, f.header)
    &&& exists|k: model::ConstFile|
        #![trigger constants_at(consts, ps, k)]
        constants_at(consts, ps, k) && k.magic == f.const_magic && movie_at(
            Px {
                x: Ctx { src: Src { data: apt, ps }, consts: k.constants },
                decoupled: f.header.decoupled,
            },
            k.main_character_offset as int,
            f.movie,
        )
}

/// A movie that was read stands in the bytes of its files, word by word: rectangles,
/// matrices, placements and everything else at the places that the format gives them.
pub proof fn law_movie_read(apt: Seq<u8>, consts: Seq<u8>, f: model::AptFile)
    requires
        apt.len() <= i64::MAX,
        consts.len() <= i64::MAX,
        parsing::apt_file(apt, consts) == Ok::<model::AptFile, model::Error>(f),
    ensures
        file_at(apt, consts, f),
{
    let h = parsing::header(apt)->Ok_0;
    let ps = h.ptr_size.width();
    let src = Src { data: consts, ps };
    let (k, c) = constfile::read_const(src);
    law_constants_read(src);
    let p = Px {
        x: Ctx { src: Src { data: apt, ps }, consts: k.constants },
        decoupled: h.decoupled,
    };
    lemma_movie(p, k.main_character_offset);
    lemma_tag(apt, h);
    assert(constants_at(consts, ps, k));
}

proof fn lemma_tag(d: Seq<u8>, h: model::Header)
    requires
        parsing::header(d) == Ok::<model::Header, model::Error>(h),
    ensures
        tag_at(d, h),
{
    let t = d.take(8);
    assert(t == parsing::tag_word());
    assert(t[0] == d[0] && t[1] == d[1] && t[2] == d[2] && t[3] == d[3]);
    assert(t[4] == d[4] && t[5] == d[5] && t[6] == d[6] && t[7] == d[7]);
}

/// A movie that was written stands in the bytes of its files: what a reader of the format
/// finds there, word by word, is the movie.
pub proof fn law_movie_written(
    f: model::AptFile,
    h: model::Header,
    ps: nat,
    decoupled: bool,
    tag: Seq<u8>,
)
    requires
        laws::storable_file(f, ps, decoupled, tag),
        writing::file_err(f, ps, decoupled, tag) is None,
        parsing::header(tag) == Ok::<model::Header, model::Error>(h),
        h.ptr_size.width() == ps,
        h.decoupled == decoupled,
        writing::file_bytes(f, ps, decoupled, tag).0.len() <= i64::MAX,
        writing::file_bytes(f, ps, decoupled, tag).1.len() <= i64::MAX,
    ensures
        ({
            let b = writing::file_bytes(f, ps, decoupled, tag);
            file_at(
                b.0,
                b.1,
                model::AptFile {
                    header: h,
                    const_magic: f.const_magic,
                    movie: readback_movie::seen_movie(f.movie, decoupled),
                },
            )
        }),
{
    let b = writing::file_bytes(f, ps, decoupled, tag);
    laws::law_movie_roundtrip(f, h, ps, decoupled, tag);
    let g = model::AptFile {
        header: h,
        const_magic: f.const_magic,
        movie: readback_movie::seen_movie(f.movie, decoupled),
    };
    law_movie_read(b.0, b.1, g);
}

} // verus!
