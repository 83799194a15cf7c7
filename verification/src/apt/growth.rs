//! Laying a movie out only ever adds to what is there.
use super::encode;
use super::model;
use super::out::{self, Out};
use super::rows::{self, row};
use super::types::GlyphEntry;
use super::writing;
use vstd::prelude::*;

verus! {

pub proof fn lemma_words(o: Out, v: Seq<u32>, n: nat)
    requires
        o.ok(),
        n <= v.len(),
    ensures
        o.extends_to(writing::words(o, v, n)),
        writing::words(o, v, n).len() == o.len() + 4 * n,
    decreases n,
{
    broadcast use out::group_ext;

    if n == 0 {
        out::ext_refl(o);
    } else {
        lemma_words(o, v, (n - 1) as nat);
    }
}

pub proof fn lemma_octets(o: Out, v: Seq<u8>, n: nat)
    requires
        o.ok(),
        n <= v.len(),
    ensures
        o.extends_to(writing::octets(o, v, n)),
        writing::octets(o, v, n).len() == o.len() + n,
    decreases n,
{
    broadcast use out::group_ext;

    if n == 0 {
        out::ext_refl(o);
    } else {
        lemma_octets(o, v, (n - 1) as nat);
    }
}

pub proof fn lemma_vertices(o: Out, v: Seq<(u32, u32)>, n: nat)
    requires
        o.ok(),
        n <= v.len(),
    ensures
        o.extends_to(writing::vertices(o, v, n)),
        writing::vertices(o, v, n).len() == o.len() + 8 * n,
    decreases n,
{
    broadcast use out::group_ext;

    if n == 0 {
        out::ext_refl(o);
    } else {
        lemma_vertices(o, v, (n - 1) as nat);
    }
}

pub proof fn lemma_triangles(o: Out, v: Seq<Seq<i16>>, n: nat)
    requires
        o.ok(),
        n <= v.len(),
    ensures
        o.extends_to(writing::triangles(o, v, n)),
        writing::triangles(o, v, n).len() == o.len() + 6 * n,
    decreases n,
{
    broadcast use out::group_ext;

    if n == 0 {
        out::ext_refl(o);
    } else {
        lemma_triangles(o, v, (n - 1) as nat);
    }
}

pub proof fn lemma_glyphs(o: Out, v: Seq<GlyphEntry>, n: nat)
    requires
        o.ok(),
        n <= v.len(),
    ensures
        o.extends_to(writing::glyphs(o, v, n)),
        writing::glyphs(o, v, n).len() == o.len() + 4 * n,
    decreases n,
{
    broadcast use out::group_ext;

    if n == 0 {
        out::ext_refl(o);
    } else {
        lemma_glyphs(o, v, (n - 1) as nat);
    }
}

pub proof fn lemma_exports(o: Out, v: Seq<model::Export>, n: nat)
    requires
        o.ok(),
        n <= v.len(),
    ensures
        o.extends_to(writing::exports(o, v, n)),
    decreases n,
{
    broadcast use out::group_ext;

    if n == 0 {
        out::ext_refl(o);
    } else {
        lemma_exports(o, v, (n - 1) as nat);
    }
}

pub proof fn lemma_imports(o: Out, v: Seq<model::Import>, n: nat)
    requires
        o.ok(),
        n <= v.len(),
    ensures
        o.extends_to(writing::imports(o, v, n)),
    decreases n,
{
    broadcast use out::group_ext;

    if n == 0 {
        out::ext_refl(o);
    } else {
        lemma_imports(o, v, (n - 1) as nat);
    }
}

pub proof fn lemma_float_cxform(o: Out, c: model::FloatCxForm)
    requires
        o.ok(),
        c.scale.len() == 4,
        c.translate.len() == 4,
    ensures
        o.extends_to(writing::float_cxform(o, c)),
        writing::float_cxform(o, c).len() == o.len() + 32,
{
    broadcast use out::group_ext;

    lemma_words(o, c.scale, 4);
    lemma_words(writing::words(o, c.scale, 4), c.translate, 4);
}

pub proof fn lemma_button_records(o: Out, v: Seq<model::ButtonRecord>, n: nat)
    requires
        o.ok(),
        n <= v.len(),
        forall|i: int|
            0 <= i < v.len() ==> (#[trigger] v[i]).cxform.scale.len() == 4
                && v[i].cxform.translate.len() == 4,
    ensures
        o.extends_to(writing::button_records(o, v, n)),
    decreases n,
{
    broadcast use out::group_ext;

    if n == 0 {
        out::ext_refl(o);
    } else {
        let m = (n - 1) as nat;
        lemma_button_records(o, v, m);
        let a = writing::button_records(o, v, m);
        let r = v[n - 1];
        let b = writing::matrix(
            a.align_ptr().put_i32(r.states).ptr_value(r.character_id as nat).put_i32(r.layer),
            r.matrix,
        );
        assert(a.extends_to(b));
        lemma_float_cxform(b, r.cxform);
    }
}

pub proof fn lemma_slot_row(o: Out, n: nat)
    requires
        o.ok(),
    ensures
        o.extends_to(writing::slot_row(o, n).0),
        row(writing::slot_row(o, n).0, writing::slot_row(o, n).1, 0),
        writing::slot_row(o, n).1.len() == n,
        forall|j: int| 0 <= j < n ==> o.len() <= #[trigger] writing::slot_row(o, n).1[j],
    decreases n,
{
    broadcast use out::group_ext;

    if n == 0 {
        out::ext_refl(o);
        rows::lemma_row_empty(o);
    } else {
        let m = (n - 1) as nat;
        lemma_slot_row(o, m);
        let (a, s) = writing::slot_row(o, m);
        rows::lemma_row_push(a, s);
    }
}

pub proof fn lemma_filter(o: Out, f: model::Filter)
    requires
        o.ok(),
    ensures
        o.extends_to(writing::filter(o, f)),
        0 <= o.len() <= o.align_ptr().len() <= writing::filter(o, f).len(),
{
    broadcast use out::group_ext;

    reveal(writing::filter_body);
    let a = o.align_ptr().put(4, f.filter_id() as nat);
    assert(o.extends_to(a));
    match f {
        model::Filter::GradientGlow {
            colors,
            ratios,
            blur_x,
            blur_y,
            angle,
            distance,
            strength,
            flags,
            ..
        } => {
            let b = a.put(4, (colors.len() as u32) as nat);
            let c = b.ptr_slot();
            let d1 = c.ptr_slot();
            let d = d1.put(4, blur_x as nat).put(4, blur_y as nat).put(4, angle as nat).put(
                4,
                distance as nat,
            ).put(2, strength as nat).put(2, flags as nat).align(4);
            let p1 = b.align_ptr().len();
            let p2 = c.align_ptr().len();
            assert(b.extends_to(b.align_ptr()));
            assert(c.pending(p1, a.ps()));
            assert(c.extends_to(c.align_ptr()));
            assert(c.align_ptr().extends_to(d1));
            assert(d1.pending(p2, a.ps()));
            assert(d1.extends_to(d));
            lemma_words(d, colors, colors.len());
            let w = writing::words(d, colors, colors.len());
            assert(w.pending(p1, a.ps()) && w.pending(p2, a.ps()));
            assert(a.extends_to(w));
            let e = w.ptr_fill(p1, d.len());
            assert(a.extends_to(e));
            assert(o.extends_to(e));
            assert(p1 != p2);
            assert(e.pending(p2, a.ps()));
            lemma_octets(e, ratios, ratios.len());
        },
        model::Filter::ColorMatrix { values } => {
            lemma_words(a, values, values.len());
        },
        _ => {},
    }
}

pub proof fn lemma_filters(base: Out, o: Out, v: Seq<model::Filter>, slots: Seq<int>, n: nat)
    requires
        base.extends_to(o),
        row(o, slots, 0),
        forall|j: int| 0 <= j < slots.len() ==> base.len() <= #[trigger] slots[j],
        n <= v.len(),
        v.len() == slots.len(),
    ensures
        base.extends_to(writing::filters(o, v, slots, n)),
        row(writing::filters(o, v, slots, n), slots, n as int),
        writing::filters(o, v, slots, n).ps() == o.ps(),
        o.len() <= writing::filters(o, v, slots, n).len(),
    decreases n,
{
    broadcast use out::group_ext;

    if n > 0 {
        let m = (n - 1) as nat;
        lemma_filters(base, o, v, slots, m);
        let a = writing::filters(o, v, slots, m);
        let b = writing::filter(a, v[m as int]);
        let place = a.align_ptr().len();
        lemma_filter(a, v[m as int]);
        assert(base.extends_to(b));
        rows::lemma_row_ext(a, b, slots, m as int);
        rows::lemma_row_at(b, slots, m as int);
        rows::lemma_row_fill(b, slots, m as int, place);
        assert(base.extends_to(b.ptr_fill(slots[m as int], place)));
    }
}

pub proof fn lemma_filters_row(o: Out, v: Seq<model::Filter>, slots: Seq<int>, n: nat)
    requires
        o.ok(),
        row(o, slots, 0),
        n <= v.len(),
        v.len() == slots.len(),
    ensures
        row(writing::filters(o, v, slots, n), slots, n as int),
        writing::filters(o, v, slots, n).ok(),
    decreases n,
{
    broadcast use out::group_ext;

    if n > 0 {
        let m = (n - 1) as nat;
        lemma_filters_row(o, v, slots, m);
        let a = writing::filters(o, v, slots, m);
        let b = writing::filter(a, v[m as int]);
        let place = a.align_ptr().len();
        lemma_filter(a, v[m as int]);
        assert(a.extends_to(b));
        rows::lemma_row_ext(a, b, slots, m as int);
        rows::lemma_row_at(b, slots, m as int);
        rows::lemma_row_fill(b, slots, m as int, place);
    }
}

pub proof fn lemma_event_heads(o: Out, v: Seq<model::EventAction>, n: nat)
    requires
        o.ok(),
        n <= v.len(),
    ensures
        o.extends_to(writing::event_heads(o, v, n).0),
        row(writing::event_heads(o, v, n).0, writing::event_heads(o, v, n).1, 0),
        writing::event_heads(o, v, n).1.len() == n,
        forall|j: int| 0 <= j < n ==> o.len() <= #[trigger] writing::event_heads(o, v, n).1[j],
    decreases n,
{
    broadcast use out::group_ext;

    if n == 0 {
        out::ext_refl(o);
        rows::lemma_row_empty(o);
    } else {
        let m = (n - 1) as nat;
        lemma_event_heads(o, v, m);
        let (a, s) = writing::event_heads(o, v, m);
        let b = a.align_ptr().put_i32(v[n - 1].triggers).put_i32(v[n - 1].key_code);
        assert(a.extends_to(b));
        rows::lemma_row_ext(a, b, s, 0);
        rows::lemma_row_push(b, s);
    }
}

pub proof fn lemma_event_streams(base: Out, o: Out, v: Seq<model::EventAction>, slots: Seq<int>, n: nat)
    requires
        base.extends_to(o),
        row(o, slots, 0),
        forall|j: int| 0 <= j < slots.len() ==> base.len() <= #[trigger] slots[j],
        n <= v.len(),
        v.len() == slots.len(),
    ensures
        base.extends_to(writing::event_streams(o, v, slots, n)),
        row(writing::event_streams(o, v, slots, n), slots, n as int),
        writing::event_streams(o, v, slots, n).ps() == o.ps(),
        o.len() <= writing::event_streams(o, v, slots, n).len(),
    decreases n,
{
    broadcast use out::group_ext;

    if n > 0 {
        let m = (n - 1) as nat;
        lemma_event_streams(base, o, v, slots, m);
        let a = writing::event_streams(o, v, slots, m);
        let b = encode::stream(a, v[m as int].actions);
        let place = a.len();
        encode::lemma_block(a, v[m as int].actions, true);
        assert(base.extends_to(b));
        rows::lemma_row_ext(a, b, slots, m as int);
        rows::lemma_row_at(b, slots, m as int);
        rows::lemma_row_fill(b, slots, m as int, place);
        assert(base.extends_to(b.ptr_fill(slots[m as int], place)));
    }
}

pub proof fn lemma_event_streams_row(o: Out, v: Seq<model::EventAction>, slots: Seq<int>, n: nat)
    requires
        o.ok(),
        row(o, slots, 0),
        n <= v.len(),
        v.len() == slots.len(),
    ensures
        row(writing::event_streams(o, v, slots, n), slots, n as int),
        writing::event_streams(o, v, slots, n).ok(),
    decreases n,
{
    broadcast use out::group_ext;

    if n > 0 {
        let m = (n - 1) as nat;
        lemma_event_streams_row(o, v, slots, m);
        let a = writing::event_streams(o, v, slots, m);
        let b = encode::stream(a, v[m as int].actions);
        let place = a.len();
        encode::lemma_block(a, v[m as int].actions, true);
        assert(a.extends_to(b));
        rows::lemma_row_ext(a, b, slots, m as int);
        rows::lemma_row_at(b, slots, m as int);
        rows::lemma_row_fill(b, slots, m as int, place);
    }
}

pub proof fn lemma_event_set(base: Out, o: Out, v: Seq<model::EventAction>, p: int)
    requires
        base.extends_to(o),
        o.pending(p, o.ps()),
        base.len() <= p < o.len(),
    ensures
        base.extends_to(writing::event_set(o, v, p)),
        writing::event_set(o, v, p).ps() == o.ps(),
        o.len() <= writing::event_set(o, v, p).len(),
{
    broadcast use out::group_ext;

    let a = o.align_ptr();
    let b = a.put_i32(v.len() as i32);
    let q = b.align_ptr().len();
    let b2 = b.ptr_slot();
    assert(o.extends_to(b));
    assert(b.extends_to(b.align_ptr()));
    assert(o.extends_to(b2));
    assert(b2.pending(q, o.ps()));
    assert(b2.pending(p, o.ps()));
    let b3 = b2.ptr_fill(p, a.len());
    assert(base.extends_to(b3));
    assert(b3.pending(q, o.ps()));
    let c = b3.align_ptr();
    assert(b3.extends_to(c));
    lemma_event_heads(c, v, v.len());
    let (d, slots) = writing::event_heads(c, v, v.len());
    assert(d.pending(q, o.ps()));
    let d2 = d.ptr_fill(q, c.len());
    assert(base.extends_to(d2));
    rows::lemma_row_other(d, slots, 0, q, c.len());
    lemma_event_streams(base, d2, v, slots, v.len());
}

pub proof fn lemma_filter_set(base: Out, o: Out, v: Seq<model::Filter>, p: int)
    requires
        base.extends_to(o),
        o.pending(p, o.ps()),
        base.len() <= p < o.len(),
    ensures
        base.extends_to(writing::filter_set(o, v, p)),
        o.len() <= writing::filter_set(o, v, p).len(),
{
    broadcast use out::group_ext;

    let a = o.align_ptr();
    lemma_slot_row(a, v.len());
    let (b, slots) = writing::slot_row(a, v.len());
    assert(o.extends_to(b));
    assert(b.pending(p, o.ps()));
    let c = b.ptr_fill(p, a.len());
    assert(base.extends_to(c));
    rows::lemma_row_other(b, slots, 0, p, a.len());
    lemma_filters(base, c, v, slots, v.len());
}

pub proof fn lemma_place_head(o: Out, p: model::PlaceObject)
    requires
        o.ok(),
    ensures
        o.extends_to(writing::place_head(o, p)),
        o.len() <= writing::place_head(o, p).len(),
        o.ps() == writing::place_head(o, p).ps(),
{
    broadcast use out::group_ext;

    match p.name {
        Some(_) => {},
        None => {},
    }
}

pub proof fn lemma_place_object(o: Out, p: model::PlaceObject)
    requires
        o.ok(),
    ensures
        o.extends_to(writing::place_object(o, p)),
{
    broadcast use out::group_ext;

    reveal(writing::place_object);
    lemma_place_head(o, p);
    let a = writing::place_head(o, p);
    let q = a.align_ptr().len();
    let b = a.ptr_slot();
    assert(a.extends_to(a.align_ptr()));
    assert(a.align_ptr().extends_to(b));
    assert(b.pending(q, o.ps()));
    assert(o.extends_to(b));
    if p.is_place_object_3() {
        let c = b.put_i32(writing::or(p.blend_mode, (-1) as i32)).put(
            4,
            (p.filters.len() as u32) as nat,
        );
        let r = c.align_ptr().len();
        let c2 = c.ptr_slot();
        assert(b.extends_to(c));
        assert(c.extends_to(c.align_ptr()));
        assert(c.align_ptr().extends_to(c2));
        assert(c2.pending(r, o.ps()));
        assert(c2.pending(q, o.ps()));
        assert(o.extends_to(c2));
        match p.clip_actions {
            Some(v) => {
                // The event set fills `q` and leaves `r` alone.
                let a2 = c2.align_ptr();
                lemma_event_set(o, c2, v, q);
                lemma_event_set_keeps(c2, v, q, r);
                lemma_filter_set(o, writing::event_set(c2, v, q), p.filters, r);
            },
            None => {
                lemma_filter_set(o, c2, p.filters, r);
            },
        }
    } else {
        match p.clip_actions {
            Some(v) => {
                lemma_event_set(o, b, v, q);
            },
            None => {},
        }
    }
}

/// A set of event handlers fills no slot but its own.
pub proof fn lemma_event_set_keeps(o: Out, v: Seq<model::EventAction>, p: int, q: int)
    requires
        o.ok(),
        o.pending(p, o.ps()),
        o.pending(q, o.ps()),
        p != q,
        0 <= p < o.len(),
        0 <= q < o.len(),
    ensures
        writing::event_set(o, v, p).pending(q, o.ps()),
        writing::event_set(o, v, p).ok(),
{
    broadcast use out::group_ext;

    let a = o.align_ptr();
    let b = a.put_i32(v.len() as i32);
    let s = b.align_ptr().len();
    let b2 = b.ptr_slot();
    assert(o.extends_to(b));
    assert(b.extends_to(b.align_ptr()));
    assert(o.extends_to(b2));
    assert(b2.pending(s, o.ps()));
    assert(b2.pending(p, o.ps()));
    assert(b2.pending(q, o.ps()));
    let b3 = b2.ptr_fill(p, a.len());
    assert(b3.pending(s, o.ps()));
    assert(b3.pending(q, o.ps()));
    out::ext_refl(b3);
    let c = b3.align_ptr();
    assert(b3.extends_to(c));
    lemma_event_heads(c, v, v.len());
    let (d, slots) = writing::event_heads(c, v, v.len());
    assert(d.pending(s, o.ps()));
    assert(d.pending(q, o.ps()));
    let d2 = d.ptr_fill(s, c.len());
    assert(d2.pending(q, o.ps()));
    rows::lemma_row_other(d, slots, 0, s, c.len());
    lemma_event_streams_keep(d2, v, slots, v.len(), q);
}

proof fn lemma_event_streams_keep(
    o: Out,
    v: Seq<model::EventAction>,
    slots: Seq<int>,
    n: nat,
    q: int,
)
    requires
        o.ok(),
        row(o, slots, 0),
        o.pending(q, o.ps()),
        forall|j: int| 0 <= j < slots.len() ==> q < #[trigger] slots[j],
        n <= v.len(),
        v.len() == slots.len(),
    ensures
        writing::event_streams(o, v, slots, n).pending(q, o.ps()),
        writing::event_streams(o, v, slots, n).ok(),
        writing::event_streams(o, v, slots, n).ps() == o.ps(),
        row(writing::event_streams(o, v, slots, n), slots, n as int),
    decreases n,
{
    broadcast use out::group_ext;

    if n > 0 {
        let m = (n - 1) as nat;
        lemma_event_streams_keep(o, v, slots, m, q);
        let a = writing::event_streams(o, v, slots, m);
        encode::lemma_block(a, v[m as int].actions, true);
        let b = encode::stream(a, v[m as int].actions);
        rows::lemma_row_ext(a, b, slots, m as int);
        rows::lemma_row_at(b, slots, m as int);
        rows::lemma_row_fill(b, slots, m as int, a.len());
    }
}

pub proof fn lemma_stream_behind(o: Out, s: Seq<model::Instruction>)
    requires
        o.ok(),
    ensures
        o.extends_to(writing::stream_behind(o, s)),
        o.ptr_slot().extends_to(encode::stream(o.ptr_slot(), s)),
        encode::stream(o.ptr_slot(), s).pending(o.align_ptr().len(), o.ps()),
{
    broadcast use out::group_ext;

    let a = o.ptr_slot();
    assert(o.extends_to(o.align_ptr()));
    assert(o.align_ptr().extends_to(a));
    encode::lemma_block(a, s, true);
    assert(a.pending(o.align_ptr().len(), o.ps()));
}

pub proof fn lemma_control(o: Out, c: model::Control)
    requires
        o.ok(),
    ensures
        o.extends_to(writing::control(o, c)),
{
    broadcast use out::group_ext;

    let a = o.align_ptr().put_i32(c.type_id()).align_ptr();
    assert(o.extends_to(a));
    match c {
        model::Control::Action(s) => {
            lemma_stream_behind(a, s);
        },
        model::Control::PlaceObject(p) => {
            lemma_place_object(a, p);
        },
        model::Control::InitAction { sprite_id, actions } => {
            lemma_stream_behind(a.put_i32(sprite_id), actions);
        },
        _ => {},
    }
}

pub proof fn lemma_controls(base: Out, o: Out, v: Seq<model::Control>, slots: Seq<int>, n: nat)
    requires
        base.extends_to(o),
        row(o, slots, 0),
        forall|j: int| 0 <= j < slots.len() ==> base.len() <= #[trigger] slots[j],
        n <= v.len(),
        v.len() == slots.len(),
    ensures
        base.extends_to(writing::controls(o, v, slots, n)),
        row(writing::controls(o, v, slots, n), slots, n as int),
        writing::controls(o, v, slots, n).ps() == o.ps(),
        o.len() <= writing::controls(o, v, slots, n).len(),
    decreases n,
{
    broadcast use out::group_ext;

    if n > 0 {
        let m = (n - 1) as nat;
        lemma_controls(base, o, v, slots, m);
        let a = writing::controls(o, v, slots, m);
        let b = writing::control(a, v[m as int]);
        let place = a.align_ptr().len();
        lemma_control(a, v[m as int]);
        assert(base.extends_to(b));
        rows::lemma_row_ext(a, b, slots, m as int);
        rows::lemma_row_at(b, slots, m as int);
        rows::lemma_row_fill(b, slots, m as int, place);
        assert(base.extends_to(b.ptr_fill(slots[m as int], place)));
    }
}

pub proof fn lemma_controls_row(o: Out, v: Seq<model::Control>, slots: Seq<int>, n: nat)
    requires
        o.ok(),
        row(o, slots, 0),
        n <= v.len(),
        v.len() == slots.len(),
    ensures
        row(writing::controls(o, v, slots, n), slots, n as int),
        writing::controls(o, v, slots, n).ok(),
    decreases n,
{
    broadcast use out::group_ext;

    if n > 0 {
        let m = (n - 1) as nat;
        lemma_controls_row(o, v, slots, m);
        let a = writing::controls(o, v, slots, m);
        let b = writing::control(a, v[m as int]);
        let place = a.align_ptr().len();
        lemma_control(a, v[m as int]);
        assert(a.extends_to(b));
        rows::lemma_row_ext(a, b, slots, m as int);
        rows::lemma_row_at(b, slots, m as int);
        rows::lemma_row_fill(b, slots, m as int, place);
    }
}

pub proof fn lemma_frame_body(base: Out, o: Out, f: model::Frame, p: int)
    requires
        base.extends_to(o),
        o.pending(p, o.ps()),
        base.len() <= p < o.len(),
    ensures
        base.extends_to(writing::frame_body(o, f, p)),
        writing::frame_body(o, f, p).ps() == o.ps(),
        o.len() <= writing::frame_body(o, f, p).len(),
{
    broadcast use out::group_ext;

    let a = o.align_ptr();
    lemma_slot_row(a, f.controls.len());
    let (b, slots) = writing::slot_row(a, f.controls.len());
    assert(o.extends_to(b));
    assert(b.pending(p, o.ps()));
    let c = b.ptr_fill(p, a.len());
    assert(base.extends_to(c));
    rows::lemma_row_other(b, slots, 0, p, a.len());
    lemma_controls(base, c, f.controls, slots, f.controls.len());
}

/// A frame fills no slot but its own.
pub proof fn lemma_frame_body_keeps(o: Out, f: model::Frame, slots: Seq<int>, i: int)
    requires
        o.ok(),
        row(o, slots, i),
        0 <= i < slots.len(),
    ensures
        row(writing::frame_body(o, f, slots[i]), slots, i + 1),
        writing::frame_body(o, f, slots[i]).ok(),
{
    broadcast use out::group_ext;

    rows::lemma_row_at(o, slots, i);
    assert forall|j: int| 0 <= j < slots.len() implies #[trigger] slots[j] < o.len() by {
        reveal(row);
    }
    let p = slots[i];
    let a = o.align_ptr();
    lemma_slot_row(a, f.controls.len());
    let (b, own) = writing::slot_row(a, f.controls.len());
    assert(o.extends_to(b));
    rows::lemma_row_ext(o, b, slots, i);
    rows::lemma_row_fill(b, slots, i, a.len());
    let c = b.ptr_fill(p, a.len());
    rows::lemma_row_other(b, own, 0, p, a.len());
    lemma_controls_keep(c, f.controls, own, f.controls.len(), slots, i + 1, o.len());
}

proof fn lemma_controls_keep(
    o: Out,
    v: Seq<model::Control>,
    own: Seq<int>,
    n: nat,
    slots: Seq<int>,
    i: int,
    limit: int,
)
    requires
        o.ok(),
        row(o, own, 0),
        row(o, slots, i),
        0 <= i,
        n <= v.len(),
        v.len() == own.len(),
        forall|j: int| 0 <= j < own.len() ==> limit <= #[trigger] own[j],
        forall|j: int| 0 <= j < slots.len() ==> #[trigger] slots[j] < limit,
    ensures
        row(writing::controls(o, v, own, n), slots, i),
        row(writing::controls(o, v, own, n), own, n as int),
        writing::controls(o, v, own, n).ok(),
    decreases n,
{
    broadcast use out::group_ext;

    if n > 0 {
        let m = (n - 1) as nat;
        lemma_controls_keep(o, v, own, m, slots, i, limit);
        let a = writing::controls(o, v, own, m);
        lemma_control(a, v[m as int]);
        let b = writing::control(a, v[m as int]);
        let place = a.align_ptr().len();
        rows::lemma_row_ext(a, b, own, m as int);
        rows::lemma_row_ext(a, b, slots, i);
        rows::lemma_row_at(b, own, m as int);
        rows::lemma_row_fill(b, own, m as int, place);
        rows::lemma_row_other(b, slots, i, own[m as int], place);
    }
}

pub proof fn lemma_frame_heads(o: Out, v: Seq<model::Frame>, n: nat)
    requires
        o.ok(),
        n <= v.len(),
    ensures
        o.extends_to(writing::frame_heads(o, v, n).0),
        row(writing::frame_heads(o, v, n).0, writing::frame_heads(o, v, n).1, 0),
        writing::frame_heads(o, v, n).1.len() == n,
        forall|j: int| 0 <= j < n ==> o.len() <= #[trigger] writing::frame_heads(o, v, n).1[j],
    decreases n,
{
    broadcast use out::group_ext;

    if n == 0 {
        out::ext_refl(o);
        rows::lemma_row_empty(o);
    } else {
        let m = (n - 1) as nat;
        lemma_frame_heads(o, v, m);
        let (a, s) = writing::frame_heads(o, v, m);
        let b = a.align_ptr().put_i32(v[n - 1].controls.len() as i32);
        assert(a.extends_to(b));
        rows::lemma_row_ext(a, b, s, 0);
        rows::lemma_row_push(b, s);
    }
}

pub proof fn lemma_frame_bodies(base: Out, o: Out, v: Seq<model::Frame>, slots: Seq<int>, n: nat)
    requires
        base.extends_to(o),
        row(o, slots, 0),
        forall|j: int| 0 <= j < slots.len() ==> base.len() <= #[trigger] slots[j],
        n <= v.len(),
        v.len() == slots.len(),
    ensures
        base.extends_to(writing::frame_bodies(o, v, slots, n)),
        row(writing::frame_bodies(o, v, slots, n), slots, n as int),
        writing::frame_bodies(o, v, slots, n).ps() == o.ps(),
        o.len() <= writing::frame_bodies(o, v, slots, n).len(),
    decreases n,
{
    broadcast use out::group_ext;

    if n > 0 {
        let m = (n - 1) as nat;
        lemma_frame_bodies(base, o, v, slots, m);
        let a = writing::frame_bodies(o, v, slots, m);
        rows::lemma_row_at(a, slots, m as int);
        lemma_frame_body(base, a, v[m as int], slots[m as int]);
        lemma_frame_body_keeps(a, v[m as int], slots, m as int);
    }
}

pub proof fn lemma_frames(o: Out, v: Seq<model::Frame>)
    requires
        o.ok(),
    ensures
        o.extends_to(writing::frames(o, v)),
{
    broadcast use out::group_ext;

    if v.len() == 0 {
        out::ext_refl(o);
    } else {
        let a = o.align_ptr();
        lemma_frame_heads(a, v, v.len());
        let (b, slots) = writing::frame_heads(a, v, v.len());
        lemma_frame_bodies(a, b, v, slots, v.len());
    }
}

pub proof fn lemma_action_heads(o: Out, v: Seq<model::ButtonAction>, n: nat)
    requires
        o.ok(),
        n <= v.len(),
    ensures
        o.extends_to(writing::action_heads(o, v, n).0),
        row(writing::action_heads(o, v, n).0, writing::action_heads(o, v, n).1, 0),
        writing::action_heads(o, v, n).1.len() == n,
        forall|j: int| 0 <= j < n ==> o.len() <= #[trigger] writing::action_heads(o, v, n).1[j],
    decreases n,
{
    broadcast use out::group_ext;

    if n == 0 {
        out::ext_refl(o);
        rows::lemma_row_empty(o);
    } else {
        let m = (n - 1) as nat;
        lemma_action_heads(o, v, m);
        let (a, s) = writing::action_heads(o, v, m);
        let b = a.align_ptr().put_i32(v[n - 1].conditions);
        assert(a.extends_to(b));
        rows::lemma_row_ext(a, b, s, 0);
        rows::lemma_row_push(b, s);
    }
}

pub proof fn lemma_action_streams(base: Out, o: Out, v: Seq<model::ButtonAction>, slots: Seq<int>, n: nat)
    requires
        base.extends_to(o),
        row(o, slots, 0),
        forall|j: int| 0 <= j < slots.len() ==> base.len() <= #[trigger] slots[j],
        n <= v.len(),
        v.len() == slots.len(),
    ensures
        base.extends_to(writing::action_streams(o, v, slots, n)),
        row(writing::action_streams(o, v, slots, n), slots, n as int),
        writing::action_streams(o, v, slots, n).ps() == o.ps(),
        o.len() <= writing::action_streams(o, v, slots, n).len(),
    decreases n,
{
    broadcast use out::group_ext;

    if n > 0 {
        let m = (n - 1) as nat;
        lemma_action_streams(base, o, v, slots, m);
        let a = writing::action_streams(o, v, slots, m);
        let b = encode::stream(a, v[m as int].actions);
        let place = a.len();
        encode::lemma_block(a, v[m as int].actions, true);
        assert(base.extends_to(b));
        rows::lemma_row_ext(a, b, slots, m as int);
        rows::lemma_row_at(b, slots, m as int);
        rows::lemma_row_fill(b, slots, m as int, place);
        assert(base.extends_to(b.ptr_fill(slots[m as int], place)));
    }
}

pub proof fn lemma_action_streams_row(o: Out, v: Seq<model::ButtonAction>, slots: Seq<int>, n: nat)
    requires
        o.ok(),
        row(o, slots, 0),
        n <= v.len(),
        v.len() == slots.len(),
    ensures
        row(writing::action_streams(o, v, slots, n), slots, n as int),
        writing::action_streams(o, v, slots, n).ok(),
    decreases n,
{
    broadcast use out::group_ext;

    if n > 0 {
        let m = (n - 1) as nat;
        lemma_action_streams_row(o, v, slots, m);
        let a = writing::action_streams(o, v, slots, m);
        let b = encode::stream(a, v[m as int].actions);
        let place = a.len();
        encode::lemma_block(a, v[m as int].actions, true);
        assert(a.extends_to(b));
        rows::lemma_row_ext(a, b, slots, m as int);
        rows::lemma_row_at(b, slots, m as int);
        rows::lemma_row_fill(b, slots, m as int, place);
    }
}

/// The streams of button actions fill no slots but their own.
pub proof fn lemma_action_streams_keep(
    o: Out,
    v: Seq<model::ButtonAction>,
    own: Seq<int>,
    n: nat,
    slots: Seq<int>,
    i: int,
    limit: int,
)
    requires
        o.ok(),
        row(o, own, 0),
        row(o, slots, i),
        0 <= i,
        n <= v.len(),
        v.len() == own.len(),
        forall|j: int| 0 <= j < own.len() ==> limit <= #[trigger] own[j],
        forall|j: int| 0 <= j < slots.len() ==> #[trigger] slots[j] < limit,
    ensures
        row(writing::action_streams(o, v, own, n), slots, i),
        row(writing::action_streams(o, v, own, n), own, n as int),
        writing::action_streams(o, v, own, n).ok(),
    decreases n,
{
    broadcast use out::group_ext;

    if n > 0 {
        let m = (n - 1) as nat;
        lemma_action_streams_keep(o, v, own, m, slots, i, limit);
        let a = writing::action_streams(o, v, own, m);
        encode::lemma_block(a, v[m as int].actions, true);
        let b = encode::stream(a, v[m as int].actions);
        rows::lemma_row_ext(a, b, own, m as int);
        rows::lemma_row_ext(a, b, slots, i);
        rows::lemma_row_at(b, own, m as int);
        rows::lemma_row_fill(b, own, m as int, a.len());
        rows::lemma_row_other(b, slots, i, own[m as int], a.len());
    }
}

pub proof fn lemma_button_head(o: Out, b: model::Button)
    requires
        o.ok(),
    ensures
        o.extends_to(writing::button_head(o, b).0),
        row(writing::button_head(o, b).0, writing::button_head(o, b).1, 0),
        writing::button_head(o, b).1.len() == 5,
        forall|j: int| 0 <= j < 5 ==> o.len() <= #[trigger] writing::button_head(o, b).1[j],
{
    broadcast use out::group_ext;

    let flag: i32 = if b.is_menu {
        1
    } else {
        0
    };
    let a1 = writing::rect(o.put_i32(flag), b.hit_test_bounds).put_i32(
        b.hit_test_triangles.len() as i32,
    ).put_i32(b.hit_test_vertices.len() as i32);
    assert(o.extends_to(a1));
    let s0 = Seq::<int>::empty();
    rows::lemma_row_empty(a1);
    rows::lemma_row_push(a1, s0);
    let a2 = a1.ptr_slot();
    let s1 = s0.push(a1.align_ptr().len());
    rows::lemma_row_push(a2, s1);
    let s2 = s1.push(a2.align_ptr().len());
    let a3 = a2.ptr_slot().put_i32(b.records.len() as i32);
    assert(a2.ptr_slot().extends_to(a3));
    rows::lemma_row_ext(a2.ptr_slot(), a3, s2, 0);
    rows::lemma_row_push(a3, s2);
    let s3 = s2.push(a3.align_ptr().len());
    let a4 = a3.ptr_slot().put_i32(b.actions.len() as i32);
    assert(a3.ptr_slot().extends_to(a4));
    rows::lemma_row_ext(a3.ptr_slot(), a4, s3, 0);
    rows::lemma_row_push(a4, s3);
    let s4 = s3.push(a4.align_ptr().len());
    let a5 = a4.ptr_slot();
    rows::lemma_row_push(a5, s4);
    let s5 = s4.push(a5.align_ptr().len());
    assert(s5 =~= writing::button_head(o, b).1);
    assert(o.extends_to(a2) && o.extends_to(a3) && o.extends_to(a4) && o.extends_to(a5));
}

/// Whether the color transforms of a button are whole.
pub open spec fn button_shaped(b: model::Button) -> bool {
    forall|i: int|
        0 <= i < b.records.len() ==> (#[trigger] b.records[i]).cxform.scale.len() == 4
            && b.records[i].cxform.translate.len() == 4
}

pub proof fn lemma_button(o: Out, b: model::Button)
    requires
        o.ok(),
        button_shaped(b),
    ensures
        o.extends_to(writing::button(o, b)),
{
    broadcast use out::group_ext;

    reveal(writing::button);
    lemma_button_head(o, b);
    let (h, p) = writing::button_head(o, b);
    let v = h.align(4);
    assert(h.extends_to(v));
    lemma_vertices(v, b.hit_test_vertices, b.hit_test_vertices.len());
    let v1 = writing::vertices(v, b.hit_test_vertices, b.hit_test_vertices.len());
    assert(h.extends_to(v1));
    rows::lemma_row_ext(h, v1, p, 0);
    rows::lemma_row_at(v1, p, 0);
    rows::lemma_row_fill(v1, p, 0, v.len());
    let v2 = v1.ptr_fill(p[0], v.len());
    assert(o.extends_to(v2));
    let t = v2.align(2);
    assert(v2.extends_to(t));
    lemma_triangles(t, b.hit_test_triangles, b.hit_test_triangles.len());
    let t1 = writing::triangles(t, b.hit_test_triangles, b.hit_test_triangles.len());
    assert(v2.extends_to(t1));
    rows::lemma_row_ext(v2, t1, p, 1);
    rows::lemma_row_at(t1, p, 1);
    rows::lemma_row_fill(t1, p, 1, t.len());
    let t2 = t1.ptr_fill(p[1], t.len());
    assert(o.extends_to(t2));
    let r = t2.align_ptr();
    assert(t2.extends_to(r));
    lemma_button_records(r, b.records, b.records.len());
    let r1 = writing::button_records(r, b.records, b.records.len());
    assert(t2.extends_to(r1));
    rows::lemma_row_ext(t2, r1, p, 2);
    rows::lemma_row_at(r1, p, 2);
    rows::lemma_row_fill(r1, p, 2, r.len());
    let r2 = r1.ptr_fill(p[2], r.len());
    assert(o.extends_to(r2));
    let c = r2.align_ptr();
    assert(r2.extends_to(c));
    lemma_action_heads(c, b.actions, b.actions.len());
    let (c2, slots) = writing::action_heads(c, b.actions, b.actions.len());
    assert(r2.extends_to(c2));
    rows::lemma_row_ext(r2, c2, p, 3);
    rows::lemma_row_at(c2, p, 3);
    rows::lemma_row_fill(c2, p, 3, c.len());
    let c3 = c2.ptr_fill(p[3], c.len());
    assert(o.extends_to(c3));
    assert forall|j: int| 0 <= j < p.len() implies #[trigger] p[j] < c.len() by {
        reveal(row);
    }
    rows::lemma_row_other(c2, slots, 0, p[3], c.len());
    lemma_action_streams(o, c3, b.actions, slots, b.actions.len());
    lemma_action_streams_keep(c3, b.actions, slots, b.actions.len(), p, 4, c.len());
    let s = writing::action_streams(c3, b.actions, slots, b.actions.len());
    rows::lemma_row_at(s, p, 4);
    match b.sounds {
        Some(x) => {
            let a = s.align_ptr();
            let z = a.ptr_value(x.over_up_to_idle as nat).ptr_value(
                x.idle_to_over_up as nat,
            ).ptr_value(x.over_up_to_over_down as nat).ptr_value(x.over_down_to_over_up as nat);
            assert(s.extends_to(z));
        },
        None => {},
    }
}

/// Whether the color transforms of static text are whole.
pub open spec fn text_shaped(v: Seq<model::StaticTextRecord>) -> bool {
    forall|i: int|
        0 <= i < v.len() ==> (#[trigger] v[i]).cxform.scale.len() == 4
            && v[i].cxform.translate.len() == 4
}

pub proof fn lemma_text_heads(o: Out, v: Seq<model::StaticTextRecord>, n: nat)
    requires
        o.ok(),
        n <= v.len(),
        text_shaped(v),
    ensures
        o.extends_to(writing::text_heads(o, v, n).0),
        row(writing::text_heads(o, v, n).0, writing::text_heads(o, v, n).1, 0),
        writing::text_heads(o, v, n).1.len() == n,
        forall|j: int| 0 <= j < n ==> o.len() <= #[trigger] writing::text_heads(o, v, n).1[j],
    decreases n,
{
    broadcast use out::group_ext;

    if n == 0 {
        out::ext_refl(o);
        rows::lemma_row_empty(o);
    } else {
        let m = (n - 1) as nat;
        lemma_text_heads(o, v, m);
        let (a, s) = writing::text_heads(o, v, m);
        let r = v[n - 1];
        lemma_float_cxform(a.align_ptr().put_i32(r.font_id), r.cxform);
        let b = writing::float_cxform(a.align_ptr().put_i32(r.font_id), r.cxform).put(
            4,
            r.x_offset as nat,
        ).put(4, r.y_offset as nat).put(4, r.scale as nat).put_i32(r.glyphs.len() as i32);
        assert(a.extends_to(b));
        rows::lemma_row_ext(a, b, s, 0);
        rows::lemma_row_push(b, s);
    }
}

pub proof fn lemma_text_glyphs(base: Out, o: Out, v: Seq<model::StaticTextRecord>, slots: Seq<int>, n: nat)
    requires
        base.extends_to(o),
        row(o, slots, 0),
        forall|j: int| 0 <= j < slots.len() ==> base.len() <= #[trigger] slots[j],
        n <= v.len(),
        v.len() == slots.len(),
    ensures
        base.extends_to(writing::text_glyphs(o, v, slots, n)),
        row(writing::text_glyphs(o, v, slots, n), slots, n as int),
        writing::text_glyphs(o, v, slots, n).ps() == o.ps(),
        o.len() <= writing::text_glyphs(o, v, slots, n).len(),
    decreases n,
{
    broadcast use out::group_ext;

    if n > 0 {
        let m = (n - 1) as nat;
        lemma_text_glyphs(base, o, v, slots, m);
        let a = writing::text_glyphs(o, v, slots, m);
        let x = a.align(2);
        assert(a.extends_to(x));
        lemma_glyphs(x, v[m as int].glyphs, v[m as int].glyphs.len());
        let b = writing::glyphs(x, v[m as int].glyphs, v[m as int].glyphs.len());
        let place = x.len();
        assert(base.extends_to(b));
        rows::lemma_row_ext(a, b, slots, m as int);
        rows::lemma_row_at(b, slots, m as int);
        rows::lemma_row_fill(b, slots, m as int, place);
        assert(base.extends_to(b.ptr_fill(slots[m as int], place)));
    }
}

pub proof fn lemma_text_glyphs_row(o: Out, v: Seq<model::StaticTextRecord>, slots: Seq<int>, n: nat)
    requires
        o.ok(),
        row(o, slots, 0),
        n <= v.len(),
        v.len() == slots.len(),
    ensures
        row(writing::text_glyphs(o, v, slots, n), slots, n as int),
        writing::text_glyphs(o, v, slots, n).ok(),
    decreases n,
{
    broadcast use out::group_ext;

    if n > 0 {
        let m = (n - 1) as nat;
        lemma_text_glyphs_row(o, v, slots, m);
        let a = writing::text_glyphs(o, v, slots, m);
        let x = a.align(2);
        assert(a.extends_to(x));
        lemma_glyphs(x, v[m as int].glyphs, v[m as int].glyphs.len());
        let b = writing::glyphs(x, v[m as int].glyphs, v[m as int].glyphs.len());
        let place = x.len();
        assert(a.extends_to(b));
        rows::lemma_row_ext(a, b, slots, m as int);
        rows::lemma_row_at(b, slots, m as int);
        rows::lemma_row_fill(b, slots, m as int, place);
    }
}

pub proof fn lemma_static_text(o: Out, t: model::StaticText)
    requires
        o.ok(),
        text_shaped(t.records),
    ensures
        o.extends_to(writing::static_text(o, t)),
{
    broadcast use out::group_ext;

    let a = writing::matrix(writing::rect(o, t.bounds), t.matrix).put_i32(t.records.len() as i32);
    assert(o.extends_to(a));
    let p = a.align_ptr().len();
    assert(a.extends_to(a.align_ptr()));
    let b1 = a.ptr_slot();
    assert(a.align_ptr().extends_to(b1));
    assert(b1.pending(p, o.ps()));
    let b = b1.align_ptr();
    assert(b1.extends_to(b));
    lemma_text_heads(b, t.records, t.records.len());
    let (c, slots) = writing::text_heads(b, t.records, t.records.len());
    assert(c.pending(p, o.ps()));
    let d = c.ptr_fill(p, b.len());
    assert(o.extends_to(d));
    rows::lemma_row_other(c, slots, 0, p, b.len());
    lemma_text_glyphs(o, d, t.records, slots, t.records.len());
}

pub proof fn lemma_sprite(o: Out, v: Seq<model::Frame>)
    requires
        o.ok(),
    ensures
        o.extends_to(writing::sprite(o, v)),
{
    broadcast use out::group_ext;

    let a = o.put_i32(v.len() as i32);
    assert(o.extends_to(a));
    let p = a.align_ptr().len();
    assert(a.extends_to(a.align_ptr()));
    assert(a.align_ptr().extends_to(a.ptr_slot()));
    assert(a.ptr_slot().pending(p, o.ps()));
    let b = a.ptr_slot().ptr_value(0);
    assert(a.ptr_slot().extends_to(b));
    lemma_frames(b, v);
}

/// Whether the color transforms of a character are whole.
pub open spec fn character_shaped(c: model::Character) -> bool {
    match c {
        model::Character::Button(b) => button_shaped(b),
        model::Character::StaticText(t) => text_shaped(t.records),
        _ => true,
    }
}

pub proof fn lemma_character(o: Out, decoupled: bool, c: model::Character, index: nat)
    requires
        o.ok(),
        character_shaped(c),
    ensures
        o.extends_to(writing::character(o, decoupled, c, index)),
{
    broadcast use out::group_ext;

    reveal(writing::character);
    let a = writing::char_prelude(o, decoupled, c.type_id(), writing::decoupled_data(c));
    assert(o.extends_to(a));
    match c {
        model::Character::Button(b) => {
            lemma_button(a, b);
        },
        model::Character::Sprite(f) => {
            lemma_sprite(a, f);
        },
        model::Character::StaticText(t) => {
            lemma_static_text(a, t);
        },
        _ => {},
    }
}

/// Whether the color transforms of all characters are whole.
pub open spec fn slots_shaped(v: Seq<model::CharacterSlot>) -> bool {
    forall|i: int|
        0 <= i < v.len() ==> (#[trigger] v[i] matches model::CharacterSlot::Character(c)
            ==> character_shaped(c))
}

pub proof fn lemma_characters(
    base: Out,
    o: Out,
    decoupled: bool,
    root: int,
    v: Seq<model::CharacterSlot>,
    slots: Seq<int>,
    n: nat,
)
    requires
        base.extends_to(o),
        row(o, slots, 0),
        forall|j: int| 0 <= j < slots.len() ==> base.len() <= #[trigger] slots[j],
        n <= v.len(),
        v.len() == slots.len(),
        slots_shaped(v),
    ensures
        base.extends_to(writing::characters(o, decoupled, root, v, slots, n)),
        row(writing::characters(o, decoupled, root, v, slots, n), slots, n as int),
        writing::characters(o, decoupled, root, v, slots, n).ps() == o.ps(),
        o.len() <= writing::characters(o, decoupled, root, v, slots, n).len(),
    decreases n,
{
    broadcast use out::group_ext;

    if n > 0 {
        let m = (n - 1) as nat;
        lemma_characters(base, o, decoupled, root, v, slots, m);
        let a = writing::characters(o, decoupled, root, v, slots, m);
        match v[m as int] {
            model::CharacterSlot::Root => {
                rows::lemma_row_at(a, slots, m as int);
                rows::lemma_row_fill(a, slots, m as int, root);
            },
            model::CharacterSlot::Empty => {
                rows::lemma_row_at(a, slots, m as int);
                rows::lemma_row_fill(a, slots, m as int, 0);
            },
            model::CharacterSlot::Character(c) => {
                lemma_character(a, decoupled, c, m);
                let b = writing::character(a, decoupled, c, m);
                assert(base.extends_to(b));
                rows::lemma_row_ext(a, b, slots, m as int);
                rows::lemma_row_at(b, slots, m as int);
                rows::lemma_row_fill(b, slots, m as int, a.align_ptr().len());
            },
        }
    }
}

pub proof fn lemma_frame_bodies_row(o: Out, v: Seq<model::Frame>, slots: Seq<int>, n: nat)
    requires
        o.ok(),
        row(o, slots, 0),
        n <= v.len(),
        v.len() == slots.len(),
    ensures
        row(writing::frame_bodies(o, v, slots, n), slots, n as int),
        writing::frame_bodies(o, v, slots, n).ok(),
    decreases n,
{
    if n > 0 {
        let m = (n - 1) as nat;
        lemma_frame_bodies_row(o, v, slots, m);
        lemma_frame_body_keeps(
            writing::frame_bodies(o, v, slots, m),
            v[m as int],
            slots,
            m as int,
        );
    }
}

pub proof fn lemma_characters_row(
    o: Out,
    decoupled: bool,
    root: int,
    v: Seq<model::CharacterSlot>,
    slots: Seq<int>,
    n: nat,
)
    requires
        o.ok(),
        row(o, slots, 0),
        n <= v.len(),
        v.len() == slots.len(),
        slots_shaped(v),
    ensures
        row(writing::characters(o, decoupled, root, v, slots, n), slots, n as int),
        writing::characters(o, decoupled, root, v, slots, n).ok(),
    decreases n,
{
    broadcast use out::group_ext;

    if n > 0 {
        let m = (n - 1) as nat;
        lemma_characters_row(o, decoupled, root, v, slots, m);
        let a = writing::characters(o, decoupled, root, v, slots, m);
        match v[m as int] {
            model::CharacterSlot::Root => {
                rows::lemma_row_at(a, slots, m as int);
                rows::lemma_row_fill(a, slots, m as int, root);
            },
            model::CharacterSlot::Empty => {
                rows::lemma_row_at(a, slots, m as int);
                rows::lemma_row_fill(a, slots, m as int, 0);
            },
            model::CharacterSlot::Character(c) => {
                lemma_character(a, decoupled, c, m);
                let b = writing::character(a, decoupled, c, m);
                rows::lemma_row_ext(a, b, slots, m as int);
                rows::lemma_row_at(b, slots, m as int);
                rows::lemma_row_fill(b, slots, m as int, a.align_ptr().len());
            },
        }
    }
}

/// The four slots of the root character are different ones.
pub proof fn lemma_row_four(o: Out, p: Seq<int>)
    requires
        row(o, p, 0),
        p.len() == 4,
    ensures
        o.pending(p[0], o.ps()),
        o.pending(p[1], o.ps()),
        o.pending(p[2], o.ps()),
        o.pending(p[3], o.ps()),
        0 <= p[0] < p[1] < p[2] < p[3] < o.len(),
{
    reveal(row);
}

/// The characters fill no slots but their own.
pub proof fn lemma_characters_keep(
    o: Out,
    decoupled: bool,
    root: int,
    v: Seq<model::CharacterSlot>,
    own: Seq<int>,
    n: nat,
    p: int,
)
    requires
        o.ok(),
        row(o, own, 0),
        o.pending(p, o.ps()),
        forall|j: int| 0 <= j < own.len() ==> p < #[trigger] own[j],
        n <= v.len(),
        v.len() == own.len(),
        slots_shaped(v),
    ensures
        writing::characters(o, decoupled, root, v, own, n).pending(p, o.ps()),
        row(writing::characters(o, decoupled, root, v, own, n), own, n as int),
        writing::characters(o, decoupled, root, v, own, n).ok(),
        writing::characters(o, decoupled, root, v, own, n).ps() == o.ps(),
    decreases n,
{
    broadcast use out::group_ext;

    if n > 0 {
        let m = (n - 1) as nat;
        lemma_characters_keep(o, decoupled, root, v, own, m, p);
        let a = writing::characters(o, decoupled, root, v, own, m);
        match v[m as int] {
            model::CharacterSlot::Root => {
                rows::lemma_row_at(a, own, m as int);
                rows::lemma_row_fill(a, own, m as int, root);
            },
            model::CharacterSlot::Empty => {
                rows::lemma_row_at(a, own, m as int);
                rows::lemma_row_fill(a, own, m as int, 0);
            },
            model::CharacterSlot::Character(c) => {
                lemma_character(a, decoupled, c, m);
                let b = writing::character(a, decoupled, c, m);
                rows::lemma_row_ext(a, b, own, m as int);
                rows::lemma_row_at(b, own, m as int);
                rows::lemma_row_fill(b, own, m as int, a.align_ptr().len());
            },
        }
    }
}

#[verifier::rlimit(60)]
pub proof fn lemma_root_head(o: Out, decoupled: bool, m: model::Movie)
    requires
        o.ok(),
    ensures
        o.extends_to(writing::root_head(o, decoupled, m).0),
        row(writing::root_head(o, decoupled, m).0, writing::root_head(o, decoupled, m).1, 0),
        writing::root_head(o, decoupled, m).1.len() == 4,
        forall|j: int|
            0 <= j < 4 ==> o.len() <= #[trigger] writing::root_head(o, decoupled, m).1[j],
{
    broadcast use out::group_ext;

    let a0 = writing::char_prelude(o, decoupled, 9, 0);
    assert(o.extends_to(a0));
    let a1 = a0.put_i32(m.frames.len() as i32);
    assert(o.extends_to(a1));
    let s0 = Seq::<int>::empty();
    rows::lemma_row_empty(a1);
    rows::lemma_row_push(a1, s0);
    let s1 = s0.push(a1.align_ptr().len());
    let a2 = a1.ptr_slot().ptr_value(0).put_i32(m.characters.len() as i32);
    assert(a1.ptr_slot().extends_to(a2));
    rows::lemma_row_ext(a1.ptr_slot(), a2, s1, 0);
    rows::lemma_row_push(a2, s1);
    let s2 = s1.push(a2.align_ptr().len());
    let a3 = a2.ptr_slot().put(4, m.width as nat).put(4, m.height as nat).put(
        4,
        m.ms_per_frame as nat,
    ).put_i32(m.imports.len() as i32);
    assert(a2.ptr_slot().extends_to(a3));
    rows::lemma_row_ext(a2.ptr_slot(), a3, s2, 0);
    rows::lemma_row_push(a3, s2);
    let s3 = s2.push(a3.align_ptr().len());
    let a4 = a3.ptr_slot().put_i32(m.exports.len() as i32);
    assert(a3.ptr_slot().extends_to(a4));
    rows::lemma_row_ext(a3.ptr_slot(), a4, s3, 0);
    rows::lemma_row_push(a4, s3);
    let s4 = s3.push(a4.align_ptr().len());
    let a5 = a4.ptr_slot().ptr_value(0);
    assert(a4.ptr_slot().extends_to(a5));
    rows::lemma_row_ext(a4.ptr_slot(), a5, s4, 0);
    assert(s4 =~= writing::root_head(o, decoupled, m).1);
    assert(o.extends_to(a2) && o.extends_to(a3) && o.extends_to(a4) && o.extends_to(a5));
}

} // verus!
