//! Serializer for `.apt` + `.const` pairs.
//!
//! The writer walks the movie in the engine's canonical fixup order
//! (exports, then characters in index order - the root movie first - then
//! imports) so that Push-item constant indices come out globally sequential,
//! which the engine's `_parseStream` asserts.
use super::actions::{self, ActionStream};
use super::bytes;
use super::constfile::ConstFile;
use super::encode;
use super::error::Error;
use super::flush;
use super::growth;
use super::io::{joined, numbers, Patch};
use super::model;
use super::out::{self, Out};
use super::rows::{self, places, row};
use super::sink::Sink;
use super::types::{
    Button, ButtonAction, ButtonRecord, Character, CharacterSlot, Control, EventAction, Export,
    Filter, FloatCxForm, Font, Frame, GlyphEntry, Header, Import, Matrix, Movie, PackedCxForm,
    PlaceObject, PtrSize, Rect, StaticText, StaticTextRecord, Text, PARENT_ANIM_MAGIC,
};
use super::writing;
use super::AptFile;
use vstd::prelude::*;

verus! {

#[derive(Debug, Clone, Copy)]
pub struct WriteOptions {
    pub ptr_size: PtrSize,
    pub decoupled: bool,
    pub swf_version: u8,
    /// When set, emit this exact 16-byte header tag instead of reconstructing
    /// one (used for byte-exact round-trips of files carrying the classic
    /// short tag `"Apt Data:6\x1a"`).
    pub raw_tag: Option<[u8; 16]>,
}

impl WriteOptions {
    /// Faithful re-emit: reuse the source file's exact header tag.
    pub fn from_header(h: &Header) -> (o: WriteOptions)
        ensures
            o.ptr_size == h.ptr_size,
            o.decoupled == h.decoupled,
            o.swf_version == h.swf_version,
            o.raw_tag == Some(h.raw_tag),
    {
        WriteOptions {
            ptr_size: h.ptr_size,
            decoupled: h.decoupled,
            swf_version: h.swf_version,
            raw_tag: Some(h.raw_tag),
        }
    }

    /// Fresh output for the given layout, synthesizing a long-form tag.
    pub fn new(ptr_size: PtrSize, decoupled: bool, swf_version: u8) -> (o: WriteOptions)
        ensures
            o.ptr_size == ptr_size,
            o.decoupled == decoupled,
            o.swf_version == swf_version,
            o.raw_tag is None,
    {
        WriteOptions { ptr_size, decoupled, swf_version, raw_tag: None }
    }

    /// The header tag that these options ask for.
    pub open spec fn tag(self) -> Seq<u8> {
        match self.raw_tag {
            Some(t) => t@,
            None => writing::long_tag(self.ptr_size, self.decoupled, self.swf_version),
        }
    }
}

/// A list of 4-byte numbers.
fn words(w: &mut Sink, v: &Vec<u32>)
    requires
        old(w)@.ok(),
    ensures
        final(w)@ == writing::words(old(w)@, v@, v@.len()),
        final(w)@.ok(),
        final(w).arena.ptr_size == old(w).arena.ptr_size,
{
    let mut i: usize = 0;
    while i < v.len()
        invariant
            i <= v@.len(),
            w@ == writing::words(old(w)@, v@, i as nat),
            w@.ok(),
            w.arena.ptr_size == old(w).arena.ptr_size,
        decreases v@.len() - i,
    {
        w.u32(v[i]);
        i = i + 1;
    }
}

/// A list of bytes.
fn octets(w: &mut Sink, v: &Vec<u8>)
    requires
        old(w)@.ok(),
    ensures
        final(w)@ == writing::octets(old(w)@, v@, v@.len()),
        final(w)@.ok(),
        final(w).arena.ptr_size == old(w).arena.ptr_size,
{
    let mut i: usize = 0;
    while i < v.len()
        invariant
            i <= v@.len(),
            w@ == writing::octets(old(w)@, v@, i as nat),
            w@.ok(),
            w.arena.ptr_size == old(w).arena.ptr_size,
        decreases v@.len() - i,
    {
        w.u8(v[i]);
        i = i + 1;
    }
}

/// A list of vertices.
fn vertices(w: &mut Sink, v: &Vec<(u32, u32)>)
    requires
        old(w)@.ok(),
    ensures
        final(w)@ == writing::vertices(old(w)@, v@, v@.len()),
        final(w)@.ok(),
        final(w).arena.ptr_size == old(w).arena.ptr_size,
{
    let mut i: usize = 0;
    while i < v.len()
        invariant
            i <= v@.len(),
            w@ == writing::vertices(old(w)@, v@, i as nat),
            w@.ok(),
            w.arena.ptr_size == old(w).arena.ptr_size,
        decreases v@.len() - i,
    {
        w.u32(v[i].0);
        w.u32(v[i].1);
        i = i + 1;
    }
}

/// A list of triangles.
fn triangles(w: &mut Sink, v: &Vec<[i16; 3]>)
    requires
        old(w)@.ok(),
    ensures
        final(w)@ == writing::triangles(old(w)@, model::views(v@), v@.len()),
        final(w)@.ok(),
        final(w).arena.ptr_size == old(w).arena.ptr_size,
{
    let mut i: usize = 0;
    while i < v.len()
        invariant
            i <= v@.len(),
            w@ == writing::triangles(old(w)@, model::views(v@), i as nat),
            w@.ok(),
            w.arena.ptr_size == old(w).arena.ptr_size,
        decreases v@.len() - i,
    {
        assert(model::views(v@)[i as int] == v@[i as int]@);
        w.i16(v[i][0]);
        w.i16(v[i][1]);
        w.i16(v[i][2]);
        i = i + 1;
    }
}

/// A list of glyphs.
fn glyphs(w: &mut Sink, v: &Vec<GlyphEntry>)
    requires
        old(w)@.ok(),
    ensures
        final(w)@ == writing::glyphs(old(w)@, v@, v@.len()),
        final(w)@.ok(),
        final(w).arena.ptr_size == old(w).arena.ptr_size,
{
    let mut i: usize = 0;
    while i < v.len()
        invariant
            i <= v@.len(),
            w@ == writing::glyphs(old(w)@, v@, i as nat),
            w@.ok(),
            w.arena.ptr_size == old(w).arena.ptr_size,
        decreases v@.len() - i,
    {
        w.i16(v[i].index);
        w.i16(v[i].advance);
        i = i + 1;
    }
}

fn rect(w: &mut Sink, r: &Rect)
    requires
        old(w)@.ok(),
    ensures
        final(w)@ == writing::rect(old(w)@, *r),
        final(w)@.ok(),
        final(w).arena.ptr_size == old(w).arena.ptr_size,
{
    w.u32(r.left);
    w.u32(r.top);
    w.u32(r.right);
    w.u32(r.bottom);
}

fn matrix(w: &mut Sink, m: &Matrix)
    requires
        old(w)@.ok(),
    ensures
        final(w)@ == writing::matrix(old(w)@, *m),
        final(w)@.ok(),
        final(w).arena.ptr_size == old(w).arena.ptr_size,
{
    w.u32(m.a);
    w.u32(m.b);
    w.u32(m.c);
    w.u32(m.d);
    w.u32(m.tx);
    w.u32(m.ty);
}

fn float_cxform(w: &mut Sink, cx: &FloatCxForm)
    requires
        old(w)@.ok(),
    ensures
        final(w)@ == writing::float_cxform(old(w)@, cx@),
        final(w)@.ok(),
        final(w).arena.ptr_size == old(w).arena.ptr_size,
{
    reveal_with_fuel(writing::words, 5);
    w.u32(cx.scale[0]);
    w.u32(cx.scale[1]);
    w.u32(cx.scale[2]);
    w.u32(cx.scale[3]);
    w.u32(cx.translate[0]);
    w.u32(cx.translate[1]);
    w.u32(cx.translate[2]);
    w.u32(cx.translate[3]);
}

/// `n` empty pointer slots.
fn slot_row(w: &mut Sink, n: usize) -> (p: Vec<Patch>)
    requires
        old(w)@.ok(),
    ensures
        writing::slot_row(old(w)@, n as nat) == (final(w)@, places(p@)),
        final(w)@.ok(),
        final(w).arena.ptr_size == old(w).arena.ptr_size,
{
    broadcast use rows::lemma_places_push;

    let mut p: Vec<Patch> = Vec::new();
    let mut i: usize = 0;
    assert(places(p@) =~= Seq::<int>::empty());
    while i < n
        invariant
            i <= n,
            writing::slot_row(old(w)@, i as nat) == (w@, places(p@)),
            w@.ok(),
            w.arena.ptr_size == old(w).arena.ptr_size,
        decreases n - i,
    {
        let x = w.ptr_patch();
        p.push(x);
        i = i + 1;
    }
    p
}

/// What follows the id of a gradient filter.
fn write_gradient(
    w: &mut Sink,
    colors: &Vec<u32>,
    ratios: &Vec<u8>,
    blur_x: u32,
    blur_y: u32,
    angle: u32,
    distance: u32,
    strength: u16,
    flags: u16,
    is_bevel: bool,
)
    requires
        old(w)@.ok(),
    ensures
        final(w)@ == writing::filter_body(
            old(w)@,
            model::Filter::GradientGlow {
                is_bevel,
                colors: colors@,
                ratios: ratios@,
                blur_x,
                blur_y,
                angle,
                distance,
                strength,
                flags,
            },
        ),
        final(w)@.ok(),
        final(w).arena.ptr_size == old(w).arena.ptr_size,
{
    broadcast use out::group_ext;

    reveal(writing::filter_body);
    w.u32(colors.len() as u32);
    let ghost b = w@;
    let colors_patch = w.ptr_patch();
    let ghost c = w@;
    let ratios_patch = w.ptr_patch();
    let ghost d1 = w@;
    w.u32(blur_x);
    w.u32(blur_y);
    w.u32(angle);
    w.u32(distance);
    w.u16(strength);
    w.u16(flags);
    proof {
        bytes::lemma_powers();
    }
    w.align(4);
    let colors_off: u64 = w.len();
    let ghost d = w@;
    proof {
        assert(b.extends_to(b.align_ptr()));
        assert(c.extends_to(c.align_ptr()));
        assert(c.align_ptr().extends_to(d1));
        assert(d1.extends_to(d));
        growth::lemma_words(d, colors@, colors@.len());
    }
    words(w, colors);
    assert(w@.pending(colors_patch.pos(), w@.ps()) && w@.pending(ratios_patch.pos(), w@.ps()));
    w.patch_ptr(colors_patch, colors_off);
    let ratios_off: u64 = w.len();
    proof {
        assert(colors_patch.pos() != ratios_patch.pos());
        assert(w@.pending(ratios_patch.pos(), w@.ps()));
        growth::lemma_octets(w@, ratios@, ratios@.len());
    }
    octets(w, ratios);
    w.patch_ptr(ratios_patch, ratios_off);
}

/// A filter; returns its place.
fn write_filter(w: &mut Sink, filter: &Filter) -> (r: Result<u64, Error>)
    requires
        old(w)@.ok(),
    ensures
        match r {
            Ok(off) => {
                &&& writing::filter_err(filter@) is None
                &&& off == old(w)@.align_ptr().len()
                &&& final(w)@ == writing::filter(old(w)@, filter@)
                &&& final(w)@.ok()
                &&& final(w).arena.ptr_size == old(w).arena.ptr_size
            },
            Err(e) => writing::filter_err(filter@) == Some(e@),
        },
{
    reveal(writing::filter_body);
    w.align_ptr();
    let off: u64 = w.len();
    w.u32(filter.filter_id());
    match filter {
        Filter::DropShadow { color, blur_x, blur_y, angle, distance, strength, flags } => {
            w.u32(*color);
            w.u32(*blur_x);
            w.u32(*blur_y);
            w.u32(*angle);
            w.u32(*distance);
            w.u16(*strength);
            w.u16(*flags);
        },
        Filter::Blur { blur_x, blur_y, flags } => {
            w.u32(*blur_x);
            w.u32(*blur_y);
            w.u16(*flags);
            w.u16(0);
        },
        Filter::Glow { color, blur_x, blur_y, strength, flags } => {
            w.u32(*color);
            w.u32(*blur_x);
            w.u32(*blur_y);
            w.u16(*strength);
            w.u16(*flags);
        },
        Filter::Bevel {
            highlight_color,
            shadow_color,
            blur_x,
            blur_y,
            angle,
            distance,
            strength,
            flags,
        } => {
            w.u32(*highlight_color);
            w.u32(*shadow_color);
            w.u32(*blur_x);
            w.u32(*blur_y);
            w.u32(*angle);
            w.u32(*distance);
            w.u16(*strength);
            w.u16(*flags);
        },
        Filter::GradientGlow {
            is_bevel,
            colors,
            ratios,
            blur_x,
            blur_y,
            angle,
            distance,
            strength,
            flags,
        } => {
            if colors.len() != ratios.len() {
                return Err(Error::GradientLengthMismatch);
            }
            write_gradient(
                w,
                colors,
                ratios,
                *blur_x,
                *blur_y,
                *angle,
                *distance,
                *strength,
                *flags,
                *is_bevel,
            );
        },
        Filter::ColorMatrix { values } => {
            let mut i: usize = 0;
            let ghost a = w@;
            while i < 20
                invariant
                    i <= 20,
                    w@ == writing::words(a, values@, i as nat),
                    w@.ok(),
                    w.arena.ptr_size == old(w).arena.ptr_size,
                decreases 20 - i,
            {
                w.u32(values[i]);
                i = i + 1;
            }
        },
    }
    Ok(off)
}

/// Filters, each with its place in the next of the slots.
fn write_filters(w: &mut Sink, v: &Vec<Filter>, slots: &Vec<Patch>) -> (r: Result<(), Error>)
    requires
        old(w)@.ok(),
        v@.len() == slots@.len(),
        row(old(w)@, places(slots@), 0),
    ensures
        match r {
            Ok(_) => {
                &&& writing::filters_err(model::views(v@), v@.len()) is None
                &&& final(w)@ == writing::filters(
                    old(w)@,
                    model::views(v@),
                    places(slots@),
                    v@.len(),
                )
                &&& final(w)@.ok()
                &&& final(w).arena.ptr_size == old(w).arena.ptr_size
            },
            Err(e) => writing::filters_err(model::views(v@), v@.len()) == Some(e@),
        },
{
    let ghost vs = model::views(v@);
    let ghost ps = places(slots@);
    let ghost o = w@;
    let mut i: usize = 0;
    while i < v.len()
        invariant
            i <= v@.len(),
            o == old(w)@,
            o.ok(),
            vs == model::views(v@),
            ps == places(slots@),
            v@.len() == slots@.len(),
            row(o, ps, 0),
            writing::filters_err(vs, i as nat) is None,
            w@ == writing::filters(o, vs, ps, i as nat),
            w@.ok(),
            w.arena.ptr_size == old(w).arena.ptr_size,
        decreases v@.len() - i,
    {
        let ghost a = w@;
        proof {
            growth::lemma_filters_row(o, vs, ps, i as nat);
            assert(vs[i as int] == v@[i as int]@);
        }
        let off: u64 = match write_filter(w, &v[i]) {
            Ok(off) => off,
            Err(e) => {
                proof {
                    writing::lemma_filters_sticky(vs, (i + 1) as nat, vs.len());
                }
                return Err(e);
            },
        };
        proof {
            growth::lemma_filter(a, vs[i as int]);
        }
        proof {
            out::ext_facts(a, w@);
            rows::lemma_row_ext(a, w@, ps, i as int);
            rows::lemma_row_at(w@, ps, i as int);
            assert(ps[i as int] == slots@[i as int].pos());
        }
        w.patch_ptr(slots[i], off);
        i = i + 1;
    }
    Ok(())
}

/// A list of filters; its place goes to the slot.
fn write_filter_set(w: &mut Sink, v: &Vec<Filter>, p: Patch) -> (r: Result<(), Error>)
    requires
        old(w)@.ok(),
        old(w)@.pending(p.pos(), old(w)@.ps()),
    ensures
        match r {
            Ok(_) => {
                &&& writing::filters_err(model::views(v@), v@.len()) is None
                &&& final(w)@ == writing::filter_set(old(w)@, model::views(v@), p.pos())
                &&& final(w)@.ok()
                &&& final(w).arena.ptr_size == old(w).arena.ptr_size
            },
            Err(e) => writing::filters_err(model::views(v@), v@.len()) == Some(e@),
        },
{
    broadcast use out::group_ext;

    let ghost o = w@;
    w.align_ptr();
    let ghost a = w@;
    let array_off: u64 = w.len();
    proof {
        assert(o.extends_to(a));
        growth::lemma_slot_row(a, v@.len());
    }
    let slots = slot_row(w, v.len());
    let ghost b = w@;
    proof {
        assert(o.extends_to(b));
        assert(b.pending(p.pos(), o.ps()));
        rows::lemma_row_other(b, places(slots@), 0, p.pos(), a.len());
    }
    w.patch_ptr(p, array_off);
    write_filters(w, v, &slots)
}

/// A stream; returns its place.
fn stream(w: &mut Sink, s: &ActionStream) -> (r: Result<u64, Error>)
    requires
        old(w)@.ok(),
    ensures
        match r {
            Ok(off) => {
                &&& encode::block_err(s@) is None
                &&& off == old(w)@.len()
                &&& final(w)@ == encode::stream(old(w)@, s@)
                &&& final(w)@.ok()
                &&& final(w).arena.ptr_size == old(w).arena.ptr_size
            },
            Err(e) => encode::block_err(s@) == Some(e@),
        },
{
    actions::encode_stream(w, s)
}

/// Clip event handlers, their streams still missing.
fn event_heads(w: &mut Sink, v: &Vec<EventAction>) -> (p: Vec<Patch>)
    requires
        old(w)@.ok(),
    ensures
        writing::event_heads(old(w)@, model::views(v@), v@.len()) == (final(w)@, places(p@)),
        final(w)@.ok(),
        final(w).arena.ptr_size == old(w).arena.ptr_size,
{
    broadcast use rows::lemma_places_push;

    let ghost vs = model::views(v@);
    let mut p: Vec<Patch> = Vec::new();
    let mut i: usize = 0;
    assert(places(p@) =~= Seq::<int>::empty());
    while i < v.len()
        invariant
            i <= v@.len(),
            vs == model::views(v@),
            writing::event_heads(old(w)@, vs, i as nat) == (w@, places(p@)),
            w@.ok(),
            w.arena.ptr_size == old(w).arena.ptr_size,
        decreases v@.len() - i,
    {
        assert(vs[i as int] == v@[i as int]@);
        w.align_ptr();
        w.i32(v[i].triggers);
        w.i32(v[i].key_code);
        let x = w.ptr_patch();
        p.push(x);
        i = i + 1;
    }
    p
}

/// Button actions, their streams still missing.
fn action_heads(w: &mut Sink, v: &Vec<ButtonAction>) -> (p: Vec<Patch>)
    requires
        old(w)@.ok(),
    ensures
        writing::action_heads(old(w)@, model::views(v@), v@.len()) == (final(w)@, places(p@)),
        final(w)@.ok(),
        final(w).arena.ptr_size == old(w).arena.ptr_size,
{
    broadcast use rows::lemma_places_push;

    let ghost vs = model::views(v@);
    let mut p: Vec<Patch> = Vec::new();
    let mut i: usize = 0;
    assert(places(p@) =~= Seq::<int>::empty());
    while i < v.len()
        invariant
            i <= v@.len(),
            vs == model::views(v@),
            writing::action_heads(old(w)@, vs, i as nat) == (w@, places(p@)),
            w@.ok(),
            w.arena.ptr_size == old(w).arena.ptr_size,
        decreases v@.len() - i,
    {
        assert(vs[i as int] == v@[i as int]@);
        w.align_ptr();
        w.i32(v[i].conditions);
        let x = w.ptr_patch();
        p.push(x);
        i = i + 1;
    }
    p
}

/// Frame heads, their controls still missing.
fn frame_heads(w: &mut Sink, v: &Vec<Frame>) -> (p: Vec<Patch>)
    requires
        old(w)@.ok(),
    ensures
        writing::frame_heads(old(w)@, model::views(v@), v@.len()) == (final(w)@, places(p@)),
        final(w)@.ok(),
        final(w).arena.ptr_size == old(w).arena.ptr_size,
{
    broadcast use rows::lemma_places_push;

    let ghost vs = model::views(v@);
    let mut p: Vec<Patch> = Vec::new();
    let mut i: usize = 0;
    assert(places(p@) =~= Seq::<int>::empty());
    while i < v.len()
        invariant
            i <= v@.len(),
            vs == model::views(v@),
            writing::frame_heads(old(w)@, vs, i as nat) == (w@, places(p@)),
            w@.ok(),
            w.arena.ptr_size == old(w).arena.ptr_size,
        decreases v@.len() - i,
    {
        assert(vs[i as int] == v@[i as int]@);
        w.align_ptr();
        w.i32(v[i].controls.len() as i32);
        let x = w.ptr_patch();
        p.push(x);
        i = i + 1;
    }
    p
}

/// Runs of static text, their glyphs still missing.
fn text_heads(w: &mut Sink, v: &Vec<StaticTextRecord>) -> (p: Vec<Patch>)
    requires
        old(w)@.ok(),
    ensures
        writing::text_heads(old(w)@, model::views(v@), v@.len()) == (final(w)@, places(p@)),
        final(w)@.ok(),
        final(w).arena.ptr_size == old(w).arena.ptr_size,
{
    broadcast use rows::lemma_places_push;

    let ghost vs = model::views(v@);
    let mut p: Vec<Patch> = Vec::new();
    let mut i: usize = 0;
    assert(places(p@) =~= Seq::<int>::empty());
    while i < v.len()
        invariant
            i <= v@.len(),
            vs == model::views(v@),
            writing::text_heads(old(w)@, vs, i as nat) == (w@, places(p@)),
            w@.ok(),
            w.arena.ptr_size == old(w).arena.ptr_size,
        decreases v@.len() - i,
    {
        assert(vs[i as int] == v@[i as int]@);
        w.align_ptr();
        w.i32(v[i].font_id);
        float_cxform(w, &v[i].cxform);
        w.u32(v[i].x_offset);
        w.u32(v[i].y_offset);
        w.u32(v[i].scale);
        w.i32(v[i].glyphs.len() as i32);
        let x = w.ptr_patch();
        p.push(x);
        i = i + 1;
    }
    p
}

/// The streams of clip event handlers.
fn event_streams(w: &mut Sink, v: &Vec<EventAction>, slots: &Vec<Patch>) -> (r: Result<(), Error>)
    requires
        old(w)@.ok(),
        v@.len() == slots@.len(),
        row(old(w)@, places(slots@), 0),
    ensures
        match r {
            Ok(_) => {
                &&& writing::events_err(model::views(v@), v@.len()) is None
                &&& final(w)@ == writing::event_streams(
                    old(w)@,
                    model::views(v@),
                    places(slots@),
                    v@.len(),
                )
                &&& final(w)@.ok()
                &&& final(w).arena.ptr_size == old(w).arena.ptr_size
            },
            Err(e) => writing::events_err(model::views(v@), v@.len()) == Some(e@),
        },
{
    let ghost vs = model::views(v@);
    let ghost ps = places(slots@);
    let ghost o = w@;
    let mut i: usize = 0;
    while i < v.len()
        invariant
            i <= v@.len(),
            o == old(w)@,
            o.ok(),
            vs == model::views(v@),
            ps == places(slots@),
            v@.len() == slots@.len(),
            row(o, ps, 0),
            writing::events_err(vs, i as nat) is None,
            w@ == writing::event_streams(o, vs, ps, i as nat),
            w@.ok(),
            w.arena.ptr_size == old(w).arena.ptr_size,
        decreases v@.len() - i,
    {
        let ghost a = w@;
        proof {
            growth::lemma_event_streams_row(o, vs, ps, i as nat);
            assert(vs[i as int] == v@[i as int]@);
        }
        let off: u64 = match stream(w, &v[i].actions) {
            Ok(off) => off,
            Err(e) => {
                proof {
                    writing::lemma_events_sticky(vs, (i + 1) as nat, vs.len());
                }
                return Err(e);
            },
        };
        proof {
            encode::lemma_block(a, vs[i as int].actions, true);
        }
        proof {
            out::ext_facts(a, w@);
            rows::lemma_row_ext(a, w@, ps, i as int);
            rows::lemma_row_at(w@, ps, i as int);
            assert(ps[i as int] == slots@[i as int].pos());
        }
        w.patch_ptr(slots[i], off);
        i = i + 1;
    }
    Ok(())
}

/// The streams of button actions.
fn action_streams(w: &mut Sink, v: &Vec<ButtonAction>, slots: &Vec<Patch>) -> (r: Result<(), Error>)
    requires
        old(w)@.ok(),
        v@.len() == slots@.len(),
        row(old(w)@, places(slots@), 0),
    ensures
        match r {
            Ok(_) => {
                &&& writing::actions_err(model::views(v@), v@.len()) is None
                &&& final(w)@ == writing::action_streams(
                    old(w)@,
                    model::views(v@),
                    places(slots@),
                    v@.len(),
                )
                &&& final(w)@.ok()
                &&& final(w).arena.ptr_size == old(w).arena.ptr_size
            },
            Err(e) => writing::actions_err(model::views(v@), v@.len()) == Some(e@),
        },
{
    let ghost vs = model::views(v@);
    let ghost ps = places(slots@);
    let ghost o = w@;
    let mut i: usize = 0;
    while i < v.len()
        invariant
            i <= v@.len(),
            o == old(w)@,
            o.ok(),
            vs == model::views(v@),
            ps == places(slots@),
            v@.len() == slots@.len(),
            row(o, ps, 0),
            writing::actions_err(vs, i as nat) is None,
            w@ == writing::action_streams(o, vs, ps, i as nat),
            w@.ok(),
            w.arena.ptr_size == old(w).arena.ptr_size,
        decreases v@.len() - i,
    {
        let ghost a = w@;
        proof {
            growth::lemma_action_streams_row(o, vs, ps, i as nat);
            assert(vs[i as int] == v@[i as int]@);
        }
        let off: u64 = match stream(w, &v[i].actions) {
            Ok(off) => off,
            Err(e) => {
                proof {
                    writing::lemma_actions_sticky(vs, (i + 1) as nat, vs.len());
                }
                return Err(e);
            },
        };
        proof {
            encode::lemma_block(a, vs[i as int].actions, true);
        }
        proof {
            out::ext_facts(a, w@);
            rows::lemma_row_ext(a, w@, ps, i as int);
            rows::lemma_row_at(w@, ps, i as int);
            assert(ps[i as int] == slots@[i as int].pos());
        }
        w.patch_ptr(slots[i], off);
        i = i + 1;
    }
    Ok(())
}

/// A set of clip event handlers; its place goes to the slot.
fn write_event_set(w: &mut Sink, v: &Vec<EventAction>, p: Patch) -> (r: Result<(), Error>)
    requires
        old(w)@.ok(),
        old(w)@.pending(p.pos(), old(w)@.ps()),
    ensures
        match r {
            Ok(_) => {
                &&& writing::events_err(model::views(v@), v@.len()) is None
                &&& final(w)@ == writing::event_set(old(w)@, model::views(v@), p.pos())
                &&& final(w)@.ok()
                &&& final(w).arena.ptr_size == old(w).arena.ptr_size
            },
            Err(e) => writing::events_err(model::views(v@), v@.len()) == Some(e@),
        },
{
    broadcast use out::group_ext;

    let ghost o = w@;
    proof {
        out::ext_refl(o);
    }
    w.align_ptr();
    let ghost a = w@;
    let set_off: u64 = w.len();
    w.i32(v.len() as i32);
    let ghost b = w@;
    let blocks_patch = w.ptr_patch();
    let ghost b2 = w@;
    proof {
        assert(o.extends_to(b));
        assert(b.extends_to(b.align_ptr()));
        assert(o.extends_to(b2));
        assert(b2.pending(p.pos(), o.ps()));
        assert(p.pos() < o.len());
    }
    w.patch_ptr(p, set_off);
    assert(w@.pending(blocks_patch.pos(), o.ps()));
    let ghost b3 = w@;
    w.align_ptr();
    let ghost c = w@;
    let blocks_off: u64 = w.len();
    proof {
        assert(b3.extends_to(c));
        growth::lemma_event_heads(c, model::views(v@), v@.len());
    }
    let slots = event_heads(w, v);
    let ghost d = w@;
    proof {
        assert(d.pending(blocks_patch.pos(), o.ps()));
        assert(blocks_patch.pos() < c.len());
        rows::lemma_row_other(d, places(slots@), 0, blocks_patch.pos(), c.len());
    }
    w.patch_ptr(blocks_patch, blocks_off);
    event_streams(w, v, &slots)
}

fn bit(b: bool, v: i32) -> (r: i32)
    ensures
        r == if b {
            v
        } else {
            0i32
        },
{
    if b {
        v
    } else {
        0
    }
}

/// The fixed part of a placement, up to the slot of its event handlers.
fn place_head(w: &mut Sink, p: &PlaceObject)
    requires
        old(w)@.ok(),
    ensures
        final(w)@ == writing::place_head(old(w)@, p@),
        final(w)@.ok(),
        final(w).arena.ptr_size == old(w).arena.ptr_size,
{
    let flags: i32 = bit(p.is_move, 0x01) | bit(p.character_id.is_some(), 0x02) | bit(
        p.matrix.is_some(),
        0x04,
    ) | bit(p.cxform.is_some(), 0x08) | bit(p.ratio.is_some(), 0x10) | bit(
        p.name.is_some(),
        0x20,
    ) | bit(p.clip_depth.is_some(), 0x40) | bit(p.clip_actions.is_some(), 0x80);
    w.i32(flags);
    w.i32(p.depth);
    w.i32(
        match p.character_id {
            Some(id) => id,
            None => -1,
        },
    );
    let m = match p.matrix {
        Some(m) => m,
        None => Matrix::default(),
    };
    matrix(w, &m);
    let cx = match p.cxform {
        Some(cx) => cx,
        None => PackedCxForm::default(),
    };
    w.u32(cx.scale);
    w.u32(cx.bias);
    w.u32(
        match p.ratio {
            Some(r) => r,
            None => 0,
        },
    );
    match &p.name {
        Some(name) => {
            w.string(name.as_str());
        },
        None => {
            w.ptr_value(0);
        },
    }
    // APT uses nClipDepth as a signed sentinel: `>= 0` marks a clipping mask
    // (clip up to that depth), `< 0` a normal drawn object.
    w.i32(
        match p.clip_depth {
            Some(d) => d,
            None => -1,
        },
    );
}

/// A placement.
fn write_place_object(w: &mut Sink, p: &PlaceObject) -> (r: Result<(), Error>)
    requires
        old(w)@.ok(),
    ensures
        match r {
            Ok(_) => {
                &&& writing::place_err(p@) is None
                &&& final(w)@ == writing::place_object(old(w)@, p@)
                &&& final(w)@.ok()
                &&& final(w).arena.ptr_size == old(w).arena.ptr_size
            },
            Err(e) => writing::place_err(p@) == Some(e@),
        },
{
    broadcast use out::group_ext;

    reveal(writing::place_object);
    let ghost o = w@;
    place_head(w, p);
    let ghost a = w@;
    let actions_patch = w.ptr_patch();
    let ghost b = w@;
    proof {
        out::ext_refl(a);
        assert(a.extends_to(a.align_ptr()));
        assert(a.align_ptr().extends_to(b));
    }
    if p.is_place_object_3() {
        w.i32(
            match p.blend_mode {
                Some(m) => m,
                None => -1,
            },
        );
        w.u32(p.filters.len() as u32);
        let ghost c = w@;
        let filters_patch = w.ptr_patch();
        let ghost c2 = w@;
        proof {
            assert(b.extends_to(c));
            assert(c.extends_to(c.align_ptr()));
            assert(c.align_ptr().extends_to(c2));
            assert(c2.pending(actions_patch.pos(), w@.ps()));
        }
        match &p.clip_actions {
            Some(blocks) => {
                proof {
                    growth::lemma_event_set_keeps(
                        c2,
                        model::views(blocks@),
                        actions_patch.pos(),
                        filters_patch.pos(),
                    );
                }
                write_event_set(w, blocks, actions_patch)?;
            },
            None => {},
        }
        write_filter_set(w, &p.filters, filters_patch)
    } else {
        match &p.clip_actions {
            Some(blocks) => {
                let r = write_event_set(w, blocks, actions_patch);
                r
            },
            None => Ok(()),
        }
    }
}

/// A pointer to a stream, and the stream.
fn stream_behind(w: &mut Sink, s: &ActionStream) -> (r: Result<(), Error>)
    requires
        old(w)@.ok(),
    ensures
        match r {
            Ok(_) => {
                &&& encode::block_err(s@) is None
                &&& final(w)@ == writing::stream_behind(old(w)@, s@)
                &&& final(w)@.ok()
                &&& final(w).arena.ptr_size == old(w).arena.ptr_size
            },
            Err(e) => encode::block_err(s@) == Some(e@),
        },
{
    proof {
        growth::lemma_stream_behind(w@, s@);
    }
    let ghost o = w@;
    let patch = w.ptr_patch();
    proof {
        out::ext_facts(o.ptr_slot(), encode::stream(o.ptr_slot(), s@));
        out::ext_facts(o, writing::stream_behind(o, s@));
    }
    let off: u64 = stream(w, s)?;
    w.patch_ptr(patch, off);
    Ok(())
}

/// A control; returns its place.
fn write_control(w: &mut Sink, control: &Control) -> (r: Result<u64, Error>)
    requires
        old(w)@.ok(),
    ensures
        match r {
            Ok(off) => {
                &&& writing::control_err(control@) is None
                &&& off == old(w)@.align_ptr().len()
                &&& final(w)@ == writing::control(old(w)@, control@)
                &&& final(w)@.ok()
                &&& final(w).arena.ptr_size == old(w).arena.ptr_size
            },
            Err(e) => writing::control_err(control@) == Some(e@),
        },
{
    w.align_ptr();
    let off: u64 = w.len();
    w.i32(control.type_id());
    w.align_ptr();
    match control {
        Control::Action(s) => {
            stream_behind(w, s)?;
        },
        Control::FrameLabel(label) => {
            w.string(label.as_str());
        },
        Control::PlaceObject(p) => {
            write_place_object(w, p)?;
        },
        Control::RemoveObject { depth } => {
            w.i32(*depth);
        },
        Control::BackgroundColor(color) => {
            w.u32(*color);
        },
        Control::StartSound { sound_id } => {
            w.i32(*sound_id);
        },
        Control::StartSoundStream { sound_id } => {
            w.i32(*sound_id);
        },
        Control::InitAction { sprite_id, actions } => {
            w.i32(*sprite_id);
            stream_behind(w, actions)?;
        },
    }
    Ok(off)
}

/// Controls, each with its place in the next of the slots.
fn write_controls(w: &mut Sink, v: &Vec<Control>, slots: &Vec<Patch>) -> (r: Result<(), Error>)
    requires
        old(w)@.ok(),
        v@.len() == slots@.len(),
        row(old(w)@, places(slots@), 0),
    ensures
        match r {
            Ok(_) => {
                &&& writing::controls_err(model::views(v@), v@.len()) is None
                &&& final(w)@ == writing::controls(
                    old(w)@,
                    model::views(v@),
                    places(slots@),
                    v@.len(),
                )
                &&& final(w)@.ok()
                &&& final(w).arena.ptr_size == old(w).arena.ptr_size
            },
            Err(e) => writing::controls_err(model::views(v@), v@.len()) == Some(e@),
        },
{
    let ghost vs = model::views(v@);
    let ghost ps = places(slots@);
    let ghost o = w@;
    let mut i: usize = 0;
    while i < v.len()
        invariant
            i <= v@.len(),
            o == old(w)@,
            o.ok(),
            vs == model::views(v@),
            ps == places(slots@),
            v@.len() == slots@.len(),
            row(o, ps, 0),
            writing::controls_err(vs, i as nat) is None,
            w@ == writing::controls(o, vs, ps, i as nat),
            w@.ok(),
            w.arena.ptr_size == old(w).arena.ptr_size,
        decreases v@.len() - i,
    {
        let ghost a = w@;
        proof {
            growth::lemma_controls_row(o, vs, ps, i as nat);
            assert(vs[i as int] == v@[i as int]@);
        }
        let off: u64 = match write_control(w, &v[i]) {
            Ok(off) => off,
            Err(e) => {
                proof {
                    writing::lemma_controls_sticky(vs, (i + 1) as nat, vs.len());
                }
                return Err(e);
            },
        };
        proof {
            growth::lemma_control(a, vs[i as int]);
        }
        proof {
            out::ext_facts(a, w@);
            rows::lemma_row_ext(a, w@, ps, i as int);
            rows::lemma_row_at(w@, ps, i as int);
            assert(ps[i as int] == slots@[i as int].pos());
        }
        w.patch_ptr(slots[i], off);
        i = i + 1;
    }
    Ok(())
}

/// The controls of a frame; their place goes to the slot.
fn frame_body(w: &mut Sink, f: &Frame, p: Patch) -> (r: Result<(), Error>)
    requires
        old(w)@.ok(),
        old(w)@.pending(p.pos(), old(w)@.ps()),
    ensures
        match r {
            Ok(_) => {
                &&& writing::controls_err(f@.controls, f@.controls.len()) is None
                &&& final(w)@ == writing::frame_body(old(w)@, f@, p.pos())
                &&& final(w)@.ok()
                &&& final(w).arena.ptr_size == old(w).arena.ptr_size
            },
            Err(e) => writing::controls_err(f@.controls, f@.controls.len()) == Some(e@),
        },
{
    broadcast use out::group_ext;

    let ghost o = w@;
    w.align_ptr();
    let ghost a = w@;
    let array_off: u64 = w.len();
    proof {
        out::ext_refl(o);
        assert(o.extends_to(a));
        growth::lemma_slot_row(a, f.controls@.len());
    }
    let slots = slot_row(w, f.controls.len());
    let ghost b = w@;
    proof {
        assert(o.extends_to(b));
        assert(b.pending(p.pos(), o.ps()));
        rows::lemma_row_other(b, places(slots@), 0, p.pos(), a.len());
    }
    w.patch_ptr(p, array_off);
    write_controls(w, &f.controls, &slots)
}

/// Frames; returns their place.
///
/// A frameless movie (e.g. an empty placeholder sprite) says NULL, not an
/// offset into whatever bytes follow: the engine only null-checks the frame
/// pointer before it follows it.
fn write_frames(w: &mut Sink, v: &Vec<Frame>) -> (r: Result<u64, Error>)
    requires
        old(w)@.ok(),
    ensures
        match r {
            Ok(off) => {
                &&& writing::frames_err(model::views(v@), v@.len()) is None
                &&& off == writing::frames_place(old(w)@, model::views(v@))
                &&& final(w)@ == writing::frames(old(w)@, model::views(v@))
                &&& final(w)@.ok()
                &&& final(w).arena.ptr_size == old(w).arena.ptr_size
            },
            Err(e) => writing::frames_err(model::views(v@), v@.len()) == Some(e@),
        },
{
    if v.len() == 0 {
        return Ok(0);
    }
    let ghost vs = model::views(v@);
    w.align_ptr();
    let frames_off: u64 = w.len();
    proof {
        growth::lemma_frame_heads(w@, vs, vs.len());
    }
    let slots = frame_heads(w, v);
    let ghost ps = places(slots@);
    let ghost o = w@;
    let mut i: usize = 0;
    while i < v.len()
        invariant
            i <= v@.len(),
            vs == model::views(v@),
            ps == places(slots@),
            o.ok(),
            v@.len() == slots@.len(),
            row(o, ps, 0),
            writing::frames_err(vs, i as nat) is None,
            w@ == writing::frame_bodies(o, vs, ps, i as nat),
            w@.ok(),
            w.arena.ptr_size == old(w).arena.ptr_size,
        decreases v@.len() - i,
    {
        proof {
            growth::lemma_frame_bodies_row(o, vs, ps, i as nat);
            rows::lemma_row_at(w@, ps, i as int);
            assert(ps[i as int] == slots@[i as int].pos());
            assert(vs[i as int] == v@[i as int]@);
        }
        match frame_body(w, &v[i], slots[i]) {
            Ok(_) => {},
            Err(e) => {
                proof {
                    writing::lemma_frames_sticky(vs, (i + 1) as nat, vs.len());
                }
                return Err(e);
            },
        }
        i = i + 1;
    }
    Ok(frames_off)
}

fn write_exports(w: &mut Sink, v: &Vec<Export>) -> (off: u64)
    requires
        old(w)@.ok(),
    ensures
        off == old(w)@.align_ptr().len(),
        final(w)@ == writing::exports(old(w)@.align_ptr(), model::views(v@), v@.len()),
        final(w)@.ok(),
        final(w).arena.ptr_size == old(w).arena.ptr_size,
{
    let ghost vs = model::views(v@);
    w.align_ptr();
    let off: u64 = w.len();
    let ghost o = w@;
    let mut i: usize = 0;
    while i < v.len()
        invariant
            i <= v@.len(),
            vs == model::views(v@),
            w@ == writing::exports(o, vs, i as nat),
            w@.ok(),
            w.arena.ptr_size == old(w).arena.ptr_size,
        decreases v@.len() - i,
    {
        assert(vs[i as int] == v@[i as int]@);
        w.align_ptr();
        w.string(v[i].name.as_str());
        w.u32(v[i].character_id);
        i = i + 1;
    }
    off
}

fn write_imports(w: &mut Sink, v: &Vec<Import>) -> (off: u64)
    requires
        old(w)@.ok(),
    ensures
        off == old(w)@.align_ptr().len(),
        final(w)@ == writing::imports(old(w)@.align_ptr(), model::views(v@), v@.len()),
        final(w)@.ok(),
        final(w).arena.ptr_size == old(w).arena.ptr_size,
{
    let ghost vs = model::views(v@);
    w.align_ptr();
    let off: u64 = w.len();
    let ghost o = w@;
    let mut i: usize = 0;
    while i < v.len()
        invariant
            i <= v@.len(),
            vs == model::views(v@),
            w@ == writing::imports(o, vs, i as nat),
            w@.ok(),
            w.arena.ptr_size == old(w).arena.ptr_size,
        decreases v@.len() - i,
    {
        assert(vs[i as int] == v@[i as int]@);
        w.align_ptr();
        w.string(v[i].movie.as_str());
        w.string(v[i].name.as_str());
        w.u32(v[i].character_id);
        w.ptr_value(0);  // file: dead in file
        i = i + 1;
    }
    off
}

fn button_records(w: &mut Sink, v: &Vec<ButtonRecord>)
    requires
        old(w)@.ok(),
    ensures
        final(w)@ == writing::button_records(old(w)@, model::views(v@), v@.len()),
        final(w)@.ok(),
        final(w).arena.ptr_size == old(w).arena.ptr_size,
{
    let ghost vs = model::views(v@);
    let mut i: usize = 0;
    while i < v.len()
        invariant
            i <= v@.len(),
            vs == model::views(v@),
            w@ == writing::button_records(old(w)@, vs, i as nat),
            w@.ok(),
            w.arena.ptr_size == old(w).arena.ptr_size,
        decreases v@.len() - i,
    {
        assert(vs[i as int] == v@[i as int]@);
        w.align_ptr();
        w.i32(v[i].states);
        w.ptr_value(v[i].character_id as u64);
        w.i32(v[i].layer);
        matrix(w, &v[i].matrix);
        float_cxform(w, &v[i].cxform);
        i = i + 1;
    }
}

/// The fixed part of a button, with its five slots: vertices, triangles,
/// records, actions, sounds.
fn button_head(w: &mut Sink, b: &Button) -> (p: [Patch; 5])
    requires
        old(w)@.ok(),
    ensures
        writing::button_head(old(w)@, b@).0 == final(w)@,
        writing::button_head(old(w)@, b@).1 == places(p@),
        final(w)@.ok(),
        final(w).arena.ptr_size == old(w).arena.ptr_size,
{
    w.i32(
        if b.is_menu {
            1
        } else {
            0
        },
    );
    rect(w, &b.hit_test_bounds);
    w.i32(b.hit_test_triangles.len() as i32);
    w.i32(b.hit_test_vertices.len() as i32);
    let vertices_patch = w.ptr_patch();
    let indices_patch = w.ptr_patch();
    w.i32(b.records.len() as i32);
    let records_patch = w.ptr_patch();
    w.i32(b.actions.len() as i32);
    let conditions_patch = w.ptr_patch();
    let sound_patch = w.ptr_patch();
    let p = [vertices_patch, indices_patch, records_patch, conditions_patch, sound_patch];
    assert(places(p@) =~= writing::button_head(old(w)@, b@).1);
    p
}

#[verifier::rlimit(30)]
fn write_button(w: &mut Sink, b: &Button) -> (r: Result<(), Error>)
    requires
        old(w)@.ok(),
    ensures
        match r {
            Ok(_) => {
                &&& writing::actions_err(b@.actions, b@.actions.len()) is None
                &&& final(w)@ == writing::button(old(w)@, b@)
                &&& final(w)@.ok()
                &&& final(w).arena.ptr_size == old(w).arena.ptr_size
            },
            Err(e) => writing::actions_err(b@.actions, b@.actions.len()) == Some(e@),
        },
{
    broadcast use out::group_ext;

    reveal(writing::button);
    proof {
        growth::lemma_button_head(w@, b@);
        assert(growth::button_shaped(b@));
    }
    let slots = button_head(w, b);
    let ghost h = w@;
    let ghost p = places(slots@);
    proof {
        bytes::lemma_powers();
    }
    w.align(4);
    let ghost v = w@;
    let vertices_off: u64 = w.len();
    vertices(w, &b.hit_test_vertices);
    proof {
        growth::lemma_vertices(v, b@.hit_test_vertices, b@.hit_test_vertices.len());
        assert(h.extends_to(w@));
        rows::lemma_row_ext(h, w@, p, 0);
        rows::lemma_row_at(w@, p, 0);
        rows::lemma_row_fill(w@, p, 0, v.len());
    }
    w.patch_ptr(slots[0], vertices_off);
    let ghost v2 = w@;
    proof {
        bytes::lemma_powers();
    }
    w.align(2);
    let ghost t = w@;
    let indices_off: u64 = w.len();
    triangles(w, &b.hit_test_triangles);
    proof {
        growth::lemma_triangles(t, b@.hit_test_triangles, b@.hit_test_triangles.len());
        assert(v2.extends_to(w@));
        rows::lemma_row_ext(v2, w@, p, 1);
        rows::lemma_row_at(w@, p, 1);
        rows::lemma_row_fill(w@, p, 1, t.len());
    }
    w.patch_ptr(slots[1], indices_off);
    let ghost t2 = w@;
    w.align_ptr();
    let ghost r = w@;
    let records_off: u64 = w.len();
    button_records(w, &b.records);
    proof {
        growth::lemma_button_records(r, b@.records, b@.records.len());
        assert(t2.extends_to(w@));
        rows::lemma_row_ext(t2, w@, p, 2);
        rows::lemma_row_at(w@, p, 2);
        rows::lemma_row_fill(w@, p, 2, r.len());
    }
    w.patch_ptr(slots[2], records_off);
    let ghost r2 = w@;
    // Condition blocks, then their streams in array order (const sequencing).
    w.align_ptr();
    let ghost c = w@;
    let conditions_off: u64 = w.len();
    proof {
        assert(r2.extends_to(c));
        growth::lemma_action_heads(c, b@.actions, b@.actions.len());
        assert forall|j: int| 0 <= j < p.len() implies #[trigger] p[j] < c.len() by {
            reveal(row);
        }
    }
    let own = action_heads(w, &b.actions);
    proof {
        assert(r2.extends_to(w@));
        rows::lemma_row_ext(r2, w@, p, 3);
        rows::lemma_row_at(w@, p, 3);
        rows::lemma_row_fill(w@, p, 3, c.len());
        rows::lemma_row_other(w@, places(own@), 0, p[3], c.len());
    }
    w.patch_ptr(slots[3], conditions_off);
    proof {
        growth::lemma_action_streams_keep(
            w@,
            b@.actions,
            places(own@),
            b@.actions.len(),
            p,
            4,
            c.len(),
        );
    }
    action_streams(w, &b.actions, &own)?;
    let ghost s = w@;
    match &b.sounds {
        Some(x) => {
            w.align_ptr();
            let off: u64 = w.len();
            w.ptr_value(x.over_up_to_idle as u64);
            w.ptr_value(x.idle_to_over_up as u64);
            w.ptr_value(x.over_up_to_over_down as u64);
            w.ptr_value(x.over_down_to_over_up as u64);
            proof {
                assert(s.extends_to(w@));
                rows::lemma_row_ext(s, w@, p, 4);
                rows::lemma_row_at(w@, p, 4);
            }
            w.patch_ptr(slots[4], off);
        },
        None => {
            proof {
                rows::lemma_row_at(s, p, 4);
            }
            w.patch_ptr(slots[4], 0);
        },
    }
    Ok(())
}

/// The glyphs of runs of static text.
fn text_glyphs(w: &mut Sink, v: &Vec<StaticTextRecord>, slots: &Vec<Patch>)
    requires
        old(w)@.ok(),
        v@.len() == slots@.len(),
        row(old(w)@, places(slots@), 0),
    ensures
        final(w)@ == writing::text_glyphs(
            old(w)@,
            model::views(v@),
            places(slots@),
            v@.len(),
        ),
        final(w)@.ok(),
        final(w).arena.ptr_size == old(w).arena.ptr_size,
{
    broadcast use out::group_ext;

    let ghost vs = model::views(v@);
    let ghost ps = places(slots@);
    let ghost o = w@;
    let mut i: usize = 0;
    while i < v.len()
        invariant
            i <= v@.len(),
            o == old(w)@,
            o.ok(),
            vs == model::views(v@),
            ps == places(slots@),
            v@.len() == slots@.len(),
            row(o, ps, 0),
            w@ == writing::text_glyphs(o, vs, ps, i as nat),
            w@.ok(),
            w.arena.ptr_size == old(w).arena.ptr_size,
        decreases v@.len() - i,
    {
        let ghost a = w@;
        proof {
            growth::lemma_text_glyphs_row(o, vs, ps, i as nat);
            assert(vs[i as int] == v@[i as int]@);
        }
        proof {
            bytes::lemma_powers();
        }
        w.align(2);
        let ghost x = w@;
        let off: u64 = w.len();
        glyphs(w, &v[i].glyphs);
        proof {
            out::ext_align(a, 2);
            growth::lemma_glyphs(x, vs[i as int].glyphs, vs[i as int].glyphs.len());
            out::ext_trans(a, x, w@);
            out::ext_facts(a, w@);
            rows::lemma_row_ext(a, w@, ps, i as int);
            rows::lemma_row_at(w@, ps, i as int);
            assert(ps[i as int] == slots@[i as int].pos());
        }
        w.patch_ptr(slots[i], off);
        i = i + 1;
    }
}

fn write_static_text(w: &mut Sink, t: &StaticText)
    requires
        old(w)@.ok(),
    ensures
        final(w)@ == writing::static_text(old(w)@, t@),
        final(w)@.ok(),
        final(w).arena.ptr_size == old(w).arena.ptr_size,
{
    broadcast use out::group_ext;

    rect(w, &t.bounds);
    matrix(w, &t.matrix);
    w.i32(t.records.len() as i32);
    let ghost a = w@;
    let records_patch = w.ptr_patch();
    let ghost b1 = w@;
    w.align_ptr();
    let ghost b = w@;
    let records_off: u64 = w.len();
    proof {
        assert(b1.extends_to(b));
        assert(growth::text_shaped(t@.records));
        growth::lemma_text_heads(b, t@.records, t@.records.len());
    }
    let slots = text_heads(w, &t.records);
    proof {
        assert(w@.pending(records_patch.pos(), w@.ps()));
        assert(records_patch.pos() < b.len());
        rows::lemma_row_other(w@, places(slots@), 0, records_patch.pos(), b.len());
    }
    w.patch_ptr(records_patch, records_off);
    text_glyphs(w, &t.records, &slots);
}

fn flag(b: bool) -> (v: i32)
    ensures
        v == if b {
            1i32
        } else {
            0i32
        },
{
    if b {
        1
    } else {
        0
    }
}

fn write_text(w: &mut Sink, t: &Text)
    requires
        old(w)@.ok(),
    ensures
        final(w)@ == writing::edit_text(old(w)@, t@),
        final(w)@.ok(),
        final(w).arena.ptr_size == old(w).arena.ptr_size,
{
    rect(w, &t.bounds);
    w.i32(t.font_id);
    w.i32(t.alignment.to_i32());
    w.u32(t.color);
    w.u32(t.font_height);
    w.i32(flag(t.read_only));
    w.i32(flag(t.multiline));
    w.i32(flag(t.word_wrap));
    w.string(t.initial_text.as_str());
    w.string(t.variable.as_str());
}

fn write_font(w: &mut Sink, f: &Font)
    requires
        old(w)@.ok(),
    ensures
        final(w)@ == writing::font(old(w)@, f@),
        final(w)@.ok(),
        final(w).arena.ptr_size == old(w).arena.ptr_size,
{
    w.string(f.name.as_str());
    w.i32(f.glyphs.len() as i32);
    if f.glyphs.len() == 0 {
        w.ptr_value(0);
    } else {
        let mut wide: Vec<u64> = Vec::new();
        let mut i: usize = 0;
        while i < f.glyphs.len()
            invariant
                i <= f.glyphs@.len(),
                wide@.len() == i,
                forall|j: int| 0 <= j < i ==> #[trigger] wide@[j] == f.glyphs@[j],
            decreases f.glyphs@.len() - i,
        {
            wide.push(f.glyphs[i] as u64);
            i = i + 1;
        }
        assert(numbers(wide@) =~= writing::wide(f@.glyphs));
        w.ptr_array(wide);
    }
}

fn write_sprite(w: &mut Sink, v: &Vec<Frame>) -> (r: Result<(), Error>)
    requires
        old(w)@.ok(),
    ensures
        match r {
            Ok(_) => {
                &&& writing::frames_err(model::views(v@), v@.len()) is None
                &&& final(w)@ == writing::sprite(old(w)@, model::views(v@))
                &&& final(w)@.ok()
                &&& final(w).arena.ptr_size == old(w).arena.ptr_size
            },
            Err(e) => writing::frames_err(model::views(v@), v@.len()) == Some(e@),
        },
{
    broadcast use out::group_ext;

    w.i32(v.len() as i32);
    let frames_patch = w.ptr_patch();
    let ghost a = w@;
    w.ptr_value(0);  // phLabels
    let ghost b = w@;
    proof {
        assert(a.extends_to(b));
        growth::lemma_frames(b, model::views(v@));
    }
    let frames_off: u64 = write_frames(w, v)?;
    w.patch_ptr(frames_patch, frames_off);
    Ok(())
}

/// Character record prelude; `decoupled_data` is the 4-byte data union
/// (only a Shape's backing bitmap ID is file-meaningful).
fn char_prelude(w: &mut Sink, decoupled: bool, type_id: i32, decoupled_data: u32) -> (off: u64)
    requires
        old(w)@.ok(),
    ensures
        off == old(w)@.align_ptr().len(),
        final(w)@ == writing::char_prelude(old(w)@, decoupled, type_id, decoupled_data),
        final(w)@.ok(),
        final(w).arena.ptr_size == old(w).arena.ptr_size,
{
    w.align_ptr();
    let off: u64 = w.len();
    w.i32(type_id);
    w.ptr_value(PARENT_ANIM_MAGIC as u64);
    if decoupled {
        w.u32(decoupled_data);
        w.ptr_value(0);  // m_pAnimFile: dead in file
    }
    off
}

fn write_character(w: &mut Sink, decoupled: bool, ch: &Character, index: u64) -> (r: Result<
    u64,
    Error,
>)
    requires
        old(w)@.ok(),
    ensures
        match r {
            Ok(off) => {
                &&& writing::character_err(ch@) is None
                &&& off == old(w)@.align_ptr().len()
                &&& final(w)@ == writing::character(old(w)@, decoupled, ch@, index as nat)
                &&& final(w)@.ok()
                &&& final(w).arena.ptr_size == old(w).arena.ptr_size
            },
            Err(e) => writing::character_err(ch@) == Some(e@),
        },
{
    reveal(writing::character);
    let decoupled_data: u32 = match ch {
        Character::Shape(s) => {
            let id: u16 = match s.bitmap_character_id {
                Some(id) => id,
                None => 0,
            };
            (id as u32) & 0x7FFF
        },
        _ => 0,
    };
    let offset: u64 = char_prelude(w, decoupled, ch.type_id(), decoupled_data);
    match ch {
        Character::Shape(s) => {
            rect(w, &s.bounds);
            w.ptr_value(index);  // pRenderUnit: own character index
        },
        Character::Text(t) => {
            write_text(w, t);
        },
        Character::Font(f) => {
            write_font(w, f);
        },
        Character::Button(b) => {
            write_button(w, b)?;
        },
        Character::Sprite(s) => {
            write_sprite(w, &s.frames)?;
        },
        Character::Sound => {
            w.ptr_value(index);  // zID: own character index
        },
        Character::Bitmap => {
            w.ptr_value(index);  // zID: own character index
        },
        Character::Morph(m) => {
            w.ptr_value(m.start_character_id as u64);
            w.ptr_value(m.end_character_id as u64);
        },
        Character::StaticText(t) => {
            write_static_text(w, t);
        },
        Character::Nothing => {},
        Character::Video => {},
    }
    Ok(offset)
}

/// Characters, each with its place in the next of the slots.
fn write_characters(
    w: &mut Sink,
    decoupled: bool,
    root: u64,
    v: &Vec<CharacterSlot>,
    slots: &Vec<Patch>,
) -> (r: Result<(), Error>)
    requires
        old(w)@.ok(),
        v@.len() == slots@.len(),
        row(old(w)@, places(slots@), 0),
    ensures
        match r {
            Ok(_) => {
                &&& writing::slots_err(model::views(v@), v@.len()) is None
                &&& final(w)@ == writing::characters(
                    old(w)@,
                    decoupled,
                    root as int,
                    model::views(v@),
                    places(slots@),
                    v@.len(),
                )
                &&& final(w)@.ok()
                &&& final(w).arena.ptr_size == old(w).arena.ptr_size
            },
            Err(e) => writing::slots_err(model::views(v@), v@.len()) == Some(e@),
        },
{
    let ghost vs = model::views(v@);
    let ghost ps = places(slots@);
    let ghost o = w@;
    let mut i: usize = 0;
    proof {
        lemma_shaped(v@);
    }
    while i < v.len()
        invariant
            i <= v@.len(),
            o == old(w)@,
            o.ok(),
            vs == model::views(v@),
            ps == places(slots@),
            v@.len() == slots@.len(),
            row(o, ps, 0),
            growth::slots_shaped(vs),
            writing::slots_err(vs, i as nat) is None,
            w@ == writing::characters(o, decoupled, root as int, vs, ps, i as nat),
            w@.ok(),
            w.arena.ptr_size == old(w).arena.ptr_size,
        decreases v@.len() - i,
    {
        let ghost a = w@;
        proof {
            growth::lemma_characters_row(o, decoupled, root as int, vs, ps, i as nat);
            assert(vs[i as int] == v@[i as int]@);
            rows::lemma_row_at(a, ps, i as int);
        }
        let value: u64 = match &v[i] {
            CharacterSlot::Root => root,
            CharacterSlot::Empty => 0,
            CharacterSlot::Character(ch) => {
                let off: u64 = match write_character(w, decoupled, ch, i as u64) {
                    Ok(off) => off,
                    Err(e) => {
                        proof {
                            writing::lemma_slots_sticky(vs, (i + 1) as nat, vs.len());
                        }
                        return Err(e);
                    },
                };
                proof {
                    growth::lemma_character(a, decoupled, ch@, i as nat);
                    out::ext_facts(a, w@);
                    rows::lemma_row_ext(a, w@, ps, i as int);
                    rows::lemma_row_at(w@, ps, i as int);
                }
                off
            },
        };
        assert(ps[i as int] == slots@[i as int].pos());
        w.patch_ptr(slots[i], value);
        i = i + 1;
    }
    Ok(())
}

proof fn lemma_shaped(v: Seq<CharacterSlot>)
    ensures
        growth::slots_shaped(model::views(v)),
{
    assert forall|i: int| 0 <= i < model::views(v).len() implies (#[trigger] model::views(v)[i]
        matches model::CharacterSlot::Character(c) ==> growth::character_shaped(c)) by {
        assert(model::views(v)[i] == v[i]@);
    }
}

/// The fixed part of the root character, with its four slots: frames,
/// characters, imports, exports.
fn root_head(w: &mut Sink, decoupled: bool, movie: &Movie) -> (r: (u64, [Patch; 4]))
    requires
        old(w)@.ok(),
    ensures
        r.0 == old(w)@.align_ptr().len(),
        writing::root_head(old(w)@, decoupled, movie@).0 == final(w)@,
        writing::root_head(old(w)@, decoupled, movie@).1 == places(r.1@),
        final(w)@.ok(),
        final(w).arena.ptr_size == old(w).arena.ptr_size,
{
    let root_offset: u64 = char_prelude(w, decoupled, 9, 0);
    w.i32(movie.frames.len() as i32);
    let frames_patch = w.ptr_patch();
    w.ptr_value(0);  // phLabels: dead in file
    w.i32(movie.characters.len() as i32);
    let characters_patch = w.ptr_patch();
    w.u32(movie.width);
    w.u32(movie.height);
    w.u32(movie.ms_per_frame);
    w.i32(movie.imports.len() as i32);
    let imports_patch = w.ptr_patch();
    w.i32(movie.exports.len() as i32);
    let exports_patch = w.ptr_patch();
    w.ptr_value(0);  // nCurrentConstantIndex: runtime state
    let p = [frames_patch, characters_patch, imports_patch, exports_patch];
    assert(places(p@) =~= writing::root_head(old(w)@, decoupled, movie@).1);
    (root_offset, p)
}

/// The whole movie; returns the place of its root character.
#[verifier::rlimit(30)]
fn write_root(w: &mut Sink, decoupled: bool, movie: &Movie) -> (r: Result<u64, Error>)
    requires
        old(w)@.ok(),
    ensures
        match r {
            Ok(off) => {
                &&& writing::movie_err(movie@) is None
                &&& off == old(w)@.align_ptr().len()
                &&& final(w)@ == writing::root(old(w)@, decoupled, movie@)
                &&& final(w)@.ok()
                &&& final(w).arena.ptr_size == old(w).arena.ptr_size
            },
            Err(e) => writing::movie_err(movie@) == Some(e@),
        },
{
    broadcast use out::group_ext;

    reveal(writing::root);
    let ghost o = w@;
    proof {
        growth::lemma_root_head(o, decoupled, movie@);
    }
    let (root_offset, slots) = root_head(w, decoupled, movie);
    let ghost h = w@;
    let ghost p = places(slots@);
    // Fixup order: exports first (no action streams, but keep the shape),
    // then characters in index order - the root (index 0) movie first -
    // then imports.
    let exports_off: u64 = write_exports(w, &movie.exports);
    proof {
        assert(h.extends_to(h.align_ptr()));
        growth::lemma_exports(h.align_ptr(), movie@.exports, movie@.exports.len());
        assert(h.extends_to(w@));
        rows::lemma_row_ext(h, w@, p, 0);
        growth::lemma_row_four(w@, p);
    }
    w.patch_ptr(slots[3], exports_off);
    let ghost e2 = w@;
    let frames_off: u64 = write_frames(w, &movie.frames)?;
    proof {
        growth::lemma_frames(e2, movie@.frames);
        assert(w@.pending(p[0], w@.ps()));
        assert(w@.pending(p[1], w@.ps()));
        assert(w@.pending(p[2], w@.ps()));
    }
    w.patch_ptr(slots[0], frames_off);
    let ghost f2 = w@;
    // Character slot array, patched as each character is written.
    w.align_ptr();
    let ghost c = w@;
    let characters_off: u64 = w.len();
    proof {
        out::ext_refl(f2);
        assert(f2.extends_to(c));
        growth::lemma_slot_row(c, movie@.characters.len());
    }
    let own = slot_row(w, movie.characters.len());
    proof {
        assert(f2.extends_to(w@));
        assert(w@.pending(p[1], w@.ps()));
        assert(w@.pending(p[2], w@.ps()));
        assert(p[1] < c.len() && p[2] < c.len());
        rows::lemma_row_other(w@, places(own@), 0, p[1], c.len());
    }
    w.patch_ptr(slots[1], characters_off);
    proof {
        assert(w@.pending(p[2], w@.ps()));
        lemma_shaped(movie.characters@);
        growth::lemma_characters_keep(
            w@,
            decoupled,
            root_offset as int,
            movie@.characters,
            places(own@),
            movie@.characters.len(),
            p[2],
        );
    }
    write_characters(w, decoupled, root_offset, &movie.characters, &own)?;
    let ghost c3 = w@;
    let imports_off: u64 = write_imports(w, &movie.imports);
    proof {
        out::ext_refl(c3);
        assert(c3.extends_to(c3.align_ptr()));
        growth::lemma_imports(c3.align_ptr(), movie@.imports, movie@.imports.len());
        assert(c3.extends_to(w@));
        assert(w@.pending(p[2], w@.ps()));
    }
    w.patch_ptr(slots[2], imports_off);
    Ok(root_offset)
}

/// The digit of a decoupled flag.
fn decoupled_digit(decoupled: bool) -> (d: u8)
    ensures
        d == if decoupled {
            0x31u8
        } else {
            0x30u8
        },
{
    if decoupled {
        0x31
    } else {
        0x30
    }
}

/// The header tag that the options ask for.
fn tag(options: &WriteOptions) -> (t: [u8; 16])
    ensures
        t@ == options.tag(),
{
    match options.raw_tag {
        Some(raw) => raw,
        None => {
            let digit: u8 = match options.ptr_size {
                PtrSize::Four => 0x34,
                PtrSize::Eight => 0x38,
            };
            let t = [
                0x41,
                0x70,
                0x74,
                0x20,
                0x44,
                0x61,
                0x74,
                0x61,
                0x3A,
                decoupled_digit(options.decoupled),
                0x3A,
                0x30 + options.swf_version % 10,
                0x3A,
                digit,
                0,
                0,
            ];
            assert(t@ =~= writing::long_tag(
                options.ptr_size,
                options.decoupled,
                options.swf_version,
            ));
            t
        },
    }
}

/// Serialize to (`.apt` bytes, `.const` bytes) for the given target layout.
pub fn write(file: &AptFile, options: &WriteOptions) -> (r: Result<(Vec<u8>, Vec<u8>), Error>)
    ensures
        match r {
            Ok(b) => {
                &&& writing::file_err(
                    file@,
                    options.ptr_size.width(),
                    options.decoupled,
                    options.tag(),
                ) is None
                &&& writing::file_bytes(
                    file@,
                    options.ptr_size.width(),
                    options.decoupled,
                    options.tag(),
                ) == (b.0@, b.1@)
            },
            Err(e) => writing::file_err(
                file@,
                options.ptr_size.width(),
                options.decoupled,
                options.tag(),
            ) == Some(e@),
        },
{
    let mut w = Sink::new(options.ptr_size);
    // 16-byte header tag; data never starts at offset 0, so 0 = NULL works.
    let t = tag(options);
    w.bytes(t.as_slice());
    let ghost o = w@;
    let root_offset: u64 = write_root(&mut w, options.decoupled, &file.movie)?;
    let ghost laid = writing::layout(
        file@.movie,
        options.ptr_size.width(),
        options.decoupled,
        options.tag(),
    );
    assert(w@ == laid);
    let Sink { mut arena, consts, mut deferred } = w;
    proof {
        flush::lemma_flush_consts(laid, Seq::empty());
        out::lemma_ok_consts(laid, Seq::empty());
        assert(joined(arena@, deferred@) == (Out { consts: Seq::empty(), ..laid }));
    }
    deferred.flush(&mut arena)?;
    let const_file = ConstFile {
        magic: file.const_magic,
        main_character_offset: root_offset,
        constants: consts,
    };
    let const_data = const_file.write(options.ptr_size)?;
    Ok((arena.buf, const_data))
}

} // verus!
