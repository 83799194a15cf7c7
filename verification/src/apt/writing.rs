//! How a movie is laid out.
//!
//! The movie is walked in the engine's canonical fixup order (exports, then
//! characters in index order - the root movie first - then imports) so that
//! Push-item constant indices come out globally sequential.
use super::constfile;
use super::encode;
use super::flush;
use super::model::{self, or_else};
use super::out::Out;
use super::types::{
    identity_cxform, identity_matrix, GlyphEntry, Matrix, PtrSize, Rect, PARENT_ANIM_MAGIC,
};
use vstd::prelude::*;

verus! {

/// The filter cannot be written: it has not as many ratios as colors.
pub open spec fn filter_err(f: model::Filter) -> Option<model::Error> {
    match f {
        model::Filter::GradientGlow { colors, ratios, .. } => if colors.len() != ratios.len() {
            Some(model::Error::GradientLengthMismatch)
        } else {
            None
        },
        _ => None,
    }
}

pub open spec fn filters_err(v: Seq<model::Filter>, n: nat) -> Option<model::Error>
    decreases n,
{
    if n == 0 {
        None
    } else {
        or_else(filters_err(v, (n - 1) as nat), filter_err(v[n - 1]))
    }
}

pub open spec fn events_err(v: Seq<model::EventAction>, n: nat) -> Option<model::Error>
    decreases n,
{
    if n == 0 {
        None
    } else {
        or_else(events_err(v, (n - 1) as nat), encode::block_err(v[n - 1].actions))
    }
}

pub open spec fn place_err(p: model::PlaceObject) -> Option<model::Error> {
    or_else(
        match p.clip_actions {
            Some(v) => events_err(v, v.len()),
            None => None,
        },
        filters_err(p.filters, p.filters.len()),
    )
}

/// Why a control cannot be written.
pub open spec fn control_err(c: model::Control) -> Option<model::Error> {
    match c {
        model::Control::Action(s) => encode::block_err(s),
        model::Control::PlaceObject(p) => place_err(p),
        model::Control::InitAction { actions, .. } => encode::block_err(actions),
        _ => None,
    }
}

pub open spec fn controls_err(v: Seq<model::Control>, n: nat) -> Option<model::Error>
    decreases n,
{
    if n == 0 {
        None
    } else {
        or_else(controls_err(v, (n - 1) as nat), control_err(v[n - 1]))
    }
}

pub open spec fn frames_err(v: Seq<model::Frame>, n: nat) -> Option<model::Error>
    decreases n,
{
    if n == 0 {
        None
    } else {
        or_else(
            frames_err(v, (n - 1) as nat),
            controls_err(v[n - 1].controls, v[n - 1].controls.len()),
        )
    }
}

pub open spec fn actions_err(v: Seq<model::ButtonAction>, n: nat) -> Option<model::Error>
    decreases n,
{
    if n == 0 {
        None
    } else {
        or_else(actions_err(v, (n - 1) as nat), encode::block_err(v[n - 1].actions))
    }
}

pub open spec fn character_err(c: model::Character) -> Option<model::Error> {
    match c {
        model::Character::Button(b) => actions_err(b.actions, b.actions.len()),
        model::Character::Sprite(f) => frames_err(f, f.len()),
        _ => None,
    }
}

pub open spec fn slots_err(v: Seq<model::CharacterSlot>, n: nat) -> Option<model::Error>
    decreases n,
{
    if n == 0 {
        None
    } else {
        or_else(
            slots_err(v, (n - 1) as nat),
            match v[n - 1] {
                model::CharacterSlot::Character(c) => character_err(c),
                _ => None,
            },
        )
    }
}

/// Why a movie cannot be laid out: the first error on the way through it.
pub open spec fn movie_err(m: model::Movie) -> Option<model::Error> {
    or_else(
        frames_err(m.frames, m.frames.len()),
        slots_err(m.characters, m.characters.len()),
    )
}

pub open spec fn rect(o: Out, r: Rect) -> Out {
    o.put(4, r.left as nat).put(4, r.top as nat).put(4, r.right as nat).put(4, r.bottom as nat)
}

pub open spec fn matrix(o: Out, m: Matrix) -> Out {
    o.put(4, m.a as nat).put(4, m.b as nat).put(4, m.c as nat).put(4, m.d as nat).put(
        4,
        m.tx as nat,
    ).put(4, m.ty as nat)
}

/// The first `n` of a list of 4-byte numbers.
pub open spec fn words(o: Out, v: Seq<u32>, n: nat) -> Out
    decreases n,
{
    if n == 0 {
        o
    } else {
        words(o, v, (n - 1) as nat).put(4, v[n - 1] as nat)
    }
}

/// The first `n` of a list of bytes.
pub open spec fn octets(o: Out, v: Seq<u8>, n: nat) -> Out
    decreases n,
{
    if n == 0 {
        o
    } else {
        octets(o, v, (n - 1) as nat).put(1, v[n - 1] as nat)
    }
}

pub open spec fn float_cxform(o: Out, c: model::FloatCxForm) -> Out {
    words(words(o, c.scale, 4), c.translate, 4)
}

/// `n` empty pointer slots, with their places.
pub open spec fn slot_row(o: Out, n: nat) -> (Out, Seq<int>)
    decreases n,
{
    if n == 0 {
        (o, Seq::empty())
    } else {
        let (a, s) = slot_row(o, (n - 1) as nat);
        (a.ptr_slot(), s.push(a.align_ptr().len()))
    }
}

/// What follows the id of a filter.
#[verifier::opaque]
pub open spec fn filter_body(a: Out, f: model::Filter) -> Out {
    match f {
        model::Filter::DropShadow { color, blur_x, blur_y, angle, distance, strength, flags } => {
            a.put(4, color as nat).put(4, blur_x as nat).put(4, blur_y as nat).put(
                4,
                angle as nat,
            ).put(4, distance as nat).put(2, strength as nat).put(2, flags as nat)
        },
        model::Filter::Blur { blur_x, blur_y, flags } => {
            a.put(4, blur_x as nat).put(4, blur_y as nat).put(2, flags as nat).put(2, 0)
        },
        model::Filter::Glow { color, blur_x, blur_y, strength, flags } => {
            a.put(4, color as nat).put(4, blur_x as nat).put(4, blur_y as nat).put(
                2,
                strength as nat,
            ).put(2, flags as nat)
        },
        model::Filter::Bevel {
            highlight_color,
            shadow_color,
            blur_x,
            blur_y,
            angle,
            distance,
            strength,
            flags,
        } => {
            a.put(4, highlight_color as nat).put(4, shadow_color as nat).put(
                4,
                blur_x as nat,
            ).put(4, blur_y as nat).put(4, angle as nat).put(4, distance as nat).put(
                2,
                strength as nat,
            ).put(2, flags as nat)
        },
        model::Filter::GradientGlow {
            colors,
            ratios,
            blur_x,
            blur_y,
            angle,
            distance,
            strength,
            flags,
            ..
        } => {
            let b = a.put(4, (colors.len() as u32) as nat);
            let c = b.ptr_slot();
            let d = c.ptr_slot().put(4, blur_x as nat).put(4, blur_y as nat).put(
                4,
                angle as nat,
            ).put(4, distance as nat).put(2, strength as nat).put(2, flags as nat).align(4);
            let e = words(d, colors, colors.len()).ptr_fill(b.align_ptr().len(), d.len());
            octets(e, ratios, ratios.len()).ptr_fill(c.align_ptr().len(), e.len())
        },
        model::Filter::ColorMatrix { values } => words(a, values, values.len()),
    }
}

/// A filter. It starts at the next pointer boundary.
pub open spec fn filter(o: Out, f: model::Filter) -> Out {
    filter_body(o.align_ptr().put(4, f.filter_id() as nat), f)
}

/// The first `n` filters, each with its place in the next of the slots.
pub open spec fn filters(o: Out, v: Seq<model::Filter>, slots: Seq<int>, n: nat) -> Out
    decreases n,
{
    if n == 0 {
        o
    } else {
        let a = filters(o, v, slots, (n - 1) as nat);
        filter(a, v[n - 1]).ptr_fill(slots[n - 1], a.align_ptr().len())
    }
}

/// The first `n` clip event handlers, their streams still missing.
pub open spec fn event_heads(o: Out, v: Seq<model::EventAction>, n: nat) -> (Out, Seq<int>)
    decreases n,
{
    if n == 0 {
        (o, Seq::empty())
    } else {
        let (a, s) = event_heads(o, v, (n - 1) as nat);
        let b = a.align_ptr().put_i32(v[n - 1].triggers).put_i32(v[n - 1].key_code);
        (b.ptr_slot(), s.push(b.align_ptr().len()))
    }
}

/// The first `n` streams of clip event handlers.
pub open spec fn event_streams(o: Out, v: Seq<model::EventAction>, slots: Seq<int>, n: nat) -> Out
    decreases n,
{
    if n == 0 {
        o
    } else {
        let a = event_streams(o, v, slots, (n - 1) as nat);
        encode::stream(a, v[n - 1].actions).ptr_fill(slots[n - 1], a.len())
    }
}

/// A set of clip event handlers; its place goes to the slot `p`.
pub open spec fn event_set(o: Out, v: Seq<model::EventAction>, p: int) -> Out {
    let a = o.align_ptr();
    let b = a.put_i32(v.len() as i32);
    let c = b.ptr_slot().ptr_fill(p, a.len()).align_ptr();
    let (d, slots) = event_heads(c, v, v.len());
    event_streams(d.ptr_fill(b.align_ptr().len(), c.len()), v, slots, v.len())
}

/// A list of filters; its place goes to the slot `p`.
pub open spec fn filter_set(o: Out, v: Seq<model::Filter>, p: int) -> Out {
    let a = o.align_ptr();
    let (b, slots) = slot_row(a, v.len());
    filters(b.ptr_fill(p, a.len()), v, slots, v.len())
}

/// The flag word of a placement.
pub open spec fn place_flags(p: model::PlaceObject) -> i32 {
    let f0: i32 = if p.is_move {
        0x01
    } else {
        0
    };
    let f1: i32 = if p.character_id is Some {
        0x02
    } else {
        0
    };
    let f2: i32 = if p.matrix is Some {
        0x04
    } else {
        0
    };
    let f3: i32 = if p.cxform is Some {
        0x08
    } else {
        0
    };
    let f4: i32 = if p.ratio is Some {
        0x10
    } else {
        0
    };
    let f5: i32 = if p.name is Some {
        0x20
    } else {
        0
    };
    let f6: i32 = if p.clip_depth is Some {
        0x40
    } else {
        0
    };
    let f7: i32 = if p.clip_actions is Some {
        0x80
    } else {
        0
    };
    f0 | f1 | f2 | f3 | f4 | f5 | f6 | f7
}

pub open spec fn or<T>(v: Option<T>, d: T) -> T {
    match v {
        Some(x) => x,
        None => d,
    }
}

/// The fixed part of a placement, up to the slot of its event handlers. A
/// non-clipping placement says -1: the engine takes any other value for a mask.
pub open spec fn place_head(o: Out, p: model::PlaceObject) -> Out {
    let cx = or(p.cxform, identity_cxform());
    let a = matrix(
        o.put_i32(place_flags(p)).put_i32(p.depth).put_i32(or(p.character_id, (-1) as i32)),
        or(p.matrix, identity_matrix()),
    ).put(4, cx.scale as nat).put(4, cx.bias as nat).put(4, or(p.ratio, 0) as nat);
    let b = match p.name {
        Some(s) => a.text(s),
        None => a.ptr_value(0),
    };
    b.put_i32(or(p.clip_depth, (-1) as i32))
}

/// A placement.
#[verifier::opaque]
pub open spec fn place_object(o: Out, p: model::PlaceObject) -> Out {
    let a = place_head(o, p);
    let actions = a.align_ptr().len();
    let b = a.ptr_slot();
    if p.is_place_object_3() {
        let c = b.put_i32(or(p.blend_mode, (-1) as i32)).put(4, (p.filters.len() as u32) as nat);
        let d = match p.clip_actions {
            Some(v) => event_set(c.ptr_slot(), v, actions),
            None => c.ptr_slot(),
        };
        filter_set(d, p.filters, c.align_ptr().len())
    } else {
        match p.clip_actions {
            Some(v) => event_set(b, v, actions),
            None => b,
        }
    }
}

/// A pointer to a stream, and the stream.
pub open spec fn stream_behind(o: Out, s: Seq<model::Instruction>) -> Out {
    let a = o.ptr_slot();
    encode::stream(a, s).ptr_fill(o.align_ptr().len(), a.len())
}

/// A control. It starts at the next pointer boundary.
pub open spec fn control(o: Out, c: model::Control) -> Out {
    let a = o.align_ptr().put_i32(c.type_id()).align_ptr();
    match c {
        model::Control::Action(s) => stream_behind(a, s),
        model::Control::FrameLabel(s) => a.text(s),
        model::Control::PlaceObject(p) => place_object(a, p),
        model::Control::RemoveObject { depth } => a.put_i32(depth),
        model::Control::BackgroundColor(v) => a.put(4, v as nat),
        model::Control::StartSound { sound_id } => a.put_i32(sound_id),
        model::Control::StartSoundStream { sound_id } => a.put_i32(sound_id),
        model::Control::InitAction { sprite_id, actions } => stream_behind(
            a.put_i32(sprite_id),
            actions,
        ),
    }
}

/// The first `n` controls, each with its place in the next of the slots.
pub open spec fn controls(o: Out, v: Seq<model::Control>, slots: Seq<int>, n: nat) -> Out
    decreases n,
{
    if n == 0 {
        o
    } else {
        let a = controls(o, v, slots, (n - 1) as nat);
        control(a, v[n - 1]).ptr_fill(slots[n - 1], a.align_ptr().len())
    }
}

/// The controls of a frame; their place goes to the slot `p`.
pub open spec fn frame_body(o: Out, f: model::Frame, p: int) -> Out {
    let a = o.align_ptr();
    let (b, slots) = slot_row(a, f.controls.len());
    controls(b.ptr_fill(p, a.len()), f.controls, slots, f.controls.len())
}

/// The first `n` frame heads, their controls still missing.
pub open spec fn frame_heads(o: Out, v: Seq<model::Frame>, n: nat) -> (Out, Seq<int>)
    decreases n,
{
    if n == 0 {
        (o, Seq::empty())
    } else {
        let (a, s) = frame_heads(o, v, (n - 1) as nat);
        let b = a.align_ptr().put_i32(v[n - 1].controls.len() as i32);
        (b.ptr_slot(), s.push(b.align_ptr().len()))
    }
}

/// The controls of the first `n` frames.
pub open spec fn frame_bodies(o: Out, v: Seq<model::Frame>, slots: Seq<int>, n: nat) -> Out
    decreases n,
{
    if n == 0 {
        o
    } else {
        frame_body(frame_bodies(o, v, slots, (n - 1) as nat), v[n - 1], slots[n - 1])
    }
}

/// Frames. No frames take no room.
pub open spec fn frames(o: Out, v: Seq<model::Frame>) -> Out {
    if v.len() == 0 {
        o
    } else {
        let (a, slots) = frame_heads(o.align_ptr(), v, v.len());
        frame_bodies(a, v, slots, v.len())
    }
}

/// Where frames start. A frameless movie must say NULL: the engine only checks
/// for that before it follows the pointer.
pub open spec fn frames_place(o: Out, v: Seq<model::Frame>) -> int {
    if v.len() == 0 {
        0
    } else {
        o.align_ptr().len()
    }
}

/// The first `n` exports.
pub open spec fn exports(o: Out, v: Seq<model::Export>, n: nat) -> Out
    decreases n,
{
    if n == 0 {
        o
    } else {
        exports(o, v, (n - 1) as nat).align_ptr().text(v[n - 1].name).put(
            4,
            v[n - 1].character_id as nat,
        )
    }
}

/// The first `n` imports.
pub open spec fn imports(o: Out, v: Seq<model::Import>, n: nat) -> Out
    decreases n,
{
    if n == 0 {
        o
    } else {
        imports(o, v, (n - 1) as nat).align_ptr().text(v[n - 1].movie).text(v[n - 1].name).put(
            4,
            v[n - 1].character_id as nat,
        ).ptr_value(0)
    }
}

/// The first `n` vertices.
pub open spec fn vertices(o: Out, v: Seq<(u32, u32)>, n: nat) -> Out
    decreases n,
{
    if n == 0 {
        o
    } else {
        vertices(o, v, (n - 1) as nat).put(4, v[n - 1].0 as nat).put(4, v[n - 1].1 as nat)
    }
}

/// The first `n` triangles.
pub open spec fn triangles(o: Out, v: Seq<Seq<i16>>, n: nat) -> Out
    decreases n,
{
    if n == 0 {
        o
    } else {
        triangles(o, v, (n - 1) as nat).put_i16(v[n - 1][0]).put_i16(v[n - 1][1]).put_i16(
            v[n - 1][2],
        )
    }
}

/// The first `n` button records.
pub open spec fn button_records(o: Out, v: Seq<model::ButtonRecord>, n: nat) -> Out
    decreases n,
{
    if n == 0 {
        o
    } else {
        let r = v[n - 1];
        float_cxform(
            matrix(
                button_records(o, v, (n - 1) as nat).align_ptr().put_i32(r.states).ptr_value(
                    r.character_id as nat,
                ).put_i32(r.layer),
                r.matrix,
            ),
            r.cxform,
        )
    }
}

/// The first `n` button actions, their streams still missing.
pub open spec fn action_heads(o: Out, v: Seq<model::ButtonAction>, n: nat) -> (Out, Seq<int>)
    decreases n,
{
    if n == 0 {
        (o, Seq::empty())
    } else {
        let (a, s) = action_heads(o, v, (n - 1) as nat);
        let b = a.align_ptr().put_i32(v[n - 1].conditions);
        (b.ptr_slot(), s.push(b.align_ptr().len()))
    }
}

/// The first `n` streams of button actions.
pub open spec fn action_streams(o: Out, v: Seq<model::ButtonAction>, slots: Seq<int>, n: nat) -> Out
    decreases n,
{
    if n == 0 {
        o
    } else {
        let a = action_streams(o, v, slots, (n - 1) as nat);
        encode::stream(a, v[n - 1].actions).ptr_fill(slots[n - 1], a.len())
    }
}

/// The fixed part of a button, with the places of its five slots: vertices,
/// triangles, records, actions, sounds.
pub open spec fn button_head(o: Out, b: model::Button) -> (Out, Seq<int>) {
    let a1 = rect(
        o.put_i32(
            if b.is_menu {
                1
            } else {
                0
            },
        ),
        b.hit_test_bounds,
    ).put_i32(b.hit_test_triangles.len() as i32).put_i32(b.hit_test_vertices.len() as i32);
    let a2 = a1.ptr_slot();
    let a3 = a2.ptr_slot().put_i32(b.records.len() as i32);
    let a4 = a3.ptr_slot().put_i32(b.actions.len() as i32);
    let a5 = a4.ptr_slot();
    (
        a5.ptr_slot(),
        seq![
            a1.align_ptr().len(),
            a2.align_ptr().len(),
            a3.align_ptr().len(),
            a4.align_ptr().len(),
            a5.align_ptr().len(),
        ],
    )
}

/// The transition sounds of a button; their place, or NULL where there are none,
/// goes to the slot `p`.
pub open spec fn button_sounds(o: Out, b: model::Button, p: int) -> Out {
    match b.sounds {
        Some(s) => {
            let a = o.align_ptr();
            a.ptr_value(s.over_up_to_idle as nat).ptr_value(s.idle_to_over_up as nat).ptr_value(
                s.over_up_to_over_down as nat,
            ).ptr_value(s.over_down_to_over_up as nat).ptr_fill(p, a.len())
        },
        None => o.ptr_fill(p, 0),
    }
}

/// A button: its mesh, its records, its actions with their streams, its sounds.
#[verifier::opaque]
pub open spec fn button(o: Out, b: model::Button) -> Out {
    let (h, p) = button_head(o, b);
    let v = h.align(4);
    let v2 = vertices(v, b.hit_test_vertices, b.hit_test_vertices.len()).ptr_fill(p[0], v.len());
    let t = v2.align(2);
    let t2 = triangles(t, b.hit_test_triangles, b.hit_test_triangles.len()).ptr_fill(
        p[1],
        t.len(),
    );
    let r = t2.align_ptr();
    let r2 = button_records(r, b.records, b.records.len()).ptr_fill(p[2], r.len());
    let c = r2.align_ptr();
    let (c2, slots) = action_heads(c, b.actions, b.actions.len());
    let s = action_streams(c2.ptr_fill(p[3], c.len()), b.actions, slots, b.actions.len());
    button_sounds(s, b, p[4])
}

/// The first `n` glyphs.
pub open spec fn glyphs(o: Out, v: Seq<GlyphEntry>, n: nat) -> Out
    decreases n,
{
    if n == 0 {
        o
    } else {
        glyphs(o, v, (n - 1) as nat).put_i16(v[n - 1].index).put_i16(v[n - 1].advance)
    }
}

/// The first `n` runs of static text, their glyphs still missing.
pub open spec fn text_heads(o: Out, v: Seq<model::StaticTextRecord>, n: nat) -> (Out, Seq<int>)
    decreases n,
{
    if n == 0 {
        (o, Seq::empty())
    } else {
        let (a, s) = text_heads(o, v, (n - 1) as nat);
        let r = v[n - 1];
        let b = float_cxform(a.align_ptr().put_i32(r.font_id), r.cxform).put(
            4,
            r.x_offset as nat,
        ).put(4, r.y_offset as nat).put(4, r.scale as nat).put_i32(r.glyphs.len() as i32);
        (b.ptr_slot(), s.push(b.align_ptr().len()))
    }
}

/// The glyphs of the first `n` runs of static text.
pub open spec fn text_glyphs(
    o: Out,
    v: Seq<model::StaticTextRecord>,
    slots: Seq<int>,
    n: nat,
) -> Out
    decreases n,
{
    if n == 0 {
        o
    } else {
        let a = text_glyphs(o, v, slots, (n - 1) as nat).align(2);
        glyphs(a, v[n - 1].glyphs, v[n - 1].glyphs.len()).ptr_fill(slots[n - 1], a.len())
    }
}

pub open spec fn static_text(o: Out, t: model::StaticText) -> Out {
    let a = matrix(rect(o, t.bounds), t.matrix).put_i32(t.records.len() as i32);
    let b = a.ptr_slot().align_ptr();
    let (c, slots) = text_heads(b, t.records, t.records.len());
    text_glyphs(c.ptr_fill(a.align_ptr().len(), b.len()), t.records, slots, t.records.len())
}

pub open spec fn edit_text(o: Out, t: model::Text) -> Out {
    let flag = |b: bool|
        if b {
            1i32
        } else {
            0i32
        };
    rect(o, t.bounds).put_i32(t.font_id).put_i32(t.alignment.code()).put(4, t.color as nat).put(
        4,
        t.font_height as nat,
    ).put_i32(flag(t.read_only)).put_i32(flag(t.multiline)).put_i32(flag(t.word_wrap)).text(
        t.initial_text,
    ).text(t.variable)
}

/// Numbers as they stand in pointer-width slots.
pub open spec fn wide(v: Seq<u32>) -> Seq<nat> {
    Seq::new(v.len(), |i: int| v[i] as nat)
}

pub open spec fn font(o: Out, f: model::Font) -> Out {
    let a = o.text(f.name).put_i32(f.glyphs.len() as i32);
    if f.glyphs.len() == 0 {
        a.ptr_value(0)
    } else {
        a.ptr_array(wide(f.glyphs))
    }
}

pub open spec fn sprite(o: Out, v: Seq<model::Frame>) -> Out {
    let a = o.put_i32(v.len() as i32);
    let b = a.ptr_slot().ptr_value(0);
    frames(b, v).ptr_fill(a.align_ptr().len(), frames_place(b, v))
}

/// The prelude of a character; `data` stands in decoupled files only.
pub open spec fn char_prelude(o: Out, decoupled: bool, type_id: i32, data: u32) -> Out {
    let a = o.align_ptr().put_i32(type_id).ptr_value(PARENT_ANIM_MAGIC as nat);
    if decoupled {
        a.put(4, data as nat).ptr_value(0)
    } else {
        a
    }
}

/// The data word of a character: the bitmap that backs a shape.
pub open spec fn decoupled_data(c: model::Character) -> u32 {
    match c {
        model::Character::Shape(s) => (or(s.bitmap_character_id, 0) as u32) & 0x7FFF,
        _ => 0,
    }
}

/// The character at `index`. It starts at the next pointer boundary.
#[verifier::opaque]
pub open spec fn character(o: Out, decoupled: bool, c: model::Character, index: nat) -> Out {
    let a = char_prelude(o, decoupled, c.type_id(), decoupled_data(c));
    match c {
        model::Character::Shape(s) => rect(a, s.bounds).ptr_value(index),
        model::Character::Text(t) => edit_text(a, t),
        model::Character::Font(f) => font(a, f),
        model::Character::Button(b) => button(a, b),
        model::Character::Sprite(f) => sprite(a, f),
        model::Character::Sound => a.ptr_value(index),
        model::Character::Bitmap => a.ptr_value(index),
        model::Character::Morph(m) => a.ptr_value(m.start_character_id as nat).ptr_value(
            m.end_character_id as nat,
        ),
        model::Character::StaticText(t) => static_text(a, t),
        model::Character::Nothing => a,
        model::Character::Video => a,
    }
}

/// The first `n` characters, each with its place in the next of the slots.
pub open spec fn characters(
    o: Out,
    decoupled: bool,
    root: int,
    v: Seq<model::CharacterSlot>,
    slots: Seq<int>,
    n: nat,
) -> Out
    decreases n,
{
    if n == 0 {
        o
    } else {
        let a = characters(o, decoupled, root, v, slots, (n - 1) as nat);
        match v[n - 1] {
            model::CharacterSlot::Root => a.ptr_fill(slots[n - 1], root),
            model::CharacterSlot::Empty => a.ptr_fill(slots[n - 1], 0),
            model::CharacterSlot::Character(c) => character(
                a,
                decoupled,
                c,
                (n - 1) as nat,
            ).ptr_fill(slots[n - 1], a.align_ptr().len()),
        }
    }
}

/// The fixed part of the root character, with the places of its four slots:
/// frames, characters, imports, exports.
pub open spec fn root_head(o: Out, decoupled: bool, m: model::Movie) -> (Out, Seq<int>) {
    let a1 = char_prelude(o, decoupled, 9, 0).put_i32(m.frames.len() as i32);
    let a2 = a1.ptr_slot().ptr_value(0).put_i32(m.characters.len() as i32);
    let a3 = a2.ptr_slot().put(4, m.width as nat).put(4, m.height as nat).put(
        4,
        m.ms_per_frame as nat,
    ).put_i32(m.imports.len() as i32);
    let a4 = a3.ptr_slot().put_i32(m.exports.len() as i32);
    (
        a4.ptr_slot().ptr_value(0),
        seq![
            a1.align_ptr().len(),
            a2.align_ptr().len(),
            a3.align_ptr().len(),
            a4.align_ptr().len(),
        ],
    )
}

/// The whole movie. Its root character starts at the next pointer boundary.
#[verifier::opaque]
pub open spec fn root(o: Out, decoupled: bool, m: model::Movie) -> Out {
    let (h, p) = root_head(o, decoupled, m);
    let e = h.align_ptr();
    let e2 = exports(e, m.exports, m.exports.len()).ptr_fill(p[3], e.len());
    let f2 = frames(e2, m.frames).ptr_fill(p[0], frames_place(e2, m.frames));
    let c = f2.align_ptr();
    let (c2, slots) = slot_row(c, m.characters.len());
    let c3 = characters(
        c2.ptr_fill(p[1], c.len()),
        decoupled,
        o.align_ptr().len(),
        m.characters,
        slots,
        m.characters.len(),
    );
    let i = c3.align_ptr();
    imports(i, m.imports, m.imports.len()).ptr_fill(p[2], i.len())
}

/// The tag `"Apt Data:<decoupled>:<swfver>:<ptrsize>"`, filled up with zeros.
pub open spec fn long_tag(ptr_size: PtrSize, decoupled: bool, swf_version: u8) -> Seq<u8> {
    seq![
        0x41u8,
        0x70,
        0x74,
        0x20,
        0x44,
        0x61,
        0x74,
        0x61,
        0x3A,
        if decoupled {
            0x31
        } else {
            0x30
        },
        0x3A,
        (0x30 + swf_version % 10) as u8,
        0x3A,
        match ptr_size {
            PtrSize::Four => 0x34,
            PtrSize::Eight => 0x38,
        },
        0,
        0,
    ]
}

/// The movie behind its header tag, with the out-of-line data still to be placed.
pub open spec fn layout(m: model::Movie, ps: nat, decoupled: bool, tag: Seq<u8>) -> Out {
    root(Out::empty(ps).raw(tag), decoupled, m)
}

/// Where the root character of the movie stands.
pub open spec fn root_place(ps: nat, tag: Seq<u8>) -> u64 {
    Out::empty(ps).raw(tag).align_ptr().len() as u64
}

/// The constant file that belongs to the movie.
pub open spec fn const_part(
    f: model::AptFile,
    ps: nat,
    decoupled: bool,
    tag: Seq<u8>,
) -> model::ConstFile {
    model::ConstFile {
        magic: f.const_magic,
        main_character_offset: root_place(ps, tag),
        constants: layout(f.movie, ps, decoupled, tag).consts,
    }
}

/// The bytes of the `.apt` and the `.const` file.
pub open spec fn file_bytes(f: model::AptFile, ps: nat, decoupled: bool, tag: Seq<u8>) -> (
    Seq<u8>,
    Seq<u8>,
) {
    (
        flush::flush(layout(f.movie, ps, decoupled, tag)).img.bytes,
        constfile::const_bytes(const_part(f, ps, decoupled, tag), ps),
    )
}

/// The first string, if any, that latin-1 cannot hold.
pub open spec fn foreign_err(s: Option<Seq<char>>) -> Option<model::Error> {
    match s {
        Some(s) => Some(model::Error::NonLatin1String(s)),
        None => None,
    }
}

/// Why a file cannot be written: a bad target or gradient, else a string of the
/// movie that latin-1 cannot hold, else such a string among its constants.
pub open spec fn file_err(f: model::AptFile, ps: nat, decoupled: bool, tag: Seq<u8>) -> Option<
    model::Error,
> {
    let strings = flush::all_strings(layout(f.movie, ps, decoupled, tag));
    or_else(
        movie_err(f.movie),
        or_else(
            foreign_err(flush::first_foreign(strings, strings.len())),
            foreign_err(constfile::const_foreign(const_part(f, ps, decoupled, tag), ps)),
        ),
    )
}

/// The first error stays the first.
pub proof fn lemma_filters_sticky(v: Seq<model::Filter>, i: nat, n: nat)
    requires
        i <= n,
        filters_err(v, i) is Some,
    ensures
        filters_err(v, n) == filters_err(v, i),
    decreases n - i,
{
    if i < n {
        lemma_filters_sticky(v, i, (n - 1) as nat);
    }
}

/// The first error stays the first.
pub proof fn lemma_events_sticky(v: Seq<model::EventAction>, i: nat, n: nat)
    requires
        i <= n,
        events_err(v, i) is Some,
    ensures
        events_err(v, n) == events_err(v, i),
    decreases n - i,
{
    if i < n {
        lemma_events_sticky(v, i, (n - 1) as nat);
    }
}

/// The first error stays the first.
pub proof fn lemma_controls_sticky(v: Seq<model::Control>, i: nat, n: nat)
    requires
        i <= n,
        controls_err(v, i) is Some,
    ensures
        controls_err(v, n) == controls_err(v, i),
    decreases n - i,
{
    if i < n {
        lemma_controls_sticky(v, i, (n - 1) as nat);
    }
}

/// The first error stays the first.
pub proof fn lemma_frames_sticky(v: Seq<model::Frame>, i: nat, n: nat)
    requires
        i <= n,
        frames_err(v, i) is Some,
    ensures
        frames_err(v, n) == frames_err(v, i),
    decreases n - i,
{
    if i < n {
        lemma_frames_sticky(v, i, (n - 1) as nat);
    }
}

/// The first error stays the first.
pub proof fn lemma_actions_sticky(v: Seq<model::ButtonAction>, i: nat, n: nat)
    requires
        i <= n,
        actions_err(v, i) is Some,
    ensures
        actions_err(v, n) == actions_err(v, i),
    decreases n - i,
{
    if i < n {
        lemma_actions_sticky(v, i, (n - 1) as nat);
    }
}

/// The first error stays the first.
pub proof fn lemma_slots_sticky(v: Seq<model::CharacterSlot>, i: nat, n: nat)
    requires
        i <= n,
        slots_err(v, i) is Some,
    ensures
        slots_err(v, n) == slots_err(v, i),
    decreases n - i,
{
    if i < n {
        lemma_slots_sticky(v, i, (n - 1) as nat);
    }
}

} // verus!
