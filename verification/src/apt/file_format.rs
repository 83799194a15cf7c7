//! How a movie stands in the bytes of an `.apt` file, and its constants in those of a
//! `.const` file.
//!
//! Everything is said of bytes at distances from where a structure starts. Numbers are
//! little-endian; pointers are as wide as the file says and stand at multiples of their
//! width.
use super::decode::{self, Ctx};
use super::model;
use super::parsing::Px;
use super::reader::{latin1, reps, terminator, Rd, Src};
use super::types::{Matrix, Rect, TextAlignment};
use vstd::prelude::*;

verus! {

/// The two bytes at `p` as a number.
pub open spec fn half(d: Seq<u8>, p: int) -> u16 {
    (d[p] + 0x100 * d[p + 1]) as u16
}

/// The four bytes at `p` as a number.
pub open spec fn word(d: Seq<u8>, p: int) -> u32 {
    (d[p] + 0x100 * d[p + 1] + 0x1_0000 * d[p + 2] + 0x100_0000 * d[p + 3]) as u32
}

/// The pointer at `p`.
pub open spec fn address(d: Seq<u8>, p: int, ps: nat) -> u64 {
    if ps == 4 {
        word(d, p) as u64
    } else {
        (word(d, p) + 0x1_0000_0000 * word(d, p + 4)) as u64
    }
}

/// The first multiple of `ps`, a pointer's width, from `p` on.
#[verifier::opaque]
pub open spec fn next(p: int, ps: nat) -> int {
    if ps == 8 {
        if p % 8 == 0 {
            p
        } else {
            p + 8 - p % 8
        }
    } else if ps == 4 {
        if p % 4 == 0 {
            p
        } else {
            p + 4 - p % 4
        }
    } else {
        p
    }
}

/// The room that `n` pointers take.
pub open spec fn wide(ps: nat, n: int) -> int {
    if ps == 4 {
        4 * n
    } else {
        8 * n
    }
}

/// Whether the bit of this value is set.
pub open spec fn bit(w: u32, value: u32) -> bool {
    (w as int / value as int) % 2 == 1
}

/// The number of things that a signed count announces.
pub open spec fn count(w: u32) -> int {
    if w < 0x8000_0000 {
        w as int
    } else {
        0
    }
}

/// Whether the terminated text `s` stands at `off`.
pub open spec fn text_at(d: Seq<u8>, off: int, s: Seq<char>) -> bool {
    &&& 0 <= off
    &&& off + s.len() < d.len()
    &&& forall|i: int|
        0 <= i < s.len() ==> d[off + i] != 0 && (#[trigger] s[i]) as u32 == d[off + i]
    &&& d[off + s.len()] == 0
}

/// Whether the pointer at `p` leads to the text `s`; a null pointer stands for none.
pub open spec fn text_behind(d: Seq<u8>, p: int, ps: nat, s: Seq<char>) -> bool {
    let off = address(d, p, ps);
    if off == 0 {
        s.len() == 0
    } else {
        text_at(d, off as int, s)
    }
}

/// Left, top, right, bottom.
pub open spec fn rect_at(d: Seq<u8>, p: int, r: Rect) -> bool {
    &&& r.left == word(d, p)
    &&& r.top == word(d, p + 4)
    &&& r.right == word(d, p + 8)
    &&& r.bottom == word(d, p + 12)
}

pub open spec fn matrix_at(d: Seq<u8>, p: int, m: Matrix) -> bool {
    &&& m.a == word(d, p)
    &&& m.b == word(d, p + 4)
    &&& m.c == word(d, p + 8)
    &&& m.d == word(d, p + 12)
    &&& m.tx == word(d, p + 16)
    &&& m.ty == word(d, p + 20)
}

/// Four factors, then four summands.
pub open spec fn cxform_at(d: Seq<u8>, p: int, c: model::FloatCxForm) -> bool {
    &&& c.scale.len() == 4
    &&& c.translate.len() == 4
    &&& c.scale[0] == word(d, p)
    &&& c.scale[1] == word(d, p + 4)
    &&& c.scale[2] == word(d, p + 8)
    &&& c.scale[3] == word(d, p + 12)
    &&& c.translate[0] == word(d, p + 16)
    &&& c.translate[1] == word(d, p + 20)
    &&& c.translate[2] == word(d, p + 24)
    &&& c.translate[3] == word(d, p + 28)
}

/// A filter: its number and what it takes.
#[verifier::opaque]
pub open spec fn filter_at(d: Seq<u8>, ps: nat, p: int, f: model::Filter) -> bool {
    match f {
        model::Filter::DropShadow { color, blur_x, blur_y, angle, distance, strength, flags } => {
            &&& word(d, p) == 0
            &&& color == word(d, p + 4)
            &&& blur_x == word(d, p + 8)
            &&& blur_y == word(d, p + 12)
            &&& angle == word(d, p + 16)
            &&& distance == word(d, p + 20)
            &&& strength == half(d, p + 24)
            &&& flags == half(d, p + 26)
        },
        model::Filter::Blur { blur_x, blur_y, flags } => {
            &&& word(d, p) == 1
            &&& blur_x == word(d, p + 4)
            &&& blur_y == word(d, p + 8)
            &&& flags == half(d, p + 12)
        },
        model::Filter::Glow { color, blur_x, blur_y, strength, flags } => {
            &&& word(d, p) == 2
            &&& color == word(d, p + 4)
            &&& blur_x == word(d, p + 8)
            &&& blur_y == word(d, p + 12)
            &&& strength == half(d, p + 16)
            &&& flags == half(d, p + 18)
        },
        model::Filter::Bevel {
            highlight_color,
            shadow_color,
            blur_x,
            blur_y,
            angle,
            distance,
            strength,
            flags,
        } => {
            &&& word(d, p) == 3
            &&& highlight_color == word(d, p + 4)
            &&& shadow_color == word(d, p + 8)
            &&& blur_x == word(d, p + 12)
            &&& blur_y == word(d, p + 16)
            &&& angle == word(d, p + 20)
            &&& distance == word(d, p + 24)
            &&& strength == half(d, p + 28)
            &&& flags == half(d, p + 30)
        },
        model::Filter::GradientGlow {
            is_bevel,
            colors,
            ratios,
            blur_x,
            blur_y,
            angle,
            distance,
            strength,
            flags,
        } => {
            let q = next(p + 8, ps);
            let r = q + wide(ps, 2);
            &&& word(d, p) == if is_bevel {
                7u32
            } else {
                4u32
            }
            &&& colors.len() == word(d, p + 4)
            &&& ratios.len() == word(d, p + 4)
            &&& forall|i: int|
                0 <= i < colors.len() ==> #[trigger] colors[i] == word(
                    d,
                    address(d, q, ps) + 4 * i,
                )
            &&& forall|i: int|
                0 <= i < ratios.len() ==> #[trigger] ratios[i] == d[address(
                    d,
                    q + wide(ps, 1),
                    ps,
                ) + i]
            &&& blur_x == word(d, r)
            &&& blur_y == word(d, r + 4)
            &&& angle == word(d, r + 8)
            &&& distance == word(d, r + 12)
            &&& strength == half(d, r + 16)
            &&& flags == half(d, r + 18)
        },
        model::Filter::ColorMatrix { values } => {
            &&& word(d, p) == 6
            &&& values.len() == 20
            &&& forall|i: int|
                0 <= i < 20 ==> #[trigger] values[i] == word(d, p + 4 + 4 * i)
        },
    }
}

/// Pointers to filters.
pub open spec fn filters_at(d: Seq<u8>, ps: nat, off: int, v: Seq<model::Filter>) -> bool {
    forall|i: int|
        0 <= i < v.len() ==> filter_at(
            d,
            ps,
            address(d, next(off, ps) + wide(ps, i), ps) as int,
            #[trigger] v[i],
        )
}

/// Whether the stream `s` is the one at `off`; a null pointer stands for none.
pub open spec fn stream_at(x: Ctx, off: u64, s: Seq<model::Instruction>) -> bool {
    if off == 0 {
        s.len() == 0
    } else {
        let (v, c) = decode::block(x, Rd::start(off as int), None);
        c.err is None && v == s
    }
}

/// A clip event handler: triggers, key, stream.
pub open spec fn event_at(x: Ctx, p: int, e: model::EventAction) -> bool {
    let d = x.src.data;
    &&& e.triggers == word(d, p) as i32
    &&& e.key_code == word(d, p + 4) as i32
    &&& stream_at(x, address(d, p + 8, x.src.ps), e.actions)
}

/// A set of clip event handlers: how many, and where.
pub open spec fn events_at(x: Ctx, p: int, v: Seq<model::EventAction>) -> bool {
    let d = x.src.data;
    let ps = x.src.ps;
    let row = next(address(d, next(p + 4, ps), ps) as int, ps);
    &&& v.len() == count(word(d, p))
    &&& forall|i: int|
        0 <= i < v.len() ==> event_at(x, row + 8 * i + wide(ps, i), #[trigger] v[i])
}

/// A placement. The flags say what it has: 1 that it changes what is there, 2 a
/// character, 4 a matrix, 8 a color transform, 16 a ratio, 32 a name, 64 a clip depth,
/// 128 event handlers.
#[verifier::opaque]
pub open spec fn place_at(x: Ctx, p: int, extended: bool, o: model::PlaceObject) -> bool {
    let d = x.src.data;
    let ps = x.src.ps;
    let w = word(d, p);
    &&& o.is_move == bit(w, 1)
    &&& o.depth == word(d, p + 4) as i32
    &&& o.character_id == if bit(w, 2) {
        Some(word(d, p + 8) as i32)
    } else {
        None
    }
    &&& o.matrix is Some == bit(w, 4)
    &&& o.matrix matches Some(m) ==> matrix_at(d, p + 12, m)
    &&& o.cxform is Some == bit(w, 8)
    &&& o.cxform matches Some(c) ==> c.scale == word(d, p + 36) && c.bias == word(d, p + 40)
    &&& o.ratio == if bit(w, 16) {
        Some(word(d, p + 44))
    } else {
        None
    }
    &&& o.name is Some == (bit(w, 32) && address(d, p + 48, ps) != 0)
    &&& o.name matches Some(s) ==> text_at(d, address(d, p + 48, ps) as int, s)
    &&& o.clip_depth == if bit(w, 64) {
        Some(word(d, p + 48 + wide(ps, 1)) as i32)
    } else {
        None
    }
    &&& o.clip_actions is Some == (bit(w, 128) && address(d, p + 48 + wide(ps, 2), ps) != 0)
    &&& o.clip_actions matches Some(v) ==> events_at(
        x,
        address(d, p + 48 + wide(ps, 2), ps) as int,
        v,
    )
    &&& if extended {
        let q = p + 48 + wide(ps, 3);
        &&& o.blend_mode == if word(d, q) == 0xFFFF_FFFF {
            None
        } else {
            Some(word(d, q) as i32)
        }
        &&& o.filters.len() == word(d, q + 4)
        &&& filters_at(d, ps, address(d, q + 8, ps) as int, o.filters)
    } else {
        o.blend_mode is None && o.filters.len() == 0
    }
}

/// A control: its kind, then at the next multiple of a pointer's width what it takes.
#[verifier::opaque]
pub open spec fn control_at(x: Ctx, p: int, c: model::Control) -> bool {
    let d = x.src.data;
    let ps = x.src.ps;
    let kind = word(d, p);
    let b = next(p + 4, ps);
    match c {
        model::Control::Action(s) => kind == 1 && stream_at(x, address(d, b, ps), s),
        model::Control::FrameLabel(s) => kind == 2 && text_behind(d, b, ps, s),
        model::Control::PlaceObject(o) => (kind == 3 || kind == 9) && place_at(
            x,
            b,
            kind == 9,
            o,
        ),
        model::Control::RemoveObject { depth } => kind == 4 && depth == word(d, b) as i32,
        model::Control::BackgroundColor(v) => kind == 5 && v == word(d, b),
        model::Control::StartSound { sound_id } => kind == 6 && sound_id == word(d, b) as i32,
        model::Control::StartSoundStream { sound_id } => kind == 7 && sound_id == word(d, b) as i32,
        model::Control::InitAction { sprite_id, actions } => {
            &&& kind == 8
            &&& sprite_id == word(d, b) as i32
            &&& stream_at(x, address(d, b + wide(ps, 1), ps), actions)
        },
    }
}

/// A frame: how many controls, and where the pointers to them are.
#[verifier::opaque]
pub open spec fn frame_at(x: Ctx, p: int, f: model::Frame) -> bool {
    let d = x.src.data;
    let ps = x.src.ps;
    let row = next(address(d, p + wide(ps, 1), ps) as int, ps);
    &&& f.controls.len() == count(word(d, p))
    &&& forall|i: int|
        0 <= i < f.controls.len() ==> control_at(
            x,
            address(d, row + wide(ps, i), ps) as int,
            #[trigger] f.controls[i],
        )
}

/// Frames in a row.
pub open spec fn frames_at(x: Ctx, off: int, v: Seq<model::Frame>) -> bool {
    forall|i: int|
        0 <= i < v.len() ==> frame_at(
            x,
            next(off, x.src.ps) + wide(x.src.ps, 2 * i),
            #[trigger] v[i],
        )
}

/// How text is aligned.
pub open spec fn alignment_at(d: Seq<u8>, p: int, a: TextAlignment) -> bool {
    match a {
        TextAlignment::Left => word(d, p) == 0,
        TextAlignment::Right => word(d, p) == 1,
        TextAlignment::Center => word(d, p) == 2,
        TextAlignment::Justify => word(d, p) == 4,
        TextAlignment::Unset => word(d, p) == 3 || word(d, p) > 4,
    }
}

/// A text field.
pub open spec fn edit_text_at(d: Seq<u8>, ps: nat, p: int, t: model::Text) -> bool {
    &&& rect_at(d, p, t.bounds)
    &&& t.font_id == word(d, p + 16) as i32
    &&& alignment_at(d, p + 20, t.alignment)
    &&& t.color == word(d, p + 24)
    &&& t.font_height == word(d, p + 28)
    &&& t.read_only == (word(d, p + 32) != 0)
    &&& t.multiline == (word(d, p + 36) != 0)
    &&& t.word_wrap == (word(d, p + 40) != 0)
    &&& text_behind(d, next(p + 44, ps), ps, t.initial_text)
    &&& text_behind(d, next(p + 44, ps) + wide(ps, 1), ps, t.variable)
}

/// A font: its name, how many glyphs, and where their characters are named.
pub open spec fn font_at(d: Seq<u8>, ps: nat, p: int, f: model::Font) -> bool {
    let row = next(address(d, p + wide(ps, 2), ps) as int, ps);
    &&& text_behind(d, p, ps, f.name)
    &&& f.glyphs.len() == count(word(d, p + wide(ps, 1)))
    &&& forall|i: int|
        0 <= i < f.glyphs.len() ==> #[trigger] f.glyphs[i] == word(d, row + wide(ps, i))
}

/// What a button shows in some of its states: states, character, layer, matrix, colors.
pub open spec fn button_record_at(d: Seq<u8>, ps: nat, p: int, r: model::ButtonRecord) -> bool {
    let q = p + wide(ps, 2);
    &&& r.states == word(d, p) as i32
    &&& r.character_id == word(d, p + wide(ps, 1))
    &&& r.layer == word(d, q) as i32
    &&& matrix_at(d, q + 4, r.matrix)
    &&& cxform_at(d, q + 28, r.cxform)
}

pub open spec fn button_action_at(x: Ctx, p: int, a: model::ButtonAction) -> bool {
    let d = x.src.data;
    &&& a.conditions == word(d, p) as i32
    &&& stream_at(x, address(d, p + wide(x.src.ps, 1), x.src.ps), a.actions)
}

/// The corners of a triangle.
pub open spec fn triangle_at(d: Seq<u8>, p: int, t: Seq<i16>) -> bool {
    &&& t.len() == 3
    &&& t[0] == half(d, p) as i16
    &&& t[1] == half(d, p + 2) as i16
    &&& t[2] == half(d, p + 4) as i16
}

/// A button: whether it is a menu, the bounds of its hit area, the mesh of it, what it
/// shows, what it does, and its sounds.
#[verifier::opaque]
pub open spec fn button_at(x: Ctx, p: int, b: model::Button) -> bool {
    let d = x.src.data;
    let ps = x.src.ps;
    let q = next(p + 28, ps);
    let vertices = address(d, q, ps);
    let triangles = address(d, q + wide(ps, 1), ps);
    let records = next(address(d, q + wide(ps, 3), ps) as int, ps);
    let actions = next(address(d, q + wide(ps, 5), ps) as int, ps);
    let sounds = address(d, q + wide(ps, 6), ps);
    let row = next(sounds as int, ps);
    &&& b.is_menu == (word(d, p) != 0)
    &&& rect_at(d, p + 4, b.hit_test_bounds)
    &&& b.hit_test_triangles.len() == count(word(d, p + 20))
    &&& b.hit_test_vertices.len() == count(word(d, p + 24))
    &&& b.records.len() == count(word(d, q + wide(ps, 2)))
    &&& b.actions.len() == count(word(d, q + wide(ps, 4)))
    &&& forall|i: int|
        0 <= i < b.hit_test_vertices.len() ==> (#[trigger] b.hit_test_vertices[i]).0 == word(
            d,
            vertices + 8 * i,
        ) && b.hit_test_vertices[i].1 == word(d, vertices + 8 * i + 4)
    &&& forall|i: int|
        0 <= i < b.hit_test_triangles.len() ==> triangle_at(
            d,
            triangles + 6 * i,
            #[trigger] b.hit_test_triangles[i],
        )
    &&& forall|i: int|
        0 <= i < b.records.len() ==> button_record_at(
            d,
            ps,
            records + 56 * i + wide(ps, 3 * i),
            #[trigger] b.records[i],
        )
    &&& forall|i: int|
        0 <= i < b.actions.len() ==> button_action_at(
            x,
            actions + wide(ps, 2 * i),
            #[trigger] b.actions[i],
        )
    &&& b.sounds is Some == (sounds != 0)
    &&& b.sounds matches Some(s) ==> {
        &&& s.over_up_to_idle == word(d, row)
        &&& s.idle_to_over_up == word(d, row + wide(ps, 1))
        &&& s.over_up_to_over_down == word(d, row + wide(ps, 2))
        &&& s.over_down_to_over_up == word(d, row + wide(ps, 3))
    }
}

/// A run of glyphs: font, colors, offsets, scale, and where its glyphs are.
pub open spec fn run_at(d: Seq<u8>, ps: nat, p: int, r: model::StaticTextRecord) -> bool {
    let glyphs = address(d, p + 48 + wide(ps, 1), ps);
    &&& r.font_id == word(d, p) as i32
    &&& cxform_at(d, p + 4, r.cxform)
    &&& r.x_offset == word(d, p + 36)
    &&& r.y_offset == word(d, p + 40)
    &&& r.scale == word(d, p + 44)
    &&& r.glyphs.len() == count(word(d, p + 48))
    &&& forall|i: int|
        0 <= i < r.glyphs.len() ==> (#[trigger] r.glyphs[i]).index == half(d, glyphs + 4 * i) as i16
            && r.glyphs[i].advance == half(d, glyphs + 4 * i + 2) as i16
}

/// A text of glyphs: its bounds, its matrix, and its runs.
pub open spec fn static_text_at(d: Seq<u8>, ps: nat, p: int, t: model::StaticText) -> bool {
    let row = next(address(d, p + 40 + wide(ps, 1), ps) as int, ps);
    &&& rect_at(d, p, t.bounds)
    &&& matrix_at(d, p + 16, t.matrix)
    &&& t.records.len() == count(word(d, p + 40))
    &&& forall|i: int|
        0 <= i < t.records.len() ==> run_at(
            d,
            ps,
            row + 48 * i + wide(ps, 2 * i),
            #[trigger] t.records[i],
        )
}

/// Where the body of a character starts: behind its kind and a pointer, and where
/// rendering is decoupled a word and a pointer more.
pub open spec fn body_of(off: int, ps: nat, decoupled: bool) -> int {
    next(off + 4, ps) + if decoupled {
        wide(ps, 3)
    } else {
        wide(ps, 1)
    }
}

/// A character: its kind, and what it takes.
#[verifier::opaque]
pub open spec fn character_at(p: Px, off: int, c: model::Character) -> bool {
    let d = p.x.src.data;
    let ps = p.x.src.ps;
    let kind = word(d, off);
    let b = body_of(off, ps, p.decoupled);
    match c {
        model::Character::Shape(s) => {
            &&& kind == 1
            &&& rect_at(d, b, s.bounds)
            &&& s.bitmap_character_id == if p.decoupled {
                Some((word(d, next(off + 4, ps) + wide(ps, 1)) % 0x8000) as u16)
            } else {
                None
            }
        },
        model::Character::Text(t) => kind == 2 && edit_text_at(d, ps, b, t),
        model::Character::Font(f) => kind == 3 && font_at(d, ps, b, f),
        model::Character::Button(t) => kind == 4 && button_at(p.x, b, t),
        model::Character::Sprite(v) => {
            &&& kind == 5
            &&& v.len() == count(word(d, b))
            &&& frames_at(p.x, address(d, b + wide(ps, 1), ps) as int, v)
        },
        model::Character::Sound => kind == 6,
        model::Character::Bitmap => kind == 7,
        model::Character::Morph(m) => {
            &&& kind == 8
            &&& m.start_character_id == word(d, b)
            &&& m.end_character_id == word(d, b + wide(ps, 1))
        },
        model::Character::StaticText(t) => kind == 10 && static_text_at(d, ps, b, t),
        model::Character::Nothing => kind == 11,
        model::Character::Video => kind == 12,
    }
}

/// The `i`-th slot, at `p`: nothing behind a null pointer, the movie itself in the first
/// and wherever a pointer leads to it, a character elsewhere.
pub open spec fn slot_at(p: Px, root: int, i: int, at: int, x: model::CharacterSlot) -> bool {
    let off = address(p.x.src.data, at, p.x.src.ps);
    match x {
        model::CharacterSlot::Empty => off == 0,
        model::CharacterSlot::Root => off != 0 && (i == 0 || off == root),
        model::CharacterSlot::Character(c) => {
            off != 0 && i != 0 && off != root && character_at(p, off as int, c)
        },
    }
}

/// An import: from which movie, under which name, as which character.
pub open spec fn import_at(d: Seq<u8>, ps: nat, p: int, x: model::Import) -> bool {
    &&& text_behind(d, p, ps, x.movie)
    &&& text_behind(d, p + wide(ps, 1), ps, x.name)
    &&& x.character_id == word(d, p + wide(ps, 2))
}

/// An export: under which name, which character.
pub open spec fn export_at(d: Seq<u8>, ps: nat, p: int, x: model::Export) -> bool {
    &&& text_behind(d, p, ps, x.name)
    &&& x.character_id == word(d, p + wide(ps, 1))
}

/// A movie whose root character stands at `off`: its frames, its characters, its stage,
/// the time of a frame, its imports and its exports.
#[verifier::opaque]
pub open spec fn movie_at(p: Px, off: int, m: model::Movie) -> bool {
    let d = p.x.src.data;
    let ps = p.x.src.ps;
    let b = body_of(off, ps, p.decoupled);
    let s = b + wide(ps, 5);
    let slots = next(address(d, b + wide(ps, 4), ps) as int, ps);
    let imports = next(address(d, s + 16, ps) as int, ps);
    let exports = next(address(d, s + 16 + wide(ps, 2), ps) as int, ps);
    &&& word(d, off) == 9
    &&& m.frames.len() == count(word(d, b))
    &&& frames_at(p.x, address(d, b + wide(ps, 1), ps) as int, m.frames)
    &&& m.characters.len() == count(word(d, b + wide(ps, 3)))
    &&& forall|i: int|
        0 <= i < m.characters.len() ==> slot_at(
            p,
            off,
            i,
            slots + wide(ps, i),
            #[trigger] m.characters[i],
        )
    &&& m.width == word(d, s)
    &&& m.height == word(d, s + 4)
    &&& m.ms_per_frame == word(d, s + 8)
    &&& m.imports.len() == count(word(d, s + 12))
    &&& forall|i: int|
        0 <= i < m.imports.len() ==> import_at(
            d,
            ps,
            imports + wide(ps, 4 * i),
            #[trigger] m.imports[i],
        )
    &&& m.exports.len() == count(word(d, s + 16 + wide(ps, 1)))
    &&& forall|i: int|
        0 <= i < m.exports.len() ==> export_at(
            d,
            ps,
            exports + wide(ps, 2 * i),
            #[trigger] m.exports[i],
        )
}

/// A constant: its kind, and its value in the slot behind it.
pub open spec fn constant_at(d: Seq<u8>, ps: nat, p: int, v: model::Value) -> bool {
    let q = p + wide(ps, 1);
    match v {
        model::Value::String(s) => word(d, p) == 1 && text_at(d, address(d, q, ps) as int, s),
        model::Value::Undefined => word(d, p) == 3,
        model::Value::Register(r) => word(d, p) == 4 && r == word(d, q) as i32,
        model::Value::Boolean(b) => word(d, p) == 5 && b == (word(d, q) != 0),
        model::Value::Float(f) => word(d, p) == 6 && f == word(d, q),
        model::Value::Integer(i) => word(d, p) == 7 && i == word(d, q) as i32,
        model::Value::Lookup(i) => word(d, p) == 8 && i == word(d, q),
    }
}

/// A constant file: 20 bytes, the offset of the root character, how many constants there
/// are, and where they are.
#[verifier::opaque]
pub open spec fn constants_at(d: Seq<u8>, ps: nat, f: model::ConstFile) -> bool {
    let p = next(20, ps);
    let row = next(address(d, p + wide(ps, 2), ps) as int, ps);
    &&& f.magic.len() == 20
    &&& forall|i: int| 0 <= i < 20 ==> #[trigger] f.magic[i] == d[i]
    &&& f.main_character_offset == address(d, p, ps)
    &&& f.constants.len() == count(word(d, p + wide(ps, 1)))
    &&& forall|i: int|
        0 <= i < f.constants.len() ==> constant_at(
            d,
            ps,
            row + wide(ps, 2 * i),
            #[trigger] f.constants[i],
        )
}

pub proof fn lemma_half(d: Seq<u8>, p: int)
    ensures
        super::bytes::un_le(d, p, 2) == half(d, p),
{
    reveal_with_fuel(super::bytes::un_le, 3);
}

pub proof fn lemma_word(d: Seq<u8>, p: int)
    ensures
        super::bytes::un_le(d, p, 4) == word(d, p),
{
    reveal_with_fuel(super::bytes::un_le, 5);
}

proof fn lemma_long(d: Seq<u8>, p: int)
    ensures
        super::bytes::un_le(d, p, 8) == word(d, p) + 0x1_0000_0000 * word(d, p + 4),
{
    reveal_with_fuel(super::bytes::un_le, 9);
}

pub proof fn lemma_next(p: int, ps: nat)
    requires
        ps == 4 || ps == 8,
    ensures
        super::bytes::round_up(p, ps) == next(p, ps),
        p <= next(p, ps) < p + ps,
{
    reveal(next);
}

/// A blob that memory can hold, with pointers of 4 or 8 bytes.
pub open spec fn held(src: Src) -> bool {
    (src.ps == 4 || src.ps == 8) && src.len() <= i64::MAX
}

/// Whether `p` is a multiple of a pointer's width.
pub open spec fn fits(p: int, ps: nat) -> bool {
    next(p, ps) == p
}

/// Distances from a multiple of a pointer's width.
pub proof fn lemma_fits(p: int, k: int, ps: nat)
    requires
        ps == 4 || ps == 8,
        fits(p, ps),
    ensures
        next(p + k, ps) == p + next(k, ps),
        next(4, ps) == wide(ps, 1),
        next(20, ps) == 16 + wide(ps, 1),
        next(28, ps) == 24 + wide(ps, 1),
        next(44, ps) == 40 + wide(ps, 1),
        next(52, ps) == 48 + wide(ps, 1),
        next(60, ps) == 56 + wide(ps, 1),
        k % 8 == 0 ==> fits(p + k, ps),
        fits(p + wide(ps, 1), ps),
        fits(p + wide(ps, 2), ps),
        fits(p + wide(ps, 3), ps),
        fits(p + wide(ps, 4), ps),
        fits(p + wide(ps, 5), ps),
        fits(p + wide(ps, 6), ps),
{
    reveal(next);
    if ps == 4 {
        assert((p + k) % 4 == k % 4);
    } else {
        assert((p + k) % 8 == k % 8);
    }
}

/// The room that a structure in a row takes.
pub proof fn lemma_strides(ps: nat)
    requires
        ps == 4 || ps == 8,
    ensures
        forall|p: int| #[trigger] next(p, 1) == p,
        next(ps as int, ps) == ps,
        next(8 + ps as int, ps) == 8 + ps,
        next(2 * ps as int, ps) == 2 * ps,
        next(4 * ps as int, ps) == 4 * ps,
        next(4 + ps as int, ps) == 2 * ps,
        next(60 + 2 * ps as int, ps) == 56 + 3 * ps,
        next(48 + 2 * ps as int, ps) == 48 + 2 * ps,
{
    reveal(next);
}

/// The next multiple is one.
pub proof fn lemma_fit(p: int, ps: nat)
    requires
        ps == 4 || ps == 8,
    ensures
        fits(next(p, ps), ps),
        p <= next(p, ps) < p + ps,
{
    reveal(next);
}

pub broadcast proof fn read_u8(src: Src, c: Rd)
    ensures
        (#[trigger] src.u8(c)).1.err is None ==> {
            &&& c.err is None
            &&& src.u8(c) == (src.data[c.pos], Rd::start(c.pos + 1))
        },
{
    reveal_with_fuel(super::bytes::un_le, 2);
}

pub broadcast proof fn read_u16(src: Src, c: Rd)
    ensures
        (#[trigger] src.u16(c)).1.err is None ==> {
            &&& c.err is None
            &&& src.u16(c) == (half(src.data, c.pos), Rd::start(c.pos + 2))
        },
{
    lemma_half(src.data, c.pos);
}

pub broadcast proof fn read_u32(src: Src, c: Rd)
    ensures
        (#[trigger] src.u32(c)).1.err is None ==> {
            &&& c.err is None
            &&& src.u32(c) == (word(src.data, c.pos), Rd::start(c.pos + 4))
            &&& c.pos + 4 <= src.len()
        },
{
    lemma_word(src.data, c.pos);
}

pub broadcast proof fn read_ptr(src: Src, c: Rd)
    requires
        held(src),
    ensures
        (#[trigger] src.ptr(c)).1.err is None ==> {
            &&& c.err is None
            &&& src.ptr(c) == (
                address(src.data, next(c.pos, src.ps), src.ps),
                Rd::start(next(c.pos, src.ps) + src.ps),
            )
            &&& next(c.pos, src.ps) + src.ps <= src.len()
        },
{
    lemma_next(c.pos, src.ps);
    let p = src.align_ptr(c).pos;
    lemma_word(src.data, p);
    lemma_long(src.data, p);
}

pub broadcast proof fn read_align(src: Src, c: Rd)
    requires
        held(src),
    ensures
        (#[trigger] src.align_ptr(c)).err == c.err,
        src.align_ptr(c).pos == c.pos || src.align_ptr(c).pos == next(c.pos, src.ps),
        c.pos <= src.len() && c.err is None ==> src.align_ptr(c) == Rd::start(
            next(c.pos, src.ps),
        ),
{
    lemma_next(c.pos, src.ps);
}

proof fn lemma_text(data: Seq<u8>, i: int)
    requires
        0 <= i,
    ensures
        terminator(data, i) matches Some(e) ==> {
            &&& i <= e < data.len()
            &&& data[e] == 0
            &&& forall|j: int| i <= j < e ==> data[j] != 0
        },
    decreases data.len() - i,
{
    if i < data.len() && data[i] != 0 {
        lemma_text(data, i + 1);
    }
}

pub broadcast proof fn read_string(src: Src, c: Rd, off: u64)
    ensures
        (#[trigger] src.string_at(c, off)).1.err is None ==> {
            &&& c.err is None
            &&& src.string_at(c, off).1 == c
            &&& text_at(src.data, off as int, src.string_at(c, off).0)
        },
{
    lemma_text(src.data, off as int);
    if let Some(end) = terminator(src.data, off as int) {
        let s = latin1(src.data.subrange(off as int, end));
        assert forall|i: int| 0 <= i < s.len() implies (#[trigger] s[i]) as u32 == src.data[off
            + i] by {
            assert(src.data.subrange(off as int, end)[i] == src.data[off + i]);
        }
    }
}

pub broadcast proof fn read_ptr_string(src: Src, c: Rd)
    requires
        held(src),
    ensures
        (#[trigger] src.ptr_string(c)).1.err is None ==> {
            &&& c.err is None
            &&& src.ptr_string(c).1 == Rd::start(next(c.pos, src.ps) + src.ps)
            &&& text_behind(src.data, next(c.pos, src.ps), src.ps, src.ptr_string(c).0)
            &&& next(c.pos, src.ps) + src.ps <= src.len()
        },
{
    read_ptr(src, c);
    let (off, e) = src.ptr(c);
    read_string(src, e, off);
}

pub broadcast group group_words {
    read_u8,
    read_u16,
    read_u32,
    read_ptr,
    read_string,
    read_ptr_string,
}

/// What holds of one reading holds of each in a row: the readings stand one after
/// another, each at the next multiple of `al`.
pub proof fn lemma_row<T>(
    step: spec_fn(Rd) -> (T, Rd),
    c: Rd,
    n: nat,
    al: nat,
    len: int,
    stride: int,
    place: spec_fn(int) -> int,
    good: spec_fn(int, T) -> bool,
)
    requires
        al == 1 || al == 4 || al == 8,
        stride == next(len, al),
        place(0) == next(c.pos, al),
        forall|i: int, j: int| j == i + 1 ==> #[trigger] place(j) == #[trigger] place(i) + stride,
        forall|d: Rd|
            (#[trigger] step(d)).1.err is None ==> {
                &&& d.err is None
                &&& step(d).1.pos == next(d.pos, al) + len
                &&& good(next(d.pos, al), step(d).0)
            },
        reps(step, c, n).1.err is None,
    ensures
        c.err is None,
        reps(step, c, n).0.len() == n,
        n == 0 ==> reps(step, c, n).1 == c,
        n > 0 ==> reps(step, c, n).1.pos == place(n - 1) + len,
        forall|i: int| 0 <= i < n ==> good(place(i), #[trigger] reps(step, c, n).0[i]),
    decreases n,
{
    if n > 0 {
        let m = (n - 1) as nat;
        let (got, d) = reps(step, c, m);
        let (x, e) = step(d);
        assert(reps(step, c, n) == (got.push(x), e)) by {
            if c.err is Some {
                assert(reps(step, c, n).1 == c);
            }
        }
        lemma_row(step, c, m, al, len, stride, place, good);
        assert(next(d.pos, al) == place(m as int)) by {
            if m > 0 {
                lemma_mult(c.pos, al, len, stride, place, m);
            }
        }
        let v = reps(step, c, n).0;
        assert forall|i: int| 0 <= i < n implies good(place(i), #[trigger] v[i]) by {
            if i < m {
                assert(v[i] == got[i]);
            }
        }
    }
}

proof fn lemma_mult(p: int, al: nat, len: int, stride: int, place: spec_fn(int) -> int, m: nat)
    requires
        al == 1 || al == 4 || al == 8,
        stride == next(len, al),
        place(0) == next(p, al),
        forall|i: int, j: int| j == i + 1 ==> #[trigger] place(j) == #[trigger] place(i) + stride,
    ensures
        al == 4 ==> place(m as int) % 4 == 0,
        al == 8 ==> place(m as int) % 8 == 0,
        m > 0 ==> next(place(m - 1) + len, al) == place(m as int),
    decreases m,
{
    reveal(next);
    if m > 0 {
        let k = (m - 1) as nat;
        lemma_mult(p, al, len, stride, place, k);
        assert(place(m as int) == place(k as int) + stride);
        lemma_next_sum(place(k as int), len, al);
    }
}

proof fn lemma_next_sum(p: int, len: int, al: nat)
    requires
        al == 1 || al == 4 || al == 8,
        al == 4 ==> p % 4 == 0,
        al == 8 ==> p % 8 == 0,
    ensures
        next(p + len, al) == p + next(len, al),
        al == 4 ==> next(p + len, al) % 4 == 0,
        al == 8 ==> next(p + len, al) % 8 == 0,
{
    reveal(next);
    if al == 4 {
        assert((p + len) % 4 == len % 4);
    } else if al == 8 {
        assert((p + len) % 8 == len % 8);
    }
}

} // verus!
