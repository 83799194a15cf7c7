//! What parsing an `.apt` blob gives.
use super::decode::{self, Ctx};
use super::model;
use super::reader::{items, reps, Rd, Src};
use super::types::{
    ButtonSounds, GlyphEntry, Matrix, Morph, PackedCxForm, PtrSize, Rect, Shape, TextAlignment,
};
use vstd::prelude::*;

verus! {

/// A blob, its constants, and whether it targets decoupled rendering.
pub struct Px {
    pub x: Ctx,
    pub decoupled: bool,
}

/// The tag `"Apt Data"`.
pub open spec fn tag_word() -> Seq<u8> {
    seq![0x41u8, 0x70, 0x74, 0x20, 0x44, 0x61, 0x74, 0x61]
}

/// The header tag `"Apt Data:<decoupled>:<swfver>:<ptrsize>"`. Missing fields
/// stand for non-decoupled, SWF 6, 4-byte pointers.
pub open spec fn header(data: Seq<u8>) -> Result<model::Header, model::Error> {
    if data.len() < 16 || data.take(8) != tag_word() {
        Err(model::Error::BadAptTag)
    } else if data[12] == 0x3A && data[13] != 0x34 && data[13] != 0x38 {
        Err(model::Error::BadPtrSize(data[13] as char))
    } else {
        Ok(
            model::Header {
                decoupled: data[8] == 0x3A && data[9] == 0x31,
                swf_version: if data[10] == 0x3A {
                    ((data[11] + 0x100 - 0x30) % 0x100) as u8
                } else {
                    6
                },
                ptr_size: if data[12] == 0x3A && data[13] == 0x38 {
                    PtrSize::Eight
                } else {
                    PtrSize::Four
                },
                raw_tag: data.take(16),
            },
        )
    }
}

pub open spec fn rect(src: Src, c: Rd) -> (Rect, Rd) {
    let (left, c) = src.u32(c);
    let (top, c) = src.u32(c);
    let (right, c) = src.u32(c);
    let (bottom, c) = src.u32(c);
    (Rect { left, top, right, bottom }, c)
}

pub open spec fn matrix(src: Src, c0: Rd) -> (Matrix, Rd) {
    let (a, c1) = src.u32(c0);
    let (b, c2) = src.u32(c1);
    let (c, c3) = src.u32(c2);
    let (d, c4) = src.u32(c3);
    let (tx, c5) = src.u32(c4);
    let (ty, c6) = src.u32(c5);
    (Matrix { a, b, c, d, tx, ty }, c6)
}

pub open spec fn float_cxform(src: Src, c: Rd) -> (model::FloatCxForm, Rd) {
    let (s0, c) = src.u32(c);
    let (s1, c) = src.u32(c);
    let (s2, c) = src.u32(c);
    let (s3, c) = src.u32(c);
    let (t0, c) = src.u32(c);
    let (t1, c) = src.u32(c);
    let (t2, c) = src.u32(c);
    let (t3, c) = src.u32(c);
    (model::FloatCxForm { scale: seq![s0, s1, s2, s3], translate: seq![t0, t1, t2, t3] }, c)
}

pub open spec fn u32_step(src: Src) -> spec_fn(Rd) -> (u32, Rd) {
    |c: Rd| src.u32(c)
}

pub open spec fn u8_step(src: Src) -> spec_fn(Rd) -> (u8, Rd) {
    |c: Rd| src.u8(c)
}

/// A pointer-width slot that holds a 4-byte number.
pub open spec fn index_slot(src: Src, c: Rd) -> (u32, Rd) {
    (src.ptr(c).0 as u32, src.ptr(c).1)
}

pub open spec fn index_step(src: Src) -> spec_fn(Rd) -> (u32, Rd) {
    |c: Rd| index_slot(src, c)
}

pub open spec fn drop_shadow(src: Src, c: Rd) -> (model::Filter, Rd) {
    let (color, c) = src.u32(c);
    let (blur_x, c) = src.u32(c);
    let (blur_y, c) = src.u32(c);
    let (angle, c) = src.u32(c);
    let (distance, c) = src.u32(c);
    let (strength, c) = src.u16(c);
    let (flags, c) = src.u16(c);
    (model::Filter::DropShadow { color, blur_x, blur_y, angle, distance, strength, flags }, c)
}

pub open spec fn blur(src: Src, c: Rd) -> (model::Filter, Rd) {
    let (blur_x, c) = src.u32(c);
    let (blur_y, c) = src.u32(c);
    let (flags, c) = src.u16(c);
    (model::Filter::Blur { blur_x, blur_y, flags }, c)
}

pub open spec fn glow(src: Src, c: Rd) -> (model::Filter, Rd) {
    let (color, c) = src.u32(c);
    let (blur_x, c) = src.u32(c);
    let (blur_y, c) = src.u32(c);
    let (strength, c) = src.u16(c);
    let (flags, c) = src.u16(c);
    (model::Filter::Glow { color, blur_x, blur_y, strength, flags }, c)
}

pub open spec fn bevel(src: Src, c: Rd) -> (model::Filter, Rd) {
    let (highlight_color, c) = src.u32(c);
    let (shadow_color, c) = src.u32(c);
    let (blur_x, c) = src.u32(c);
    let (blur_y, c) = src.u32(c);
    let (angle, c) = src.u32(c);
    let (distance, c) = src.u32(c);
    let (strength, c) = src.u16(c);
    let (flags, c) = src.u16(c);
    (
        model::Filter::Bevel {
            highlight_color,
            shadow_color,
            blur_x,
            blur_y,
            angle,
            distance,
            strength,
            flags,
        },
        c,
    )
}

pub open spec fn gradient(src: Src, c: Rd, is_bevel: bool) -> (model::Filter, Rd) {
    let (n, c) = src.u32(c);
    let (colors_off, c) = src.ptr(c);
    let (ratios_off, c) = src.ptr(c);
    let (blur_x, c) = src.u32(c);
    let (blur_y, c) = src.u32(c);
    let (angle, c) = src.u32(c);
    let (distance, c) = src.u32(c);
    let (strength, c) = src.u16(c);
    let (flags, c) = src.u16(c);
    let (colors, c) = reps(u32_step(src), c.at(colors_off as int), n as nat);
    let (ratios, c) = reps(u8_step(src), c.at(ratios_off as int), n as nat);
    (
        model::Filter::GradientGlow {
            is_bevel,
            colors,
            ratios,
            blur_x,
            blur_y,
            angle,
            distance,
            strength,
            flags,
        },
        c,
    )
}

pub open spec fn color_matrix(src: Src, c: Rd) -> (model::Filter, Rd) {
    let (values, c) = reps(u32_step(src), c, 20);
    (model::Filter::ColorMatrix { values }, c)
}

/// A filter.
#[verifier::opaque]
pub open spec fn filter(src: Src, c: Rd) -> (model::Filter, Rd) {
    let (id, c) = src.u32(c);
    if c.err is Some {
        (model::Filter::Blur { blur_x: 0, blur_y: 0, flags: 0 }, c)
    } else if id == 0 {
        drop_shadow(src, c)
    } else if id == 1 {
        blur(src, c)
    } else if id == 2 {
        glow(src, c)
    } else if id == 3 {
        bevel(src, c)
    } else if id == 4 {
        gradient(src, c, false)
    } else if id == 7 {
        gradient(src, c, true)
    } else if id == 6 {
        color_matrix(src, c)
    } else {
        (
            model::Filter::Blur { blur_x: 0, blur_y: 0, flags: 0 },
            c.fail(model::Error::InvalidFilterId(id)),
        )
    }
}

/// A pointer to a filter.
pub open spec fn filter_slot(src: Src, c: Rd) -> (model::Filter, Rd) {
    let (off, c) = src.ptr(c);
    if c.err is Some {
        (model::Filter::Blur { blur_x: 0, blur_y: 0, flags: 0 }, c)
    } else {
        let (f, d) = filter(src, c.at(off as int));
        (f, d.at(c.pos))
    }
}

pub open spec fn filter_step(src: Src) -> spec_fn(Rd) -> (model::Filter, Rd) {
    |c: Rd| filter_slot(src, c)
}

/// A clip event handler.
pub open spec fn event_action(x: Ctx, c: Rd) -> (model::EventAction, Rd) {
    let (triggers, c) = x.src.i32(x.src.align_ptr(c));
    let (key_code, c) = x.src.i32(c);
    let (off, c) = x.src.ptr(c);
    let (actions, c) = decode::stream(x, c, off);
    (model::EventAction { triggers, key_code, actions }, c)
}

pub open spec fn event_step(x: Ctx) -> spec_fn(Rd) -> (model::EventAction, Rd) {
    |c: Rd| event_action(x, c)
}

/// The set of clip event handlers at `off`, where `flags` announce one. The
/// position stays.
pub open spec fn clip_actions(x: Ctx, c: Rd, flags: i32, off: u64) -> (
    Option<Seq<model::EventAction>>,
    Rd,
) {
    if flags & 0x80 != 0 && off != 0 {
        let (n, d) = x.src.i32(c.at(off as int));
        let (blocks_off, d) = x.src.ptr(d);
        let (blocks, d) = reps(event_step(x), d.at(blocks_off as int), items(n));
        (Some(blocks), d.at(c.pos))
    } else {
        (None, c)
    }
}

/// What PlaceObject3 adds: blend mode and filters.
pub open spec fn place_extra(src: Src, c: Rd, extended: bool) -> (
    (Option<i32>, Seq<model::Filter>),
    Rd,
) {
    if extended {
        let (mode, c) = src.i32(c);
        let (n, c) = src.u32(c);
        let (off, c) = src.ptr(c);
        let (filters, c) = reps(filter_step(src), c.at(off as int), n as nat);
        (
            (
                if mode == -1 {
                    None
                } else {
                    Some(mode)
                },
                filters,
            ),
            c,
        )
    } else {
        ((None, Seq::empty()), c)
    }
}

/// The string at `off`, where `flags` announce one.
pub open spec fn place_name(src: Src, c: Rd, flags: i32, off: u64) -> (Option<Seq<char>>, Rd) {
    if flags & 0x20 != 0 && off != 0 {
        let (s, c) = src.string_at(c, off);
        (Some(s), c)
    } else {
        (None, c)
    }
}

/// The fixed part of a placement.
pub struct PlaceHead {
    pub flags: i32,
    pub depth: i32,
    pub character_id: i32,
    pub matrix: Matrix,
    pub scale: u32,
    pub bias: u32,
    pub ratio: u32,
    pub name: u64,
    pub clip_depth: i32,
    pub actions: u64,
}

#[verifier::opaque]
pub open spec fn place_head(src: Src, c: Rd) -> (PlaceHead, Rd) {
    let (flags, c) = src.i32(c);
    let (depth, c) = src.i32(c);
    let (character_id, c) = src.i32(c);
    let (mat, c) = matrix(src, c);
    let (scale, c) = src.u32(c);
    let (bias, c) = src.u32(c);
    let (ratio, c) = src.u32(c);
    let (name, c) = src.ptr(c);
    let (clip_depth, c) = src.i32(c);
    let (actions, c) = src.ptr(c);
    (
        PlaceHead {
            flags,
            depth,
            character_id,
            matrix: mat,
            scale,
            bias,
            ratio,
            name,
            clip_depth,
            actions,
        },
        c,
    )
}

/// A placement.
#[verifier::opaque]
pub open spec fn place_object(x: Ctx, c: Rd, extended: bool) -> (model::PlaceObject, Rd) {
    let (h, c) = place_head(x.src, c);
    let flags = h.flags;
    let (clip_actions, c) = clip_actions(x, c, flags, h.actions);
    let ((blend_mode, filters), c) = place_extra(x.src, c, extended);
    let (name, c) = place_name(x.src, c, flags, h.name);
    (
        model::PlaceObject {
            is_move: flags & 0x01 != 0,
            depth: h.depth,
            character_id: if flags & 0x02 != 0 {
                Some(h.character_id)
            } else {
                None
            },
            matrix: if flags & 0x04 != 0 {
                Some(h.matrix)
            } else {
                None
            },
            cxform: if flags & 0x08 != 0 {
                Some(PackedCxForm { scale: h.scale, bias: h.bias })
            } else {
                None
            },
            ratio: if flags & 0x10 != 0 {
                Some(h.ratio)
            } else {
                None
            },
            name,
            clip_depth: if flags & 0x40 != 0 {
                Some(h.clip_depth)
            } else {
                None
            },
            clip_actions,
            blend_mode,
            filters,
        },
        c,
    )
}

/// A control.
#[verifier::opaque]
pub open spec fn control(x: Ctx, c: Rd) -> (model::Control, Rd) {
    let src = x.src;
    let (t, c) = src.i32(c);
    let c = src.align_ptr(c);
    if c.err is Some {
        (model::Control::RemoveObject { depth: 0 }, c)
    } else if t == 1 {
        let (off, c) = src.ptr(c);
        let (s, c) = decode::stream(x, c, off);
        (model::Control::Action(s), c)
    } else if t == 2 {
        let (s, c) = src.ptr_string(c);
        (model::Control::FrameLabel(s), c)
    } else if t == 3 || t == 9 {
        let (p, c) = place_object(x, c, t == 9);
        (model::Control::PlaceObject(p), c)
    } else if t == 4 {
        let (depth, c) = src.i32(c);
        (model::Control::RemoveObject { depth }, c)
    } else if t == 5 {
        let (v, c) = src.u32(c);
        (model::Control::BackgroundColor(v), c)
    } else if t == 6 {
        let (sound_id, c) = src.i32(c);
        (model::Control::StartSound { sound_id }, c)
    } else if t == 7 {
        let (sound_id, c) = src.i32(c);
        (model::Control::StartSoundStream { sound_id }, c)
    } else if t == 8 {
        let (sprite_id, c) = src.i32(c);
        let (off, c) = src.ptr(c);
        let (actions, c) = decode::stream(x, c, off);
        (model::Control::InitAction { sprite_id, actions }, c)
    } else {
        (
            model::Control::RemoveObject { depth: 0 },
            c.fail(model::Error::InvalidControlType(t)),
        )
    }
}

/// A pointer to a control.
pub open spec fn control_slot(x: Ctx, c: Rd) -> (model::Control, Rd) {
    let (off, c) = x.src.ptr(c);
    if c.err is Some {
        (model::Control::RemoveObject { depth: 0 }, c)
    } else {
        let (k, d) = control(x, c.at(off as int));
        (k, d.at(c.pos))
    }
}

pub open spec fn control_step(x: Ctx) -> spec_fn(Rd) -> (model::Control, Rd) {
    |c: Rd| control_slot(x, c)
}

/// A frame.
pub open spec fn frame(x: Ctx, c: Rd) -> (model::Frame, Rd) {
    let (n, c) = x.src.i32(x.src.align_ptr(c));
    let (off, c) = x.src.ptr(c);
    let (controls, d) = reps(control_step(x), c.at(off as int), items(n));
    (model::Frame { controls }, d.at(c.pos))
}

pub open spec fn frame_step(x: Ctx) -> spec_fn(Rd) -> (model::Frame, Rd) {
    |c: Rd| frame(x, c)
}

/// The frames of a movie or sprite.
pub open spec fn frames(x: Ctx, c: Rd, off: u64, n: i32) -> (Seq<model::Frame>, Rd) {
    reps(frame_step(x), c.at(off as int), items(n))
}

pub open spec fn vertex(src: Src, c: Rd) -> ((u32, u32), Rd) {
    let (a, c) = src.u32(c);
    let (b, c) = src.u32(c);
    ((a, b), c)
}

pub open spec fn vertex_step(src: Src) -> spec_fn(Rd) -> ((u32, u32), Rd) {
    |c: Rd| vertex(src, c)
}

pub open spec fn triangle(src: Src, c: Rd) -> (Seq<i16>, Rd) {
    let (i, c) = src.i16(c);
    let (j, c) = src.i16(c);
    let (k, c) = src.i16(c);
    (seq![i, j, k], c)
}

pub open spec fn triangle_step(src: Src) -> spec_fn(Rd) -> (Seq<i16>, Rd) {
    |c: Rd| triangle(src, c)
}

pub open spec fn button_record(src: Src, c: Rd) -> (model::ButtonRecord, Rd) {
    let (states, c) = src.i32(src.align_ptr(c));
    let (character_id, c) = index_slot(src, c);
    let (layer, c) = src.i32(c);
    let (m, c) = matrix(src, c);
    let (cxform, c) = float_cxform(src, c);
    (model::ButtonRecord { states, character_id, layer, matrix: m, cxform }, c)
}

pub open spec fn record_step(src: Src) -> spec_fn(Rd) -> (model::ButtonRecord, Rd) {
    |c: Rd| button_record(src, c)
}

pub open spec fn button_action(x: Ctx, c: Rd) -> (model::ButtonAction, Rd) {
    let (conditions, c) = x.src.i32(x.src.align_ptr(c));
    let (off, c) = x.src.ptr(c);
    let (actions, c) = decode::stream(x, c, off);
    (model::ButtonAction { conditions, actions }, c)
}

pub open spec fn action_step(x: Ctx) -> spec_fn(Rd) -> (model::ButtonAction, Rd) {
    |c: Rd| button_action(x, c)
}

/// The transition sounds at `off`; a null pointer stands for none.
pub open spec fn button_sounds(src: Src, c: Rd, off: u64) -> (Option<ButtonSounds>, Rd) {
    if off != 0 {
        let (over_up_to_idle, c) = index_slot(src, c.at(off as int));
        let (idle_to_over_up, c) = index_slot(src, c);
        let (over_up_to_over_down, c) = index_slot(src, c);
        let (over_down_to_over_up, c) = index_slot(src, c);
        (
            Some(
                ButtonSounds {
                    over_up_to_idle,
                    idle_to_over_up,
                    over_up_to_over_down,
                    over_down_to_over_up,
                },
            ),
            c,
        )
    } else {
        (None, c)
    }
}

/// A button.
#[verifier::opaque]
pub open spec fn button(x: Ctx, c: Rd) -> (model::Button, Rd) {
    let src = x.src;
    let (menu, c) = src.i32(c);
    let (hit_test_bounds, c) = rect(src, c);
    let (n_triangles, c) = src.i32(c);
    let (n_vertices, c) = src.i32(c);
    let (vertices_off, c) = src.ptr(c);
    let (indices_off, c) = src.ptr(c);
    let (n_records, c) = src.i32(c);
    let (records_off, c) = src.ptr(c);
    let (n_conditions, c) = src.i32(c);
    let (conditions_off, c) = src.ptr(c);
    let (sound_off, c) = src.ptr(c);
    let (hit_test_vertices, c) = reps(
        vertex_step(src),
        c.at(vertices_off as int),
        items(n_vertices),
    );
    let (hit_test_triangles, c) = reps(
        triangle_step(src),
        c.at(indices_off as int),
        items(n_triangles),
    );
    let (records, c) = reps(record_step(src), c.at(records_off as int), items(n_records));
    let (actions, c) = reps(action_step(x), c.at(conditions_off as int), items(n_conditions));
    let (sounds, c) = button_sounds(src, c, sound_off);
    (
        model::Button {
            is_menu: menu != 0,
            hit_test_bounds,
            hit_test_vertices,
            hit_test_triangles,
            records,
            actions,
            sounds,
        },
        c,
    )
}

pub open spec fn glyph_entry(src: Src, c: Rd) -> (GlyphEntry, Rd) {
    let (index, c) = src.i16(c);
    let (advance, c) = src.i16(c);
    (GlyphEntry { index, advance }, c)
}

pub open spec fn glyph_step(src: Src) -> spec_fn(Rd) -> (GlyphEntry, Rd) {
    |c: Rd| glyph_entry(src, c)
}

pub open spec fn text_record(src: Src, c: Rd) -> (model::StaticTextRecord, Rd) {
    let (font_id, c) = src.i32(src.align_ptr(c));
    let (cxform, c) = float_cxform(src, c);
    let (x_offset, c) = src.u32(c);
    let (y_offset, c) = src.u32(c);
    let (scale, c) = src.u32(c);
    let (n, c) = src.i32(c);
    let (off, c) = src.ptr(c);
    let (glyphs, d) = reps(glyph_step(src), c.at(off as int), items(n));
    (
        model::StaticTextRecord { font_id, cxform, x_offset, y_offset, scale, glyphs },
        d.at(c.pos),
    )
}

pub open spec fn text_step(src: Src) -> spec_fn(Rd) -> (model::StaticTextRecord, Rd) {
    |c: Rd| text_record(src, c)
}

pub open spec fn edit_text(src: Src, c: Rd) -> (model::Text, Rd) {
    let (bounds, c) = rect(src, c);
    let (font_id, c) = src.i32(c);
    let (alignment, c) = src.i32(c);
    let (color, c) = src.u32(c);
    let (font_height, c) = src.u32(c);
    let (read_only, c) = src.i32(c);
    let (multiline, c) = src.i32(c);
    let (word_wrap, c) = src.i32(c);
    let (initial_text, c) = src.ptr_string(c);
    let (variable, c) = src.ptr_string(c);
    (
        model::Text {
            bounds,
            font_id,
            alignment: TextAlignment::of_code(alignment),
            color,
            font_height,
            read_only: read_only != 0,
            multiline: multiline != 0,
            word_wrap: word_wrap != 0,
            initial_text,
            variable,
        },
        c,
    )
}

pub open spec fn font(src: Src, c: Rd) -> (model::Font, Rd) {
    let (name, c) = src.ptr_string(c);
    let (n, c) = src.i32(c);
    let (off, c) = src.ptr(c);
    let (glyphs, c) = reps(index_step(src), c.at(off as int), items(n));
    (model::Font { name, glyphs }, c)
}

pub open spec fn static_text(src: Src, c: Rd) -> (model::StaticText, Rd) {
    let (bounds, c) = rect(src, c);
    let (m, c) = matrix(src, c);
    let (n, c) = src.i32(c);
    let (off, c) = src.ptr(c);
    let (records, c) = reps(text_step(src), c.at(off as int), items(n));
    (model::StaticText { bounds, matrix: m, records }, c)
}

pub open spec fn sprite(x: Ctx, c: Rd) -> (Seq<model::Frame>, Rd) {
    let (n, c) = x.src.i32(c);
    let (off, c) = x.src.ptr(c);
    let c = x.src.ptr(c).1;
    frames(x, c, off, n)
}

/// The prelude of a character: its type and the decoupled data word (0 in
/// non-decoupled files).
pub open spec fn char_header(p: Px, c: Rd) -> ((i32, u32), Rd) {
    let (t, c) = p.x.src.i32(c);
    let c = p.x.src.ptr(c).1;
    if p.decoupled {
        let (data, c) = p.x.src.u32(c);
        ((t, data), p.x.src.ptr(c).1)
    } else {
        ((t, 0), c)
    }
}

/// A character.
#[verifier::opaque]
pub open spec fn character(p: Px, c: Rd) -> (model::Character, Rd) {
    let src = p.x.src;
    let ((t, data), c) = char_header(p, c);
    if c.err is Some {
        (model::Character::Nothing, c)
    } else if t == 1 {
        let (bounds, c) = rect(src, c);
        (
            model::Character::Shape(
                Shape {
                    bounds,
                    bitmap_character_id: if p.decoupled {
                        Some((data & 0x7FFF) as u16)
                    } else {
                        None
                    },
                },
            ),
            c,
        )
    } else if t == 2 {
        let (v, c) = edit_text(src, c);
        (model::Character::Text(v), c)
    } else if t == 3 {
        let (v, c) = font(src, c);
        (model::Character::Font(v), c)
    } else if t == 4 {
        let (v, c) = button(p.x, c);
        (model::Character::Button(v), c)
    } else if t == 5 {
        let (v, c) = sprite(p.x, c);
        (model::Character::Sprite(v), c)
    } else if t == 6 {
        (model::Character::Sound, c)
    } else if t == 7 {
        (model::Character::Bitmap, c)
    } else if t == 8 {
        let (start_character_id, c) = index_slot(src, c);
        let (end_character_id, c) = index_slot(src, c);
        (model::Character::Morph(Morph { start_character_id, end_character_id }), c)
    } else if t == 10 {
        let (v, c) = static_text(src, c);
        (model::Character::StaticText(v), c)
    } else if t == 11 {
        (model::Character::Nothing, c)
    } else if t == 12 {
        (model::Character::Video, c)
    } else {
        (model::Character::Nothing, c.fail(model::Error::InvalidCharacterType(t)))
    }
}

/// The `i`-th character slot of the movie whose root character is at `root`.
pub open spec fn char_slot(p: Px, root: u64, i: nat, c: Rd) -> (model::CharacterSlot, Rd) {
    let (off, c) = p.x.src.ptr(c);
    if c.err is Some || off == 0 {
        (model::CharacterSlot::Empty, c)
    } else if i == 0 || off == root {
        (model::CharacterSlot::Root, c)
    } else {
        let (ch, d) = character(p, c.at(off as int));
        (model::CharacterSlot::Character(ch), d.at(c.pos))
    }
}

/// The first `n` character slots.
pub open spec fn char_slots(p: Px, root: u64, c: Rd, n: nat) -> (Seq<model::CharacterSlot>, Rd)
    decreases n,
{
    if n == 0 || c.err is Some {
        (Seq::empty(), c)
    } else {
        let (got, d) = char_slots(p, root, c, (n - 1) as nat);
        let (slot, e) = char_slot(p, root, (n - 1) as nat, d);
        (got.push(slot), e)
    }
}

pub open spec fn import(src: Src, c: Rd) -> (model::Import, Rd) {
    let (movie, c) = src.ptr_string(src.align_ptr(c));
    let (name, c) = src.ptr_string(c);
    let (character_id, c) = src.u32(c);
    (model::Import { movie, name, character_id }, src.ptr(c).1)
}

pub open spec fn import_step(src: Src) -> spec_fn(Rd) -> (model::Import, Rd) {
    |c: Rd| import(src, c)
}

pub open spec fn export(src: Src, c: Rd) -> (model::Export, Rd) {
    let (name, c) = src.ptr_string(src.align_ptr(c));
    let (character_id, c) = src.u32(c);
    (model::Export { name, character_id }, c)
}

pub open spec fn export_step(src: Src) -> spec_fn(Rd) -> (model::Export, Rd) {
    |c: Rd| export(src, c)
}

/// What the root character says: counts, offsets and stage.
pub struct RootHead {
    pub n_frames: i32,
    pub frames: u64,
    pub n_characters: i32,
    pub characters: u64,
    pub width: u32,
    pub height: u32,
    pub ms_per_frame: u32,
    pub n_imports: i32,
    pub imports: u64,
    pub n_exports: i32,
    pub exports: u64,
}

#[verifier::opaque]
pub open spec fn root_head(p: Px, c: Rd) -> (RootHead, Rd) {
    let src = p.x.src;
    let ((t, _), c) = char_header(p, c);
    let c = if t != 9 {
        c.fail(model::Error::RootNotAnimation(t))
    } else {
        c
    };
    let (n_frames, c) = src.i32(c);
    let (frames, c) = src.ptr(c);
    let c = src.ptr(c).1;
    let (n_characters, c) = src.i32(c);
    let (characters, c) = src.ptr(c);
    let (width, c) = src.u32(c);
    let (height, c) = src.u32(c);
    let (ms_per_frame, c) = src.u32(c);
    let (n_imports, c) = src.i32(c);
    let (imports, c) = src.ptr(c);
    let (n_exports, c) = src.i32(c);
    let (exports, c) = src.ptr(c);
    (
        RootHead {
            n_frames,
            frames,
            n_characters,
            characters,
            width,
            height,
            ms_per_frame,
            n_imports,
            imports,
            n_exports,
            exports,
        },
        c,
    )
}

/// The movie whose root character is at `off`.
#[verifier::opaque]
pub open spec fn root(p: Px, off: u64) -> (model::Movie, Rd) {
    let src = p.x.src;
    let (h, c) = root_head(p, Rd::start(off as int));
    let (frames, c) = frames(p.x, c, h.frames, h.n_frames);
    let (characters, c) = char_slots(
        p,
        off,
        c.at(h.characters as int),
        items(h.n_characters),
    );
    let (imports, c) = reps(import_step(src), c.at(h.imports as int), items(h.n_imports));
    let (exports, c) = reps(export_step(src), c.at(h.exports as int), items(h.n_exports));
    (
        model::Movie {
            frames,
            characters,
            width: h.width,
            height: h.height,
            ms_per_frame: h.ms_per_frame,
            imports,
            exports,
        },
        c,
    )
}

/// The movie that an `.apt` and a `.const` file hold.
pub open spec fn apt_file(apt: Seq<u8>, consts: Seq<u8>) -> Result<model::AptFile, model::Error> {
    match header(apt) {
        Err(e) => Err(e),
        Ok(h) => {
            let ps = h.ptr_size.width();
            let (f, c) = super::constfile::read_const(Src { data: consts, ps });
            if c.err is Some {
                Err(c.err->0)
            } else {
                let p = Px {
                    x: Ctx { src: Src { data: apt, ps }, consts: f.constants },
                    decoupled: h.decoupled,
                };
                let (movie, d) = root(p, f.main_character_offset);
                if d.err is Some {
                    Err(d.err->0)
                } else {
                    Ok(model::AptFile { header: h, const_magic: f.magic, movie })
                }
            }
        },
    }
}

pub proof fn lemma_char_slots_sticky(p: Px, root: u64, c: Rd, i: nat, n: nat)
    requires
        i <= n,
        char_slots(p, root, c, i).1.err is Some,
    ensures
        char_slots(p, root, c, n).1 == char_slots(p, root, c, i).1,
    decreases n - i,
{
    if i < n {
        lemma_char_slots_sticky(p, root, c, i, (n - 1) as nat);
    }
}

} // verus!
