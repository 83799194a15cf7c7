//! The APT movie that a SWF file holds.
use super::building;
use super::reading;
use super::singles::signed_fraction;
use super::swf_model as scene;
use super::swf_movie::Rgba;
use super::swf_read::{
    self, Contents, FilterParts, FixedColors, FixedMatrix, GradientData, Placing, ShapeHead,
};
use super::{ReadFault, Trouble};
use crate::apt::bytes::un_le;
use crate::apt::constfile::CONST_MAGIC;
use crate::apt::model::{
    AptFile, Character, CharacterSlot, Control, EventAction, Export, Filter, Frame, Header, Import,
    Instruction, Movie, PlaceObject,
};
use crate::apt::types::{
    identity_cxform, F32Bits, Matrix, Morph, PackedCxForm, PtrSize, Rect, Shape,
};
use crate::apt::writing;
use crate::apt_aux::ru::packed;
use vstd::prelude::*;

verus! {

pub const TAG_END: u16 = 0;
pub const TAG_SHOW_FRAME: u16 = 1;
pub const TAG_DEFINE_SHAPE: u16 = 2;
pub const TAG_PLACE_OBJECT: u16 = 4;
pub const TAG_REMOVE_OBJECT: u16 = 5;
pub const TAG_DEFINE_BUTTON: u16 = 7;
pub const TAG_BACKGROUND_COLOR: u16 = 9;
pub const TAG_DEFINE_FONT: u16 = 10;
pub const TAG_DEFINE_TEXT: u16 = 11;
pub const TAG_DO_ACTION: u16 = 12;
pub const TAG_DEFINE_LOSSLESS: u16 = 20;
pub const TAG_DEFINE_JPEG2: u16 = 21;
pub const TAG_DEFINE_SHAPE2: u16 = 22;
pub const TAG_PLACE_OBJECT2: u16 = 26;
pub const TAG_REMOVE_OBJECT2: u16 = 28;
pub const TAG_DEFINE_SHAPE3: u16 = 32;
pub const TAG_DEFINE_TEXT2: u16 = 33;
pub const TAG_DEFINE_BUTTON2: u16 = 34;
pub const TAG_DEFINE_JPEG3: u16 = 35;
pub const TAG_DEFINE_LOSSLESS2: u16 = 36;
pub const TAG_DEFINE_EDIT_TEXT: u16 = 37;
pub const TAG_DEFINE_SPRITE: u16 = 39;
pub const TAG_FRAME_LABEL: u16 = 43;
pub const TAG_DEFINE_MORPH: u16 = 46;
pub const TAG_DEFINE_FONT2: u16 = 48;
pub const TAG_EXPORT_ASSETS: u16 = 56;
pub const TAG_IMPORT_ASSETS: u16 = 57;
pub const TAG_DO_INIT_ACTION: u16 = 59;
pub const TAG_PLACE_OBJECT3: u16 = 70;
pub const TAG_IMPORT_ASSETS2: u16 = 71;
pub const TAG_DEFINE_FONT3: u16 = 75;
pub const TAG_DEFINE_SHAPE4: u16 = 83;
pub const TAG_DEFINE_MORPH2: u16 = 84;
pub const TAG_DEFINE_JPEG4: u16 = 90;
pub const TAG_DEFINE_FONT4: u16 = 91;
pub const TAG_PLACE_OBJECT4: u16 = 94;

/// A tag in a list of tags: its code, where it starts, where its body starts, and
/// where it ends.
#[derive(Debug, Clone, Copy, PartialEq, Eq)]
pub struct Span {
    pub code: u16,
    pub start: usize,
    pub body: usize,
    pub end: usize,
}

/// The tag at `pos`: ten bits of code and six of length, or a length of its own.
pub open spec fn tag_at(d: Seq<u8>, pos: int) -> Option<(u16, int, int)> {
    if pos + 2 > d.len() {
        None
    } else {
        let v = un_le(d, pos, 2);
        if v % 64 < 63 {
            Some(((v / 64) as u16, pos + 2, pos + 2 + v % 64))
        } else if pos + 6 > d.len() {
            None
        } else {
            Some(((v / 64) as u16, pos + 6, pos + 6 + un_le(d, pos + 2, 4)))
        }
    }
}

/// A tag: its code, all of it, and its body.
pub struct Tag {
    pub code: u16,
    pub all: Seq<u8>,
    pub body: Seq<u8>,
}

/// The tags from `pos` up to the end tag. There is none of them where one cannot be
/// read, or where there is no end tag.
pub open spec fn tags(d: Seq<u8>, version: u8, pos: int) -> Option<Seq<Tag>>
    decreases d.len() - pos,
    when 0 <= pos
{
    match tag_at(d, pos) {
        None => None,
        Some((code, body, end)) => {
            let all = d.subrange(pos, end);
            if end > d.len() || !swf_read::accepted(all, version) {
                None
            } else if code == TAG_END {
                Some(Seq::empty())
            } else {
                match tags(d, version, end) {
                    None => None,
                    Some(rest) => Some(seq![Tag { code, all, body: d.subrange(body, end) }] + rest),
                }
            }
        },
    }
}

/// The number that stands for a single in pixels, from twips.
pub open spec fn pixels(twips: i32) -> F32Bits {
    signed_fraction(twips as int, 20) as u32
}

pub open spec fn matrix(m: FixedMatrix) -> Matrix {
    Matrix {
        a: signed_fraction(m.a as int, 0x1_0000) as u32,
        b: signed_fraction(m.b as int, 0x1_0000) as u32,
        c: signed_fraction(m.c as int, 0x1_0000) as u32,
        d: signed_fraction(m.d as int, 0x1_0000) as u32,
        tx: pixels(m.tx),
        ty: pixels(m.ty),
    }
}

/// A factor in 1/256 as a byte, cut to a whole number and held within a byte: 254
/// stands for one.
pub open spec fn scale_byte(v: i16) -> u8 {
    let b = v * 254 / 256;
    if b < 0 {
        0
    } else if b > 255 {
        255
    } else {
        b as u8
    }
}

pub open spec fn cxform(c: FixedColors) -> PackedCxForm {
    PackedCxForm {
        scale: packed(
            scale_byte(c.b_multiply),
            scale_byte(c.g_multiply),
            scale_byte(c.r_multiply),
            scale_byte(c.a_multiply),
        ),
        bias: packed(c.b_add as u8, c.g_add as u8, c.r_add as u8, c.a_add as u8),
    }
}

/// Whether a factor is a whole number of 1/256: none, a half, or one.
pub open spec fn even_factor(b: u8) -> bool {
    b == 0 || b == 127 || b == 254
}

/// What a byte has become once it was a factor in 1/256: what is cut off costs one step.
pub open spec fn cut_byte(b: u8) -> u8 {
    if even_factor(b) {
        b
    } else {
        (b - 1) as u8
    }
}

/// Of a packed color transform that is put into a SWF file the bias comes back as it was.
/// So does a factor that is a whole number of 1/256, and any other comes back one lower;
/// the transform comes back whole exactly where all its factors do.
pub proof fn law_cxform_roundtrip(c: PackedCxForm)
    ensures
        ({
            let s = building::rgba(c.scale);
            let r = cxform(building::fixed_colors(c));
            &&& r.scale == packed(cut_byte(s.b), cut_byte(s.g), cut_byte(s.r), cut_byte(s.a))
            &&& r.bias == c.bias
            &&& r == c <==> even_factor(s.b) && even_factor(s.g) && even_factor(s.r)
                && even_factor(s.a)
        }),
{
    let s = building::rgba(c.scale);
    lemma_scale(s.b);
    lemma_scale(s.g);
    lemma_scale(s.r);
    lemma_scale(s.a);
    lemma_repacked(c.scale);
    lemma_repacked(c.bias);
    lemma_unpacked(cut_byte(s.b), cut_byte(s.g), cut_byte(s.r), cut_byte(s.a));
}

proof fn lemma_scale(b: u8)
    ensures
        scale_byte(building::scale_factor(b)) == cut_byte(b),
{
    let v = b * 256 / 254;
    assert(building::scale_factor(b) == v);
    assert(b * 256 - 253 <= 254 * v <= b * 256);
}

proof fn lemma_unpacked(b: u8, g: u8, r: u8, a: u8)
    ensures
        building::rgba(packed(b, g, r, a)) == (Rgba { r, g, b, a }),
{
    let c = packed(b, g, r, a);
    let c1 = g + 0x100 * r + 0x1_0000 * a;
    let c2 = r + 0x100 * a;
    assert(c == b + 0x100 * c1);
    assert(c1 == g + 0x100 * c2);
    assert(c / 0x100 == c1 && c % 0x100 == b);
    assert(c1 / 0x100 == c2 && c1 % 0x100 == g);
    assert(c2 / 0x100 == a && c2 % 0x100 == r);
    assert(c / 0x1_0000 == c2);
    assert(c / 0x100_0000 == a);
}

proof fn lemma_repacked(c: u32)
    ensures
        ({
            let v = building::rgba(c);
            packed(v.b, v.g, v.r, v.a) == c
        }),
{
}

/// The color transform that changes nothing is the one that a SWF file has for it.
pub proof fn law_identity_cxform(c: FixedColors)
    requires
        c == building::fixed_colors(identity_cxform()),
    ensures
        c.r_multiply == 256 && c.g_multiply == 256 && c.b_multiply == 256 && c.a_multiply == 256,
        c.r_add == 0 && c.g_add == 0 && c.b_add == 0 && c.a_add == 0,
{
}

pub open spec fn drop_shadow(f: FilterParts) -> Filter {
    Filter::DropShadow {
        color: f.color,
        blur_x: f.blur_x as u32,
        blur_y: f.blur_y as u32,
        angle: f.angle as u32,
        distance: f.distance as u32,
        strength: f.strength as u16,
        flags: f.flags as u16,
    }
}

pub open spec fn blur(f: FilterParts) -> Filter {
    Filter::Blur { blur_x: f.blur_x as u32, blur_y: f.blur_y as u32, flags: f.flags as u16 }
}

pub open spec fn glow(f: FilterParts) -> Filter {
    Filter::Glow {
        color: f.color,
        blur_x: f.blur_x as u32,
        blur_y: f.blur_y as u32,
        strength: f.strength as u16,
        flags: f.flags as u16,
    }
}

pub open spec fn bevel(f: FilterParts) -> Filter {
    Filter::Bevel {
        highlight_color: f.second,
        shadow_color: f.color,
        blur_x: f.blur_x as u32,
        blur_y: f.blur_y as u32,
        angle: f.angle as u32,
        distance: f.distance as u32,
        strength: f.strength as u16,
        flags: f.flags as u16,
    }
}

pub open spec fn gradient(g: GradientData, is_bevel: bool) -> Filter {
    Filter::GradientGlow {
        is_bevel,
        colors: g.colors,
        ratios: g.ratios,
        blur_x: g.blur_x as u32,
        blur_y: g.blur_y as u32,
        angle: g.angle as u32,
        distance: g.distance as u32,
        strength: g.strength as u16,
        flags: g.flags as u16,
    }
}

/// The entry at `i`, where there is one.
pub open spec fn entry<T>(v: Seq<Option<T>>, i: int) -> Option<T> {
    if 0 <= i < v.len() {
        v[i]
    } else {
        None
    }
}

/// The filters of a placement, by their kinds.
pub struct Filters {
    pub shadows: Seq<Option<FilterParts>>,
    pub blurs: Seq<Option<FilterParts>>,
    pub glows: Seq<Option<FilterParts>>,
    pub bevels: Seq<Option<FilterParts>>,
    pub gradient_glows: Seq<Option<GradientData>>,
    pub gradient_bevels: Seq<Option<GradientData>>,
    pub color_matrices: Seq<Option<Seq<F32Bits>>>,
}

/// The `i`-th filter; there is none where the kind has no counterpart.
pub open spec fn filter_at(f: Filters, i: int) -> Option<Filter> {
    if entry(f.shadows, i) is Some {
        Some(drop_shadow(entry(f.shadows, i)->0))
    } else if entry(f.blurs, i) is Some {
        Some(blur(entry(f.blurs, i)->0))
    } else if entry(f.glows, i) is Some {
        Some(glow(entry(f.glows, i)->0))
    } else if entry(f.bevels, i) is Some {
        Some(bevel(entry(f.bevels, i)->0))
    } else if entry(f.gradient_glows, i) is Some {
        Some(gradient(entry(f.gradient_glows, i)->0, false))
    } else if entry(f.gradient_bevels, i) is Some {
        Some(gradient(entry(f.gradient_bevels, i)->0, true))
    } else if entry(f.color_matrices, i) is Some {
        Some(Filter::ColorMatrix { values: entry(f.color_matrices, i)->0 })
    } else {
        None
    }
}

/// The first `n` filters.
pub open spec fn filters(f: Filters, n: nat) -> Seq<Filter>
    decreases n,
{
    if n == 0 {
        Seq::empty()
    } else {
        let before = filters(f, (n - 1) as nat);
        match filter_at(f, n - 1) {
            Some(x) => before.push(x),
            None => before,
        }
    }
}

/// The filters that a placement tag holds.
pub open spec fn filters_in(tag: Seq<u8>, version: u8) -> Filters {
    Filters {
        shadows: swf_read::shadows_in(tag, version),
        blurs: swf_read::blurs_in(tag, version),
        glows: swf_read::glows_in(tag, version),
        bevels: swf_read::bevels_in(tag, version),
        gradient_glows: swf_read::gradient_glows_in(tag, version),
        gradient_bevels: swf_read::gradient_bevels_in(tag, version),
        color_matrices: swf_read::color_matrices_in(tag, version),
    }
}

/// A fault in bytecode.
pub open spec fn code_fault(code: Seq<u8>) -> Option<Trouble> {
    match reading::block(code) {
        Ok(_) => None,
        Err(f) => Some(Trouble::SwfRead(f)),
    }
}

pub open spec fn handler(c: scene::ClipHandler) -> EventAction {
    EventAction {
        triggers: c.events as i32,
        key_code: match c.key_code {
            Some(k) => k as i32,
            None => 0,
        },
        actions: reading::block(c.code)->Ok_0,
    }
}

pub open spec fn handlers(v: Seq<scene::ClipHandler>) -> Seq<EventAction> {
    Seq::new(v.len(), |i: int| handler(v[i]))
}

/// The first fault in the bytecode of the first `n` handlers.
pub open spec fn handlers_fault(v: Seq<scene::ClipHandler>, n: nat) -> Option<Trouble>
    decreases n,
{
    if n == 0 {
        None
    } else {
        super::first_of(handlers_fault(v, (n - 1) as nat), code_fault(v[n - 1].code))
    }
}

/// What a placement holds.
pub struct Placed {
    pub core: swf_read::PlaceCore,
    pub matrix: Option<FixedMatrix>,
    pub colors: Option<FixedColors>,
    pub clips: Option<Seq<scene::ClipHandler>>,
    pub filters: Filters,
}

pub open spec fn place_object(p: Placed) -> PlaceObject {
    PlaceObject {
        is_move: p.core.action is Modify || p.core.action is Replace,
        depth: p.core.depth as i32,
        character_id: match p.core.action {
            Placing::Place(id) => Some(id as i32),
            Placing::Replace(id) => Some(id as i32),
            _ => None,
        },
        matrix: match p.matrix {
            Some(m) => Some(matrix(m)),
            None => None,
        },
        cxform: match p.colors {
            Some(c) => Some(cxform(c)),
            None => None,
        },
        ratio: match p.core.ratio {
            Some(r) => Some(signed_fraction(r as int, 65535) as u32),
            None => None,
        },
        name: p.core.name,
        clip_depth: match p.core.clip_depth {
            Some(d) => Some(d as i32),
            None => None,
        },
        clip_actions: match p.clips {
            Some(v) => Some(handlers(v)),
            None => None,
        },
        blend_mode: match p.core.blend_mode {
            Some(b) => Some(b as i32),
            None => None,
        },
        filters: filters(p.filters, p.filters.shadows.len()),
    }
}

pub open spec fn is_place(code: u16) -> bool {
    code == TAG_PLACE_OBJECT || code == TAG_PLACE_OBJECT2 || code == TAG_PLACE_OBJECT3 || code
        == TAG_PLACE_OBJECT4
}

pub open spec fn is_remove(code: u16) -> bool {
    code == TAG_REMOVE_OBJECT || code == TAG_REMOVE_OBJECT2
}

/// A tag whose parts are not there.
pub open spec fn bad_tag<T>() -> Result<T, Trouble> {
    Err(Trouble::SwfRead(ReadFault::BadTag))
}

/// A placement.
pub open spec fn placement(tag: Seq<u8>, version: u8) -> Result<PlaceObject, Trouble> {
    match swf_read::place_in(tag, version) {
        None => bad_tag(),
        Some(core) => {
            let p = Placed {
                core,
                matrix: swf_read::matrix_in(tag, version),
                colors: swf_read::colors_in(tag, version),
                clips: swf_read::clips_in(tag, version),
                filters: filters_in(tag, version),
            };
            let fault = match p.clips {
                Some(v) => handlers_fault(v, v.len()),
                None => None,
            };
            match fault {
                Some(e) => Err(e),
                None => Ok(place_object(p)),
            }
        },
    }
}

/// A removal: the depth is the last of its fields.
pub open spec fn removal(code: u16, body: Seq<u8>) -> Result<Control, Trouble> {
    let at: int = if code == TAG_REMOVE_OBJECT {
        2
    } else {
        0
    };
    if body.len() < at + 2 {
        bad_tag()
    } else {
        Ok(Control::RemoveObject { depth: un_le(body, at, 2) as i32 })
    }
}

/// The actions that bytecode spells.
pub open spec fn actions(code: Seq<u8>) -> Result<Seq<Instruction>, Trouble> {
    match reading::block(code) {
        Ok(s) => Ok(s),
        Err(f) => Err(Trouble::SwfRead(f)),
    }
}

/// The control of a tag that can stand in any timeline; none where the tag has none.
pub open spec fn timeline_control(t: Tag, version: u8) -> Result<Option<Control>, Trouble> {
    if is_place(t.code) {
        match placement(t.all, version) {
            Ok(p) => Ok(Some(Control::PlaceObject(p))),
            Err(e) => Err(e),
        }
    } else if is_remove(t.code) {
        match removal(t.code, t.body) {
            Ok(c) => Ok(Some(c)),
            Err(e) => Err(e),
        }
    } else if t.code == TAG_DO_ACTION {
        match actions(t.body) {
            Ok(s) => Ok(Some(Control::Action(s))),
            Err(e) => Err(e),
        }
    } else if t.code == TAG_FRAME_LABEL {
        match swf_read::label_in(t.all, version) {
            Some(s) => Ok(Some(Control::FrameLabel(s))),
            None => bad_tag(),
        }
    } else {
        Ok(None)
    }
}

/// The frames of a timeline, and the controls of the frame that is not shown yet.
#[verifier::ext_equal]
pub struct Timeline {
    pub frames: Seq<Frame>,
    pub pending: Seq<Control>,
}

impl Timeline {
    pub open spec fn empty() -> Timeline {
        Timeline { frames: Seq::empty(), pending: Seq::empty() }
    }

    pub open spec fn show(self) -> Timeline {
        Timeline {
            frames: self.frames.push(Frame { controls: self.pending }),
            pending: Seq::empty(),
        }
    }

    pub open spec fn put(self, c: Control) -> Timeline {
        Timeline { pending: self.pending.push(c), ..self }
    }

    /// All frames; controls without a frame get one.
    pub open spec fn all(self) -> Seq<Frame> {
        if self.pending.len() == 0 {
            self.frames
        } else {
            self.show().frames
        }
    }
}

/// The timeline of the first `n` tags of a sprite.
pub open spec fn sprite_timeline(v: Seq<Tag>, version: u8, n: nat) -> Result<Timeline, Trouble>
    decreases n,
{
    if n == 0 {
        Ok(Timeline::empty())
    } else {
        match sprite_timeline(v, version, (n - 1) as nat) {
            Err(e) => Err(e),
            Ok(t) => if v[n - 1].code == TAG_SHOW_FRAME {
                Ok(t.show())
            } else {
                match timeline_control(v[n - 1], version) {
                    Err(e) => Err(e),
                    Ok(Some(c)) => Ok(t.put(c)),
                    Ok(None) => Ok(t),
                }
            },
        }
    }
}

/// The frames of a sprite: behind its character and its number of frames stand its
/// tags.
pub open spec fn sprite(body: Seq<u8>, version: u8) -> Result<Seq<Frame>, Trouble> {
    if body.len() < 4 {
        bad_tag()
    } else {
        match tags(body.skip(4), version, 0) {
            None => bad_tag(),
            Some(v) => match sprite_timeline(v, version, v.len()) {
                Ok(t) => Ok(t.all()),
                Err(e) => Err(e),
            },
        }
    }
}

/// A movie being recovered. The slots so far stand for the characters; the first is
/// the root.
#[verifier::ext_equal]
pub struct Draft {
    pub timeline: Timeline,
    pub slots: Seq<CharacterSlot>,
    pub imports: Seq<Import>,
    pub exports: Seq<Export>,
}

/// Slots up to and with a character.
pub open spec fn reserved(s: Seq<CharacterSlot>, id: u16) -> Seq<CharacterSlot> {
    Seq::new(
        if s.len() > id {
            s.len()
        } else {
            (id + 1) as nat
        },
        |i: int|
            if i < s.len() {
                s[i]
            } else {
                CharacterSlot::Empty
            },
    )
}

impl Draft {
    pub open spec fn start() -> Draft {
        Draft {
            timeline: Timeline::empty(),
            slots: seq![CharacterSlot::Root],
            imports: Seq::empty(),
            exports: Seq::empty(),
        }
    }

    /// A character. The first slot stays the root.
    pub open spec fn define(self, id: u16, c: Character) -> Draft {
        if id == 0 {
            self
        } else {
            Draft {
                slots: reserved(self.slots, id).update(id as int, CharacterSlot::Character(c)),
                ..self
            }
        }
    }

    /// A character that has no counterpart.
    pub open spec fn reserve(self, id: u16) -> Draft {
        Draft { slots: reserved(self.slots, id), ..self }
    }

    pub open spec fn put(self, c: Control) -> Draft {
        Draft { timeline: self.timeline.put(c), ..self }
    }
}

pub open spec fn is_shape(code: u16) -> bool {
    code == TAG_DEFINE_SHAPE || code == TAG_DEFINE_SHAPE2 || code == TAG_DEFINE_SHAPE3 || code
        == TAG_DEFINE_SHAPE4
}

pub open spec fn is_morph(code: u16) -> bool {
    code == TAG_DEFINE_MORPH || code == TAG_DEFINE_MORPH2
}

pub open spec fn is_import(code: u16) -> bool {
    code == TAG_IMPORT_ASSETS || code == TAG_IMPORT_ASSETS2
}

/// Whether a tag defines a character that is not converted: buttons, texts and fonts.
pub open spec fn is_blank(code: u16) -> bool {
    ||| code == TAG_DEFINE_BUTTON
    ||| code == TAG_DEFINE_BUTTON2
    ||| code == TAG_DEFINE_TEXT
    ||| code == TAG_DEFINE_TEXT2
    ||| code == TAG_DEFINE_EDIT_TEXT
    ||| code == TAG_DEFINE_FONT
    ||| code == TAG_DEFINE_FONT2
    ||| code == TAG_DEFINE_FONT3
    ||| code == TAG_DEFINE_FONT4
}

pub open spec fn shape(h: ShapeHead) -> Character {
    Character::Shape(
        Shape {
            bounds: Rect {
                left: pixels(h.x_min),
                top: pixels(h.y_min),
                right: pixels(h.x_max),
                bottom: pixels(h.y_max),
            },
            bitmap_character_id: None,
        },
    )
}

pub open spec fn exported(v: Seq<scene::Asset>) -> Seq<Export> {
    Seq::new(v.len(), |i: int| Export { name: v[i].name, character_id: v[i].id as u32 })
}

/// The name of the movie that a file holds: the file without the extension.
pub open spec fn movie_name(url: Seq<char>) -> Seq<char> {
    let n = url.len() - 4;
    if n >= 0 && url.skip(n) == seq!['.', 's', 'w', 'f'] {
        url.take(n)
    } else {
        url
    }
}

/// The first `n` imports from a file.
pub open spec fn imported(d: Draft, url: Seq<char>, v: Seq<scene::Asset>, n: nat) -> Draft
    decreases n,
{
    if n == 0 {
        d
    } else {
        let b = imported(d, url, v, (n - 1) as nat).reserve(v[n - 1].id);
        Draft {
            imports: b.imports.push(
                Import {
                    movie: movie_name(url),
                    name: v[n - 1].name,
                    character_id: v[n - 1].id as u32,
                },
            ),
            ..b
        }
    }
}

/// What one tag adds to a movie.
#[verifier::opaque]
pub open spec fn step(d: Draft, t: Tag, version: u8) -> Result<Draft, Trouble> {
    if t.code == TAG_SHOW_FRAME {
        Ok(Draft { timeline: d.timeline.show(), ..d })
    } else if t.code == TAG_DEFINE_SPRITE {
        match sprite(t.body, version) {
            Ok(frames) => Ok(d.define(un_le(t.body, 0, 2) as u16, Character::Sprite(frames))),
            Err(e) => Err(e),
        }
    } else if is_shape(t.code) {
        match swf_read::shape_head_in(t.all, version) {
            Some(h) => Ok(d.define(h.id, shape(h))),
            None => bad_tag(),
        }
    } else if is_morph(t.code) {
        if t.body.len() < 2 {
            bad_tag()
        } else {
            Ok(
                d.define(
                    un_le(t.body, 0, 2) as u16,
                    Character::Morph(Morph { start_character_id: 0, end_character_id: 0 }),
                ),
            )
        }
    } else if is_blank(t.code) {
        if t.body.len() < 2 {
            bad_tag()
        } else {
            Ok(d.reserve(un_le(t.body, 0, 2) as u16))
        }
    } else if t.code == TAG_EXPORT_ASSETS {
        match swf_read::exports_in(t.all, version) {
            Some(v) => Ok(Draft { exports: d.exports + exported(v), ..d }),
            None => bad_tag(),
        }
    } else if is_import(t.code) {
        match swf_read::imports_in(t.all, version) {
            Some((url, v)) => Ok(imported(d, url, v, v.len())),
            None => bad_tag(),
        }
    } else if t.code == TAG_BACKGROUND_COLOR {
        if t.body.len() < 3 {
            bad_tag()
        } else {
            Ok(d.put(Control::BackgroundColor(packed(t.body[2], t.body[1], t.body[0], 255))))
        }
    } else if t.code == TAG_DO_INIT_ACTION {
        if t.body.len() < 2 {
            bad_tag()
        } else {
            match actions(t.body.skip(2)) {
                Ok(s) => Ok(
                    d.put(
                        Control::InitAction { sprite_id: un_le(t.body, 0, 2) as i32, actions: s },
                    ),
                ),
                Err(e) => Err(e),
            }
        }
    } else {
        match timeline_control(t, version) {
            Ok(Some(c)) => Ok(d.put(c)),
            Ok(None) => Ok(d),
            Err(e) => Err(e),
        }
    }
}

/// What the first `n` tags make of a movie.
pub open spec fn steps(v: Seq<Tag>, version: u8, n: nat) -> Result<Draft, Trouble>
    decreases n,
{
    if n == 0 {
        Ok(Draft::start())
    } else {
        match steps(v, version, (n - 1) as nat) {
            Ok(d) => step(d, v[n - 1], version),
            Err(e) => Err(e),
        }
    }
}

/// A length in whole pixels, from twips.
pub open spec fn whole_pixels(twips: int) -> u32 {
    if twips <= 0 {
        0
    } else {
        ((twips + 10) / 20) as u32
    }
}

/// The milliseconds of a frame, from frames per second in 1/256.
pub open spec fn frame_time(rate: i16) -> u32 {
    if rate > 0 {
        ((512_000 + rate) / (2 * rate)) as u32
    } else {
        33
    }
}

/// The movie of a file with these contents.
pub open spec fn movie(c: Contents, d: Draft) -> Movie {
    Movie {
        frames: d.timeline.all(),
        characters: d.slots,
        width: whole_pixels(c.x_max - c.x_min),
        height: whole_pixels(c.y_max - c.y_min),
        ms_per_frame: frame_time(c.frame_rate),
        imports: d.imports,
        exports: d.exports,
    }
}

/// The APT file of a file with these contents.
pub open spec fn file(
    c: Contents,
    ptr_size: PtrSize,
    decoupled: bool,
) -> Result<AptFile, Trouble> {
    match tags(c.tags, c.version, 0) {
        None => bad_tag(),
        Some(v) => match steps(v, c.version, v.len()) {
            Err(e) => Err(e),
            Ok(d) => Ok(
                AptFile {
                    header: Header {
                        decoupled,
                        swf_version: c.version,
                        ptr_size,
                        raw_tag: writing::long_tag(ptr_size, decoupled, c.version),
                    },
                    const_magic: CONST_MAGIC@,
                    movie: movie(c, d),
                },
            ),
        },
    }
}

/// The APT file that a SWF file holds.
pub open spec fn apt_file(data: Seq<u8>, ptr_size: PtrSize, decoupled: bool) -> Result<
    AptFile,
    Trouble,
> {
    match swf_read::unpacked(data) {
        None => Err(Trouble::SwfRead(ReadFault::BadFile)),
        Some(c) => file(c, ptr_size, decoupled),
    }
}

} // verus!
