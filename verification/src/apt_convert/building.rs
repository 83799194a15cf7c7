//! What a SWF made from an APT movie consists of.
use super::assets::Assets;
use super::avm1::{self, Texts};
use super::swf_model::{
    Asset, ButtonActionTag, ButtonRecordTag, ButtonTag, ClipHandler, Definition, EditTextTag,
    Fill, Outline, Place, ShapeTag, SwfMovie, TimelineTag,
};
use super::swf_movie::{PlaceAction, Rgba};
use super::swf_read::FixedColors;
use super::{first_of, zlib, Trouble};
use crate::apt::model::{
    AptFile, Button, ButtonAction, ButtonRecord, Character, CharacterSlot, Control, EventAction,
    Export, FloatCxForm, Frame, Import, Movie, PlaceObject, Text,
};
use crate::apt::types::{identity_matrix, F32Bits, Matrix, PackedCxForm, Rect, F32_ONE};
use crate::apt_aux::image_codec::Bitmap;
use crate::apt_aux::ru::{Batch, Look};
use vstd::prelude::*;

verus! {

/// The channels of a packed color: blue lowest.
pub open spec fn rgba(c: u32) -> Rgba {
    Rgba {
        b: (c % 0x100) as u8,
        g: (c / 0x100 % 0x100) as u8,
        r: (c / 0x1_0000 % 0x100) as u8,
        a: (c / 0x100_0000) as u8,
    }
}

/// A byte as a factor in 1/256, cut to a whole number: 254 stands for one.
pub open spec fn scale_factor(b: u8) -> i16 {
    (b * 256 / 254) as i16
}

/// A packed color transform in fixed-point numbers.
pub open spec fn fixed_colors(c: PackedCxForm) -> FixedColors {
    let s = rgba(c.scale);
    let b = rgba(c.bias);
    FixedColors {
        r_multiply: scale_factor(s.r),
        g_multiply: scale_factor(s.g),
        b_multiply: scale_factor(s.b),
        a_multiply: scale_factor(s.a),
        r_add: b.r as i16,
        g_add: b.g as i16,
        b_add: b.b as i16,
        a_add: b.a as i16,
    }
}

/// An opaque color.
pub open spec fn opaque(rgb: u32) -> Rgba {
    Rgba { a: 255, ..rgba(rgb) }
}

/// Imports grouped by the movie they come from, movies and imports in the order
/// in which they are first seen.
pub open spec fn groups(v: Seq<Import>, n: nat) -> Seq<(Seq<char>, Seq<Asset>)>
    decreases n,
{
    if n == 0 {
        Seq::empty()
    } else {
        let g = groups(v, (n - 1) as nat);
        let i = v[n - 1];
        let a = Asset { id: i.character_id as u16, name: i.name };
        let k = group_of(g, i.movie, 0);
        if k < g.len() {
            g.update(k, (g[k].0, g[k].1.push(a)))
        } else {
            g.push((i.movie, seq![a]))
        }
    }
}

/// The group of a movie among those from the `k`-th on; their number where there is none.
pub open spec fn group_of(g: Seq<(Seq<char>, Seq<Asset>)>, movie: Seq<char>, k: int) -> int
    decreases g.len() - k,
{
    if k >= g.len() {
        g.len() as int
    } else if g[k].0 == movie {
        k
    } else {
        group_of(g, movie, k + 1)
    }
}

/// The import tag of a group: the movie's SWF next to this one.
pub open spec fn import_tag(g: (Seq<char>, Seq<Asset>)) -> Definition {
    Definition::ImportAssets { url: g.0 + ".swf"@, assets: g.1 }
}

pub open spec fn import_tags(v: Seq<Import>) -> Seq<Definition> {
    let g = groups(v, v.len());
    Seq::new(g.len(), |i: int| import_tag(g[i]))
}

pub open spec fn export_assets(v: Seq<Export>) -> Seq<Asset> {
    Seq::new(v.len(), |i: int| Asset { id: v[i].character_id as u16, name: v[i].name })
}

/// The tag that makes the exported characters importable.
pub open spec fn export_tags(v: Seq<Export>) -> Seq<Definition> {
    if v.len() == 0 {
        Seq::empty()
    } else {
        seq![Definition::ExportAssets(export_assets(v))]
    }
}

/// Whether a control places a character.
pub open spec fn control_places(c: Control, id: u32) -> bool {
    c matches Control::PlaceObject(p) && (p.character_id matches Some(c) && c == id)
}

/// Whether one of the frames places a character.
pub open spec fn frames_place(v: Seq<Frame>, id: u32) -> bool {
    exists|i: int, j: int|
        0 <= i < v.len() && 0 <= j < v[i].controls.len() && control_places(
            #[trigger] v[i].controls[j],
            id,
        )
}

/// Whether a character is placed on the root timeline or in a sprite.
pub open spec fn is_placed(m: Movie, id: u32) -> bool {
    ||| frames_place(m.frames, id)
    ||| exists|k: int|
        0 <= k < m.characters.len() && slot_places(#[trigger] m.characters[k], id)
}

pub open spec fn slot_places(s: CharacterSlot, id: u32) -> bool {
    match s {
        CharacterSlot::Character(Character::Sprite(frames)) => frames_place(frames, id),
        _ => false,
    }
}

/// A texture with its identity and the character it becomes.
#[verifier::ext_equal]
pub struct Loaded {
    pub key: Seq<char>,
    pub id: u16,
    pub texture: Bitmap,
}

/// The textures a movie references. Each image becomes one character; a reference
/// is a shape and the bitmap its geometry names.
#[verifier::ext_equal]
pub struct Table {
    pub next_id: u16,
    pub loaded: Seq<Loaded>,
    pub refs: Seq<(u32, u32, u16)>,
}

/// The place of an image among those from the `k`-th on; their number where it is new.
pub open spec fn key_index(v: Seq<Loaded>, key: Seq<char>, k: int) -> int
    decreases v.len() - k,
{
    if k >= v.len() {
        v.len() as int
    } else if v[k].key == key {
        k
    } else {
        key_index(v, key, k + 1)
    }
}

/// The character that a reference among those from the `k`-th on stands for.
pub open spec fn ref_id(v: Seq<(u32, u32, u16)>, shape: u32, bitmap: u32, k: int) -> Option<u16>
    decreases v.len() - k,
{
    if k >= v.len() {
        None
    } else if v[k].0 == shape && v[k].1 == bitmap {
        Some(v[k].2)
    } else {
        ref_id(v, shape, bitmap, k + 1)
    }
}

impl Table {
    pub open spec fn new(next_id: u16) -> Table {
        Table { next_id, loaded: Seq::empty(), refs: Seq::empty() }
    }

    pub open spec fn character(self, shape: u32, bitmap: u32) -> Option<u16> {
        ref_id(self.refs, shape, bitmap, 0)
    }

    /// A reference to an image. A new image takes the next character.
    pub open spec fn enter(self, shape: u32, bitmap: u32, key: Seq<char>, texture: Bitmap) -> Table {
        let k = key_index(self.loaded, key, 0);
        if k < self.loaded.len() {
            Table { refs: self.refs.push((shape, bitmap, self.loaded[k].id)), ..self }
        } else {
            Table {
                next_id: (self.next_id + 1) as u16,
                loaded: self.loaded.push(Loaded { key, id: self.next_id, texture }),
                refs: self.refs.push((shape, bitmap, self.next_id)),
            }
        }
    }

    /// The character of an image.
    pub open spec fn id_of(self, key: Seq<char>) -> u16 {
        let k = key_index(self.loaded, key, 0);
        if k < self.loaded.len() {
            self.loaded[k].id
        } else {
            self.next_id
        }
    }
}

/// The textures that the first `n` units of a shape reference.
pub open spec fn collect<A: Assets>(
    t: Table,
    a: &A,
    shape: u32,
    units: Seq<Batch>,
    n: nat,
) -> Table
    decreases n,
{
    if n == 0 {
        t
    } else {
        let u = collect(t, a, shape, units, (n - 1) as nat);
        match units[n - 1].style {
            Look::Textured { bitmap_character_id: b, .. } => if u.character(shape, b) is Some {
                u
            } else {
                match a.pictured(shape, b) {
                    Some((key, texture)) => u.enter(shape, b, key, texture),
                    None => u,
                }
            },
            _ => u,
        }
    }
}

/// The color of a style.
pub open spec fn color_of(s: Look) -> u32 {
    match s {
        Look::Solid { color } => color,
        Look::Textured { color, .. } => color,
        Look::Line { color, .. } => color,
    }
}

/// The fill of a unit: its image where there is one, its color otherwise.
pub open spec fn fill_of(t: Table, shape: u32, u: Batch) -> Fill {
    match u.style {
        Look::Textured { bitmap_character_id, matrix, clipped, color } => match t.character(
            shape,
            bitmap_character_id,
        ) {
            Some(id) => Fill::Bitmap { id, uv: matrix, repeating: !clipped, instead: rgba(color) },
            None => Fill::Color(rgba(color)),
        },
        _ => Fill::Color(rgba(color_of(u.style))),
    }
}

/// The triangles of a unit.
pub open spec fn triangles(fill: u32, v: Seq<(F32Bits, F32Bits)>) -> Seq<Outline> {
    Seq::new(
        v.len() / 3,
        |t: int| Outline { fill, points: v.subrange(3 * t, 3 * t + 3) },
    )
}

/// The triangles of the first `n` units.
pub open spec fn outlines(units: Seq<Batch>, n: nat) -> Seq<Outline>
    decreases n,
{
    if n == 0 {
        Seq::empty()
    } else {
        outlines(units, (n - 1) as nat) + triangles(n as u32, units[n - 1].vertices)
    }
}

/// A filled shape from a triangle-list geometry.
pub open spec fn shape_tag(id: u16, units: Seq<Batch>, bounds: Rect, t: Table) -> ShapeTag {
    ShapeTag {
        id,
        bounds,
        fills: Seq::new(units.len(), |k: int| fill_of(t, id as u32, units[k])),
        outlines: outlines(units, units.len()),
    }
}

/// The geometry of a shape; nothing where none is supplied.
pub open spec fn units_of<A: Assets>(a: &A, shape: u32) -> Seq<Batch> {
    match a.drawn(shape) {
        Some(u) => u,
        None => Seq::empty(),
    }
}

/// Shapes, bitmaps placed on a timeline, and the textures they use.
#[verifier::ext_equal]
pub struct Drawn {
    pub table: Table,
    pub shapes: Seq<ShapeTag>,
    pub bitmaps: Seq<(u16, u16, u32, u32)>,
}

/// What one character adds to what is drawn.
pub open spec fn draw_one<A: Assets>(d: Drawn, m: Movie, a: &A, i: int) -> Drawn {
    match m.characters[i] {
        CharacterSlot::Character(Character::Shape(s)) => {
            let units = units_of(a, i as u32);
            let table = collect(d.table, a, i as u32, units, units.len());
            Drawn {
                table,
                shapes: d.shapes.push(shape_tag(i as u16, units, s.bounds, table)),
                ..d
            }
        },
        CharacterSlot::Character(Character::Bitmap) => if is_placed(m, i as u32) {
            match a.pictured(i as u32, i as u32) {
                Some((key, texture)) => Drawn {
                    table: d.table.enter(i as u32, i as u32, key, texture),
                    bitmaps: d.bitmaps.push(
                        (i as u16, d.table.id_of(key), texture.width, texture.height),
                    ),
                    ..d
                },
                None => d,
            }
        } else {
            d
        },
        _ => d,
    }
}

/// What the first `n` characters draw.
pub open spec fn drawn<A: Assets>(m: Movie, a: &A, n: nat) -> Drawn
    decreases n,
{
    if n == 0 {
        Drawn {
            table: Table::new(
                ((m.characters.len() as u16) + (buttons(m, m.characters.len()).len() as u16)) as u16,
            ),
            shapes: Seq::empty(),
            bitmaps: Seq::empty(),
        }
    } else {
        draw_one(drawn(m, a, (n - 1) as nat), m, a, n - 1)
    }
}

/// The buttons among the first `n` characters.
pub open spec fn buttons(m: Movie, n: nat) -> Seq<(u16, Button)>
    decreases n,
{
    if n == 0 {
        Seq::empty()
    } else {
        let before = buttons(m, (n - 1) as nat);
        match m.characters[n - 1] {
            CharacterSlot::Character(Character::Button(b)) => before.push(((n - 1) as u16, b)),
            _ => before,
        }
    }
}

/// The texts among the first `n` characters.
pub open spec fn edit_texts(m: Movie, n: nat) -> Seq<Definition>
    decreases n,
{
    if n == 0 {
        Seq::empty()
    } else {
        let before = edit_texts(m, (n - 1) as nat);
        match m.characters[n - 1] {
            CharacterSlot::Character(Character::Text(t)) => before.push(
                Definition::EditText(edit_text(m, (n - 1) as u16, t)),
            ),
            _ => before,
        }
    }
}

/// The fonts among the first `n` characters.
pub open spec fn device_fonts(m: Movie, n: nat) -> Seq<Definition>
    decreases n,
{
    if n == 0 {
        Seq::empty()
    } else {
        let before = device_fonts(m, (n - 1) as nat);
        match m.characters[n - 1] {
            CharacterSlot::Character(Character::Font(f)) => before.push(
                Definition::DeviceFont { id: (n - 1) as u16, name: f.name },
            ),
            _ => before,
        }
    }
}

/// Whether a character is a font.
pub open spec fn is_font(m: Movie, id: i32) -> bool {
    0 <= id < m.characters.len() && (m.characters[id as int] matches CharacterSlot::Character(
        Character::Font(_),
    ))
}

pub open spec fn unless_empty(s: Seq<char>) -> Option<Seq<char>> {
    if s.len() == 0 {
        None
    } else {
        Some(s)
    }
}

/// A dynamic text in a device font of its size.
pub open spec fn edit_text(m: Movie, id: u16, t: Text) -> EditTextTag {
    EditTextTag {
        id,
        bounds: t.bounds,
        font: if is_font(m, t.font_id) {
            Some((t.font_id as u16, t.font_height))
        } else {
            None
        },
        color: rgba(t.color),
        align: t.alignment,
        read_only: t.read_only,
        multiline: t.multiline,
        word_wrap: t.word_wrap,
        initial_text: unless_empty(t.initial_text),
        variable: unless_empty(t.variable),
    }
}

/// The blend mode of a placement, where SWF has it. Both 0 and 1 are the normal one.
pub open spec fn blend(v: Option<i32>) -> Option<u8> {
    match v {
        Some(b) => if b == 1 {
            Some(0)
        } else if 0 <= b <= 14 {
            Some(b as u8)
        } else {
            None
        },
        None => None,
    }
}

/// A handler of clip events. The trigger mask shares SWF's bit layout, of which SWF
/// knows the low 19 bits.
pub open spec fn handler(e: EventAction, t: Texts) -> ClipHandler {
    ClipHandler {
        events: (e.triggers as u32) % 0x8_0000,
        key_code: if e.key_code != 0 {
            Some(e.key_code as u8)
        } else {
            None
        },
        code: avm1::code(e.actions, t),
    }
}

pub open spec fn handlers(v: Seq<EventAction>, t: Texts) -> Seq<ClipHandler> {
    Seq::new(v.len(), |i: int| handler(v[i], t))
}

pub open spec fn place_action(p: PlaceObject) -> PlaceAction {
    let id = match p.character_id {
        Some(id) => id as u16,
        None => 0,
    };
    if p.is_move && p.character_id is None {
        PlaceAction::Modify
    } else if p.is_move {
        PlaceAction::Replace(id)
    } else {
        PlaceAction::Place(id)
    }
}

/// A placement.
pub open spec fn place(p: PlaceObject, t: Texts) -> Place {
    Place {
        version: if p.is_place_object_3() {
            3
        } else {
            2
        },
        action: place_action(p),
        depth: p.depth as u16,
        matrix: p.matrix,
        cxform: p.cxform,
        ratio: p.ratio,
        name: p.name,
        clip_actions: match p.clip_actions {
            Some(v) => Some(handlers(v, t)),
            None => None,
        },
        clip_depth: match p.clip_depth {
            Some(d) => Some(d as u16),
            None => None,
        },
        filters: p.filters,
        blend_mode: blend(p.blend_mode),
    }
}

/// The tags of a control. The background color stands before the timeline; sounds
/// have none.
pub open spec fn control_tags(c: Control, t: Texts) -> Seq<TimelineTag> {
    match c {
        Control::Action(s) => seq![TimelineTag::DoAction(avm1::code(s, t))],
        Control::InitAction { sprite_id, actions } => seq![
            TimelineTag::DoInitAction { id: sprite_id as u16, code: avm1::code(actions, t) },
        ],
        Control::PlaceObject(p) => seq![TimelineTag::Place(place(p, t))],
        Control::RemoveObject { depth } => seq![TimelineTag::RemoveObject { depth: depth as u16 }],
        Control::FrameLabel(s) => seq![TimelineTag::FrameLabel(s)],
        _ => Seq::empty(),
    }
}

/// The tags of the first `n` controls.
pub open spec fn controls_tags(v: Seq<Control>, t: Texts, n: nat) -> Seq<TimelineTag>
    decreases n,
{
    if n == 0 {
        Seq::empty()
    } else {
        controls_tags(v, t, (n - 1) as nat) + control_tags(v[n - 1], t)
    }
}

/// The tags of the first `n` frames.
pub open spec fn frames_tags(v: Seq<Frame>, t: Texts, n: nat) -> Seq<TimelineTag>
    decreases n,
{
    if n == 0 {
        Seq::empty()
    } else {
        (frames_tags(v, t, (n - 1) as nat) + controls_tags(
            v[n - 1].controls,
            t,
            v[n - 1].controls.len(),
        )).push(TimelineTag::ShowFrame)
    }
}

/// Why one of the first `n` handlers has no translation.
pub open spec fn handlers_err(v: Seq<EventAction>, t: Texts, n: nat) -> Option<Trouble>
    decreases n,
{
    if n == 0 {
        None
    } else {
        first_of(handlers_err(v, t, (n - 1) as nat), avm1::stream_err(v[n - 1].actions, t))
    }
}

pub open spec fn control_err(c: Control, t: Texts) -> Option<Trouble> {
    match c {
        Control::Action(s) => avm1::stream_err(s, t),
        Control::InitAction { actions, .. } => avm1::stream_err(actions, t),
        Control::PlaceObject(p) => match p.clip_actions {
            Some(v) => handlers_err(v, t, v.len()),
            None => None,
        },
        _ => None,
    }
}

/// Why one of the first `n` controls has no translation.
pub open spec fn controls_err(v: Seq<Control>, t: Texts, n: nat) -> Option<Trouble>
    decreases n,
{
    if n == 0 {
        None
    } else {
        first_of(controls_err(v, t, (n - 1) as nat), control_err(v[n - 1], t))
    }
}

/// Why one of the first `n` frames has no translation.
pub open spec fn frames_err(v: Seq<Frame>, t: Texts, n: nat) -> Option<Trouble>
    decreases n,
{
    if n == 0 {
        None
    } else {
        first_of(
            frames_err(v, t, (n - 1) as nat),
            controls_err(v[n - 1].controls, t, v[n - 1].controls.len()),
        )
    }
}

/// The sprites among the first `n` characters.
pub open spec fn sprites(m: Movie, t: Texts, n: nat) -> Seq<Definition>
    decreases n,
{
    if n == 0 {
        Seq::empty()
    } else {
        let before = sprites(m, t, (n - 1) as nat);
        match m.characters[n - 1] {
            CharacterSlot::Character(Character::Sprite(frames)) => before.push(
                Definition::Sprite {
                    id: (n - 1) as u16,
                    num_frames: frames.len() as u16,
                    tags: frames_tags(frames, t, frames.len()),
                },
            ),
            _ => before,
        }
    }
}

/// Why one of the sprites among the first `n` characters has no translation.
pub open spec fn sprites_err(m: Movie, t: Texts, n: nat) -> Option<Trouble>
    decreases n,
{
    if n == 0 {
        None
    } else {
        first_of(
            sprites_err(m, t, (n - 1) as nat),
            match m.characters[n - 1] {
                CharacterSlot::Character(Character::Sprite(frames)) => frames_err(
                    frames,
                    t,
                    frames.len(),
                ),
                _ => None,
            },
        )
    }
}

/// The states that a record of a button shows, without the hit-test state.
pub open spec fn shown_states(states: i32) -> u8 {
    (states as u8) & 7u8
}

/// The records among the first `n` that show something.
pub open spec fn shown_records(v: Seq<ButtonRecord>, n: nat) -> Seq<ButtonRecordTag>
    decreases n,
{
    if n == 0 {
        Seq::empty()
    } else {
        let before = shown_records(v, (n - 1) as nat);
        let r = v[n - 1];
        if shown_states(r.states) == 0 {
            before
        } else {
            before.push(
                ButtonRecordTag {
                    states: shown_states(r.states),
                    id: r.character_id as u16,
                    depth: r.layer as u16,
                    matrix: r.matrix,
                    cxform: r.cxform,
                },
            )
        }
    }
}

/// The matrix of the first hit-test record from the `i`-th on.
pub open spec fn hit_matrix(v: Seq<ButtonRecord>, i: int) -> Matrix
    decreases v.len() - i,
{
    if i >= v.len() {
        identity_matrix()
    } else if v[i].states & 8 != 0 {
        v[i].matrix
    } else {
        hit_matrix(v, i + 1)
    }
}

/// The color transform that changes nothing.
pub open spec fn plain_cxform() -> FloatCxForm {
    FloatCxForm {
        scale: seq![F32_ONE, F32_ONE, F32_ONE, F32_ONE],
        translate: seq![0u32, 0u32, 0u32, 0u32],
    }
}

/// The record of the hit-test state: the mesh of the button.
pub open spec fn hit_record(b: Button, hit_id: u16) -> ButtonRecordTag {
    ButtonRecordTag {
        states: 8,
        id: hit_id,
        depth: 1,
        matrix: hit_matrix(b.records, 0),
        cxform: plain_cxform(),
    }
}

pub open spec fn button_actions(v: Seq<ButtonAction>, t: Texts) -> Seq<ButtonActionTag> {
    Seq::new(
        v.len(),
        |i: int|
            ButtonActionTag {
                conditions: v[i].conditions as u16,
                code: avm1::code(v[i].actions, t),
            },
    )
}

/// A button; its hit-test state is the synthetic shape.
pub open spec fn button_tag(id: u16, b: Button, hit_id: u16, t: Texts) -> ButtonTag {
    ButtonTag {
        id,
        is_menu: b.is_menu,
        records: shown_records(b.records, b.records.len()).push(hit_record(b, hit_id)),
        actions: button_actions(b.actions, t),
    }
}

/// A vertex of a hit-test mesh; the origin where there is none.
pub open spec fn vertex(b: Button, i: i16) -> (F32Bits, F32Bits) {
    if 0 <= i < b.hit_test_vertices.len() {
        b.hit_test_vertices[i as int]
    } else {
        (0, 0)
    }
}

pub open spec fn hit_triangle(b: Button, k: int) -> Outline {
    let t = b.hit_test_triangles[k];
    Outline { fill: 1, points: seq![vertex(b, t[0]), vertex(b, t[1]), vertex(b, t[2])] }
}

/// The outlines of a button's hit area: its mesh, or its bounds where it has none.
pub open spec fn hit_outlines(b: Button) -> Seq<Outline> {
    if b.hit_test_triangles.len() == 0 {
        let r = b.hit_test_bounds;
        seq![
            Outline {
                fill: 1,
                points: seq![
                    (r.left, r.top),
                    (r.right, r.top),
                    (r.right, r.bottom),
                    (r.left, r.bottom),
                ],
            },
        ]
    } else {
        Seq::new(b.hit_test_triangles.len(), |k: int| hit_triangle(b, k))
    }
}

/// The hit area of a button as a shape. It is never shown, so its color is none.
pub open spec fn hit_shape(id: u16, b: Button) -> ShapeTag {
    ShapeTag {
        id,
        bounds: b.hit_test_bounds,
        fills: seq![Fill::Color(Rgba { r: 0, g: 0, b: 0, a: 0 })],
        outlines: hit_outlines(b),
    }
}

/// The hit area of the `k`-th button.
pub open spec fn hit_id(m: Movie, k: int) -> u16 {
    ((m.characters.len() as u16) + (k as u16)) as u16
}

/// The tags of the first `n` buttons.
pub open spec fn button_tags(m: Movie, v: Seq<(u16, Button)>, t: Texts, n: nat) -> Seq<Definition>
    decreases n,
{
    if n == 0 {
        Seq::empty()
    } else {
        let (id, b) = v[n - 1];
        let h = hit_id(m, n - 1);
        button_tags(m, v, t, (n - 1) as nat).push(Definition::Shape(hit_shape(h, b))).push(
            Definition::Button(button_tag(id, b, h, t)),
        )
    }
}

/// Why one of the first `n` actions of a button has no translation.
pub open spec fn conditions_err(v: Seq<ButtonAction>, t: Texts, n: nat) -> Option<Trouble>
    decreases n,
{
    if n == 0 {
        None
    } else {
        first_of(conditions_err(v, t, (n - 1) as nat), avm1::stream_err(v[n - 1].actions, t))
    }
}

/// Why one of the first `n` buttons has no translation.
pub open spec fn buttons_err(v: Seq<(u16, Button)>, t: Texts, n: nat) -> Option<Trouble>
    decreases n,
{
    if n == 0 {
        None
    } else {
        first_of(
            buttons_err(v, t, (n - 1) as nat),
            conditions_err(v[n - 1].1.actions, t, v[n - 1].1.actions.len()),
        )
    }
}

/// The first background color among the controls from the `j`-th on.
pub open spec fn controls_background(v: Seq<Control>, j: int) -> Option<u32>
    decreases v.len() - j,
{
    if j >= v.len() {
        None
    } else if v[j] is BackgroundColor {
        Some(v[j]->BackgroundColor_0)
    } else {
        controls_background(v, j + 1)
    }
}

/// The first background color among the frames from the `i`-th on.
pub open spec fn background(v: Seq<Frame>, i: int) -> Option<u32>
    decreases v.len() - i,
{
    if i >= v.len() {
        None
    } else if controls_background(v[i].controls, 0) is Some {
        controls_background(v[i].controls, 0)
    } else {
        background(v, i + 1)
    }
}

pub open spec fn background_tags(frames: Seq<Frame>, instead: Option<u32>) -> Seq<Definition> {
    match instead {
        Some(rgb) => seq![Definition::BackgroundColor(opaque(rgb))],
        None => match background(frames, 0) {
            Some(c) => seq![Definition::BackgroundColor(rgba(c))],
            None => Seq::empty(),
        },
    }
}

/// A channel multiplied by the alpha.
pub open spec fn multiplied(c: u8, a: u8) -> u8 {
    ((c * a + 127) / 255) as u8
}

/// RGBA pixels as ARGB with premultiplied alpha.
pub open spec fn premultiplied(s: Seq<u8>) -> Seq<u8> {
    Seq::new(
        s.len() / 4 * 4,
        |i: int|
            {
                let a = s[i / 4 * 4 + 3];
                if i % 4 == 0 {
                    a
                } else {
                    multiplied(s[i - 1], a)
                }
            },
    )
}

pub open spec fn bitmap_tag(l: Loaded) -> Definition {
    Definition::Bitmap {
        id: l.id,
        width: l.texture.width as u16,
        height: l.texture.height as u16,
        data: zlib::deflated(premultiplied(l.texture.rgba))->0,
        pixels: Some(premultiplied(l.texture.rgba)),
    }
}

/// Why textures cannot be embedded: the pixels of one cannot be compressed.
pub open spec fn bitmaps_err(t: Table) -> Option<Trouble> {
    if exists|i: int|
        0 <= i < t.loaded.len() && zlib::deflated(
            premultiplied((#[trigger] t.loaded[i]).texture.rgba),
        ) is None {
        Some(Trouble::Compression)
    } else {
        None
    }
}

pub open spec fn bitmap_tags(t: Table) -> Seq<Definition> {
    Seq::new(t.loaded.len(), |i: int| bitmap_tag(t.loaded[i]))
}

pub open spec fn shape_tags(v: Seq<ShapeTag>) -> Seq<Definition> {
    Seq::new(v.len(), |i: int| Definition::Shape(v[i]))
}

pub open spec fn whole_bitmaps(v: Seq<(u16, u16, u32, u32)>) -> Seq<Definition> {
    Seq::new(
        v.len(),
        |i: int|
            Definition::WholeBitmap {
                id: v[i].0,
                texture: v[i].1,
                width: v[i].2,
                height: v[i].3,
            },
    )
}

/// Frames per second in 1/256, from the milliseconds of a frame.
pub open spec fn frame_rate(ms: u32) -> i16 {
    if ms == 0 {
        7680
    } else if 256_000int / ms as int > i16::MAX {
        i16::MAX
    } else {
        (256_000int / ms as int) as i16
    }
}


/// The tags before the timeline.
pub open spec fn definitions<A: Assets>(
    m: Movie,
    a: &A,
    instead: Option<u32>,
    t: Texts,
) -> Seq<Definition> {
    let n = m.characters.len();
    let d = drawn(m, a, n);
    let b = buttons(m, n);
    import_tags(m.imports) + bitmap_tags(d.table) + shape_tags(d.shapes) + whole_bitmaps(d.bitmaps)
        + device_fonts(m, n) + edit_texts(m, n) + sprites(m, t, n) + button_tags(m, b, t, b.len())
        + export_tags(m.exports) + background_tags(m.frames, instead)
}

/// The SWF of a movie.
pub open spec fn swf<A: Assets>(f: AptFile, a: &A, instead: Option<u32>, t: Texts) -> SwfMovie {
    let m = f.movie;
    SwfMovie {
        version: if f.header.swf_version < 6 {
            6
        } else {
            f.header.swf_version
        },
        width: if m.width < 1 {
            1
        } else {
            m.width
        },
        height: if m.height < 1 {
            1
        } else {
            m.height
        },
        frame_rate: frame_rate(m.ms_per_frame),
        num_frames: m.frames.len() as u16,
        definitions: definitions(m, a, instead, t),
        timeline: frames_tags(m.frames, t, m.frames.len()),
    }
}

/// Why a movie has no SWF: buttons first, then sprites, the timeline and the textures.
pub open spec fn swf_err<A: Assets>(m: Movie, a: &A, t: Texts) -> Option<Trouble> {
    let n = m.characters.len();
    let b = buttons(m, n);
    first_of(
        buttons_err(b, t, b.len()),
        first_of(
            sprites_err(m, t, n),
            first_of(frames_err(m.frames, t, m.frames.len()), bitmaps_err(drawn(m, a, n).table)),
        ),
    )
}

/// The first character that an image can become: those of the movie and the hit areas
/// of its buttons come before.
pub open spec fn first_image(m: Movie) -> u16 {
    ((m.characters.len() as u16) + (buttons(m, m.characters.len()).len() as u16)) as u16
}

impl Table {
    /// Whether images have characters in a row from `first` on, as long as there are any,
    /// and each image stands in the table once.
    pub open spec fn in_order(self, first: u16) -> bool {
        &&& first + self.loaded.len() <= u16::MAX + 1 ==> (forall|i: int|
            0 <= i < self.loaded.len() ==> (#[trigger] self.loaded[i]).id == first + i)
        &&& first + self.loaded.len() <= u16::MAX ==> self.next_id == first + self.loaded.len()
        &&& forall|i: int, j: int|
            0 <= i < j < self.loaded.len() ==> (#[trigger] self.loaded[i]).key != (
            #[trigger] self.loaded[j]).key
    }
}

proof fn lemma_new_key(v: Seq<Loaded>, key: Seq<char>, k: int)
    requires
        0 <= k <= v.len(),
    ensures
        k <= key_index(v, key, k) <= v.len(),
        key_index(v, key, k) == v.len() ==> forall|i: int|
            k <= i < v.len() ==> (#[trigger] v[i]).key != key,
    decreases v.len() - k,
{
    if k < v.len() && v[k].key != key {
        lemma_new_key(v, key, k + 1);
    }
}

proof fn lemma_enter(t: Table, first: u16, shape: u32, bitmap: u32, key: Seq<char>, texture: Bitmap)
    requires
        t.in_order(first),
    ensures
        t.enter(shape, bitmap, key, texture).in_order(first),
{
    lemma_new_key(t.loaded, key, 0);
}

proof fn lemma_collect<A: Assets>(t: Table, first: u16, a: &A, shape: u32, units: Seq<Batch>, n: nat)
    requires
        t.in_order(first),
    ensures
        collect(t, a, shape, units, n).in_order(first),
    decreases n,
{
    if n > 0 {
        lemma_collect(t, first, a, shape, units, (n - 1) as nat);
        let u = collect(t, a, shape, units, (n - 1) as nat);
        match units[n - 1].style {
            Look::Textured { bitmap_character_id: b, .. } => match a.pictured(shape, b) {
                Some((key, texture)) => {
                    lemma_enter(u, first, shape, b, key, texture);
                },
                None => {},
            },
            _ => {},
        }
    }
}

/// The images of a movie become different characters, in a row behind those of the movie
/// and the hit areas of its buttons, as long as there are enough; each image is embedded
/// once.
pub proof fn law_image_characters<A: Assets>(m: Movie, a: &A, n: nat)
    requires
        n <= m.characters.len(),
    ensures
        drawn(m, a, n).table.in_order(first_image(m)),
    decreases n,
{
    if n > 0 {
        law_image_characters(m, a, (n - 1) as nat);
        let d = drawn(m, a, (n - 1) as nat);
        let i = n - 1;
        let first = first_image(m);
        match m.characters[i] {
            CharacterSlot::Character(Character::Shape(_)) => {
                let units = units_of(a, i as u32);
                lemma_collect(d.table, first, a, i as u32, units, units.len());
            },
            CharacterSlot::Character(Character::Bitmap) => match a.pictured(i as u32, i as u32) {
                Some((key, texture)) => {
                    lemma_enter(d.table, first, i as u32, i as u32, key, texture);
                },
                None => {},
            },
            _ => {},
        }
    }
}

} // verus!
