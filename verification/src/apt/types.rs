//! In-memory data model of an APT movie, independent of the on-disk layout
//! (pointer size / decoupled variant).
//!
//! Floating-point quantities are held as their IEEE 754 single-precision bit
//! patterns ([`F32Bits`]): the format only ever stores and moves them.
use super::actions::ActionStream;
use super::model;
use vstd::prelude::*;

verus! {

/// The bit pattern of a single-precision number.
pub type F32Bits = u32;

/// The bit pattern of `1.0`.
pub const F32_ONE: F32Bits = 0x3F80_0000;

/// Pointer size an `.apt`/`.const` pair was built for.
#[derive(Debug, Clone, Copy, PartialEq, Eq, Structural)]
pub enum PtrSize {
    Four,
    Eight,
}

impl PtrSize {
    /// The size in bytes.
    pub open spec fn width(self) -> nat {
        match self {
            PtrSize::Four => 4,
            PtrSize::Eight => 8,
        }
    }

    pub fn bytes(self) -> (n: usize)
        ensures
            n == self.width(),
    {
        match self {
            PtrSize::Four => 4,
            PtrSize::Eight => 8,
        }
    }

    pub fn digit(self) -> (c: char)
        ensures
            c == match self {
                PtrSize::Four => '4',
                PtrSize::Eight => '8',
            },
    {
        match self {
            PtrSize::Four => '4',
            PtrSize::Eight => '8',
        }
    }
}

/// Info from the 16-byte `"Apt Data:<decoupled>:<swfver>:<ptrsize>"` tag.
///
/// Classic (Zero Hour / BFME era) files carry a short tag (`"Apt Data:6\x1a"`);
/// missing fields default to non-decoupled, SWF 6, 4-byte pointers.
#[derive(Debug, Clone, Copy, PartialEq, Eq)]
pub struct Header {
    pub decoupled: bool,
    pub swf_version: u8,
    pub ptr_size: PtrSize,
    /// Raw first 16 bytes of the file, kept for diagnostics / faithful re-emit.
    pub raw_tag: [u8; 16],
}

impl View for Header {
    type V = model::Header;

    open spec fn view(&self) -> model::Header {
        model::Header {
            decoupled: self.decoupled,
            swf_version: self.swf_version,
            ptr_size: self.ptr_size,
            raw_tag: self.raw_tag@,
        }
    }
}

pub const PARENT_ANIM_MAGIC: u32 = 0x0987_6543;
pub const FUNC_POOL_ITEMS_MAGIC: u32 = 0x9876_5432;
pub const FUNC_POOL_ARRAY_MAGIC: u32 = 0x1234_5678;

/// 2D axis-aligned rectangle (pixels).
#[derive(Debug, Clone, Copy, PartialEq, Eq, Structural)]
pub struct Rect {
    pub left: F32Bits,
    pub top: F32Bits,
    pub right: F32Bits,
    pub bottom: F32Bits,
}

impl Default for Rect {
    fn default() -> (r: Rect)
        ensures
            r == (Rect { left: 0, top: 0, right: 0, bottom: 0 }),
    {
        Rect { left: 0, top: 0, right: 0, bottom: 0 }
    }
}

/// 2x3 affine transform: `[a b; c d]` + translation `(tx, ty)`.
#[derive(Debug, Clone, Copy, PartialEq, Eq, Structural)]
pub struct Matrix {
    pub a: F32Bits,
    pub b: F32Bits,
    pub c: F32Bits,
    pub d: F32Bits,
    pub tx: F32Bits,
    pub ty: F32Bits,
}

/// The identity transform.
pub open spec fn identity_matrix() -> Matrix {
    Matrix { a: F32_ONE, b: 0, c: 0, d: F32_ONE, tx: 0, ty: 0 }
}

impl Default for Matrix {
    fn default() -> (r: Matrix)
        ensures
            r == identity_matrix(),
    {
        Matrix { a: F32_ONE, b: 0, c: 0, d: F32_ONE, tx: 0, ty: 0 }
    }
}

/// Color transform as float arrays: per-channel scale and translate (ARGB order).
#[derive(Debug, Clone, Copy, PartialEq, Eq)]
pub struct FloatCxForm {
    pub scale: [F32Bits; 4],
    pub translate: [F32Bits; 4],
}

impl View for FloatCxForm {
    type V = model::FloatCxForm;

    open spec fn view(&self) -> model::FloatCxForm {
        model::FloatCxForm { scale: self.scale@, translate: self.translate@ }
    }
}

impl Default for FloatCxForm {
    fn default() -> (r: FloatCxForm)
        ensures
            r.scale@ == seq![F32_ONE, F32_ONE, F32_ONE, F32_ONE],
            r.translate@ == seq![0u32, 0u32, 0u32, 0u32],
    {
        FloatCxForm {
            scale: [F32_ONE, F32_ONE, F32_ONE, F32_ONE],
            translate: [0, 0, 0, 0],
        }
    }
}

/// Color transform packed as two u32s, one byte per ARGB channel.
/// Scale bytes map `byte/254` to a multiplier; bias bytes are additive 0-255.
#[derive(Debug, Clone, Copy, PartialEq, Eq, Structural)]
pub struct PackedCxForm {
    pub scale: u32,
    pub bias: u32,
}

/// The transform that leaves colors alone.
pub open spec fn identity_cxform() -> PackedCxForm {
    PackedCxForm { scale: 0xFEFE_FEFE, bias: 0 }
}

impl Default for PackedCxForm {
    fn default() -> (r: PackedCxForm)
        ensures
            r == identity_cxform(),
    {
        PackedCxForm { scale: 0xFEFE_FEFE, bias: 0 }
    }
}

/// A constant value as stored in the `.const` table / pushed by actions.
#[derive(Debug, Clone, PartialEq, Eq)]
pub enum Value {
    Undefined,
    String(String),
    Register(i32),
    Boolean(bool),
    Float(F32Bits),
    Integer(i32),
    /// Index into the currently active runtime constant pool (DefineDictionary).
    Lookup(u32),
}

impl View for Value {
    type V = model::Value;

    open spec fn view(&self) -> model::Value {
        match self {
            Value::Undefined => model::Value::Undefined,
            Value::String(s) => model::Value::String(s@),
            Value::Register(v) => model::Value::Register(*v),
            Value::Boolean(v) => model::Value::Boolean(*v),
            Value::Float(v) => model::Value::Float(*v),
            Value::Integer(v) => model::Value::Integer(*v),
            Value::Lookup(v) => model::Value::Lookup(*v),
        }
    }
}

impl Value {
    /// An equal value of its own.
    pub fn duplicate(&self) -> (r: Value)
        ensures
            r@ == self@,
    {
        match self {
            Value::Undefined => Value::Undefined,
            Value::String(s) => Value::String(s.clone()),
            Value::Register(v) => Value::Register(*v),
            Value::Boolean(v) => Value::Boolean(*v),
            Value::Float(v) => Value::Float(*v),
            Value::Integer(v) => Value::Integer(*v),
            Value::Lookup(v) => Value::Lookup(*v),
        }
    }
}

/// The root Animation character: the movie itself.
#[derive(Debug, PartialEq)]
pub struct Movie {
    pub frames: Vec<Frame>,
    /// One slot per character ID. Index 0 is the root itself (`CharacterSlot::Root`).
    pub characters: Vec<CharacterSlot>,
    pub width: u32,
    pub height: u32,
    pub ms_per_frame: u32,
    pub imports: Vec<Import>,
    pub exports: Vec<Export>,
}

impl View for Movie {
    type V = model::Movie;

    open spec fn view(&self) -> model::Movie {
        model::Movie {
            frames: model::views(self.frames@),
            characters: model::views(self.characters@),
            width: self.width,
            height: self.height,
            ms_per_frame: self.ms_per_frame,
            imports: model::views(self.imports@),
            exports: model::views(self.exports@),
        }
    }
}

#[derive(Debug, PartialEq)]
pub enum CharacterSlot {
    /// Slot 0: the root animation itself.
    Root,
    /// Empty slot — filled at runtime by an import, or simply unused.
    Empty,
    Character(Character),
}

impl View for CharacterSlot {
    type V = model::CharacterSlot;

    open spec fn view(&self) -> model::CharacterSlot {
        match self {
            CharacterSlot::Root => model::CharacterSlot::Root,
            CharacterSlot::Empty => model::CharacterSlot::Empty,
            CharacterSlot::Character(c) => model::CharacterSlot::Character(c@),
        }
    }
}

impl CharacterSlot {
    pub fn as_character(&self) -> (r: Option<&Character>)
        ensures
            r == match *self {
                CharacterSlot::Character(c) => Some(&c),
                _ => None,
            },
    {
        match self {
            CharacterSlot::Character(c) => Some(c),
            _ => None,
        }
    }
}

#[derive(Debug, Clone, PartialEq, Eq)]
pub struct Import {
    /// Base name of the movie to import from.
    pub movie: String,
    /// Export name inside that movie.
    pub name: String,
    /// Character ID this import occupies.
    pub character_id: u32,
}

impl View for Import {
    type V = model::Import;

    open spec fn view(&self) -> model::Import {
        model::Import { movie: self.movie@, name: self.name@, character_id: self.character_id }
    }
}

#[derive(Debug, Clone, PartialEq, Eq)]
pub struct Export {
    pub name: String,
    /// Exported character ID.
    pub character_id: u32,
}

impl View for Export {
    type V = model::Export;

    open spec fn view(&self) -> model::Export {
        model::Export { name: self.name@, character_id: self.character_id }
    }
}

#[derive(Debug, PartialEq)]
pub enum Character {
    Shape(Shape),
    /// EditText.
    Text(Text),
    Font(Font),
    Button(Button),
    Sprite(Sprite),
    Sound,
    Bitmap,
    Morph(Morph),
    StaticText(StaticText),
    /// "Might be a packed texture"; carries no payload.
    Nothing,
    /// Ignored by the engine; no payload.
    Video,
}

impl View for Character {
    type V = model::Character;

    open spec fn view(&self) -> model::Character {
        match self {
            Character::Shape(s) => model::Character::Shape(*s),
            Character::Text(t) => model::Character::Text(t@),
            Character::Font(f) => model::Character::Font(f@),
            Character::Button(b) => model::Character::Button(b@),
            Character::Sprite(s) => model::Character::Sprite(model::views(s.frames@)),
            Character::Sound => model::Character::Sound,
            Character::Bitmap => model::Character::Bitmap,
            Character::Morph(m) => model::Character::Morph(*m),
            Character::StaticText(t) => model::Character::StaticText(t@),
            Character::Nothing => model::Character::Nothing,
            Character::Video => model::Character::Video,
        }
    }
}

impl Character {
    pub fn type_id(&self) -> (t: i32)
        ensures
            t == self@.type_id(),
    {
        match self {
            Character::Shape(_) => 1,
            Character::Text(_) => 2,
            Character::Font(_) => 3,
            Character::Button(_) => 4,
            Character::Sprite(_) => 5,
            Character::Sound => 6,
            Character::Bitmap => 7,
            Character::Morph(_) => 8,
            Character::StaticText(_) => 10,
            Character::Nothing => 11,
            Character::Video => 12,
        }
    }

    pub fn kind_name(&self) -> (n: &'static str)
        ensures
            n@ == self@.kind_name(),
    {
        match self {
            Character::Shape(_) => "Shape",
            Character::Text(_) => "Text",
            Character::Font(_) => "Font",
            Character::Button(_) => "Button",
            Character::Sprite(_) => "Sprite",
            Character::Sound => "Sound",
            Character::Bitmap => "Bitmap",
            Character::Morph(_) => "Morph",
            Character::StaticText(_) => "StaticText",
            Character::Nothing => "None",
            Character::Video => "Video",
        }
    }
}

#[derive(Debug, Clone, Copy, PartialEq, Eq, Structural)]
pub struct Shape {
    pub bounds: Rect,
    /// Decoupled files only: the bitmap character ID backing this shape
    /// (0 / `None` = untextured). Ignored when writing non-decoupled files.
    pub bitmap_character_id: Option<u16>,
}

#[derive(Debug, Clone, Copy, PartialEq, Eq, Structural)]
pub enum TextAlignment {
    Left,
    Right,
    Center,
    Unset,
    Justify,
}

impl TextAlignment {
    /// The number that stands for the alignment in a file.
    pub open spec fn code(self) -> i32 {
        match self {
            TextAlignment::Left => 0,
            TextAlignment::Right => 1,
            TextAlignment::Center => 2,
            TextAlignment::Unset => 3,
            TextAlignment::Justify => 4,
        }
    }

    /// The alignment that a number in a file stands for.
    pub open spec fn of_code(v: i32) -> TextAlignment {
        if v == 0 {
            TextAlignment::Left
        } else if v == 1 {
            TextAlignment::Right
        } else if v == 2 {
            TextAlignment::Center
        } else if v == 4 {
            TextAlignment::Justify
        } else {
            TextAlignment::Unset
        }
    }

    pub fn from_i32(v: i32) -> (a: TextAlignment)
        ensures
            a == TextAlignment::of_code(v),
    {
        match v {
            0 => TextAlignment::Left,
            1 => TextAlignment::Right,
            2 => TextAlignment::Center,
            4 => TextAlignment::Justify,
            _ => TextAlignment::Unset,
        }
    }

    pub fn to_i32(self) -> (v: i32)
        ensures
            v == self.code(),
    {
        match self {
            TextAlignment::Left => 0,
            TextAlignment::Right => 1,
            TextAlignment::Center => 2,
            TextAlignment::Unset => 3,
            TextAlignment::Justify => 4,
        }
    }
}

/// EditText character.
#[derive(Debug, Clone, PartialEq, Eq)]
pub struct Text {
    pub bounds: Rect,
    /// Character ID of the Font.
    pub font_id: i32,
    pub alignment: TextAlignment,
    /// RGBA color, packed u32.
    pub color: u32,
    pub font_height: F32Bits,
    pub read_only: bool,
    pub multiline: bool,
    pub word_wrap: bool,
    pub initial_text: String,
    /// Bound ActionScript variable path.
    pub variable: String,
}

impl View for Text {
    type V = model::Text;

    open spec fn view(&self) -> model::Text {
        model::Text {
            bounds: self.bounds,
            font_id: self.font_id,
            alignment: self.alignment,
            color: self.color,
            font_height: self.font_height,
            read_only: self.read_only,
            multiline: self.multiline,
            word_wrap: self.word_wrap,
            initial_text: self.initial_text@,
            variable: self.variable@,
        }
    }
}

#[derive(Debug, Clone, PartialEq, Eq)]
pub struct Font {
    pub name: String,
    /// Character indices of the glyph Shape characters.
    pub glyphs: Vec<u32>,
}

impl View for Font {
    type V = model::Font;

    open spec fn view(&self) -> model::Font {
        model::Font { name: self.name@, glyphs: self.glyphs@ }
    }
}

#[derive(Debug, PartialEq)]
pub struct Button {
    pub is_menu: bool,
    pub hit_test_bounds: Rect,
    /// Hit-test mesh: vertex (x, y) pairs and triangle index triples.
    pub hit_test_vertices: Vec<(F32Bits, F32Bits)>,
    pub hit_test_triangles: Vec<[i16; 3]>,
    pub records: Vec<ButtonRecord>,
    pub actions: Vec<ButtonAction>,
    pub sounds: Option<ButtonSounds>,
}

impl View for Button {
    type V = model::Button;

    open spec fn view(&self) -> model::Button {
        model::Button {
            is_menu: self.is_menu,
            hit_test_bounds: self.hit_test_bounds,
            hit_test_vertices: self.hit_test_vertices@,
            hit_test_triangles: model::views(self.hit_test_triangles@),
            records: model::views(self.records@),
            actions: model::views(self.actions@),
            sounds: self.sounds,
        }
    }
}

/// Bit flags for `ButtonRecord::states`: Up=1, Over=2, Down=4, HitTest=8.
#[derive(Debug, Clone, Copy, PartialEq, Eq)]
pub struct ButtonRecord {
    pub states: i32,
    /// Character index displayed for these states.
    pub character_id: u32,
    pub layer: i32,
    pub matrix: Matrix,
    pub cxform: FloatCxForm,
}

impl View for ButtonRecord {
    type V = model::ButtonRecord;

    open spec fn view(&self) -> model::ButtonRecord {
        model::ButtonRecord {
            states: self.states,
            character_id: self.character_id,
            layer: self.layer,
            matrix: self.matrix,
            cxform: self.cxform@,
        }
    }
}

/// `conditions` is an `AptActionConditionFlag` mask; the key code lives in
/// bits 9-15 (mask 0xFE00).
#[derive(Debug, PartialEq)]
pub struct ButtonAction {
    pub conditions: i32,
    pub actions: ActionStream,
}

impl View for ButtonAction {
    type V = model::ButtonAction;

    open spec fn view(&self) -> model::ButtonAction {
        model::ButtonAction { conditions: self.conditions, actions: self.actions@ }
    }
}

/// Character indices of transition sounds; 0 = none.
#[derive(Debug, Clone, Copy, PartialEq, Eq, Structural)]
pub struct ButtonSounds {
    pub over_up_to_idle: u32,
    pub idle_to_over_up: u32,
    pub over_up_to_over_down: u32,
    pub over_down_to_over_up: u32,
}

#[derive(Debug, PartialEq)]
pub struct Sprite {
    pub frames: Vec<Frame>,
}

#[derive(Debug, Clone, Copy, PartialEq, Eq, Structural)]
pub struct Morph {
    pub start_character_id: u32,
    pub end_character_id: u32,
}

#[derive(Debug, Clone, PartialEq, Eq)]
pub struct StaticText {
    pub bounds: Rect,
    pub matrix: Matrix,
    pub records: Vec<StaticTextRecord>,
}

impl View for StaticText {
    type V = model::StaticText;

    open spec fn view(&self) -> model::StaticText {
        model::StaticText {
            bounds: self.bounds,
            matrix: self.matrix,
            records: model::views(self.records@),
        }
    }
}

#[derive(Debug, Clone, PartialEq, Eq)]
pub struct StaticTextRecord {
    pub font_id: i32,
    pub cxform: FloatCxForm,
    pub x_offset: F32Bits,
    pub y_offset: F32Bits,
    pub scale: F32Bits,
    pub glyphs: Vec<GlyphEntry>,
}

impl View for StaticTextRecord {
    type V = model::StaticTextRecord;

    open spec fn view(&self) -> model::StaticTextRecord {
        model::StaticTextRecord {
            font_id: self.font_id,
            cxform: self.cxform@,
            x_offset: self.x_offset,
            y_offset: self.y_offset,
            scale: self.scale,
            glyphs: self.glyphs@,
        }
    }
}

/// `index` indexes the font's glyph array; `advance` moves the pen.
#[derive(Debug, Clone, Copy, PartialEq, Eq, Structural)]
pub struct GlyphEntry {
    pub index: i16,
    pub advance: i16,
}

#[derive(Debug, PartialEq)]
pub struct Frame {
    pub controls: Vec<Control>,
}

impl View for Frame {
    type V = model::Frame;

    open spec fn view(&self) -> model::Frame {
        model::Frame { controls: model::views(self.controls@) }
    }
}

impl Default for Frame {
    fn default() -> (f: Frame)
        ensures
            f.controls@ == Seq::<Control>::empty(),
    {
        Frame { controls: Vec::new() }
    }
}

#[derive(Debug, PartialEq)]
pub enum Control {
    Action(ActionStream),
    FrameLabel(String),
    PlaceObject(PlaceObject),
    RemoveObject { depth: i32 },
    BackgroundColor(u32),
    StartSound { sound_id: i32 },
    StartSoundStream { sound_id: i32 },
    InitAction { sprite_id: i32, actions: ActionStream },
}

impl View for Control {
    type V = model::Control;

    open spec fn view(&self) -> model::Control {
        match self {
            Control::Action(s) => model::Control::Action(s@),
            Control::FrameLabel(s) => model::Control::FrameLabel(s@),
            Control::PlaceObject(p) => model::Control::PlaceObject(p@),
            Control::RemoveObject { depth } => model::Control::RemoveObject { depth: *depth },
            Control::BackgroundColor(c) => model::Control::BackgroundColor(*c),
            Control::StartSound { sound_id } => model::Control::StartSound { sound_id: *sound_id },
            Control::StartSoundStream { sound_id } => model::Control::StartSoundStream {
                sound_id: *sound_id,
            },
            Control::InitAction { sprite_id, actions } => model::Control::InitAction {
                sprite_id: *sprite_id,
                actions: actions@,
            },
        }
    }
}

impl Control {
    pub fn type_id(&self) -> (t: i32)
        ensures
            t == self@.type_id(),
    {
        match self {
            Control::Action(_) => 1,
            Control::FrameLabel(_) => 2,
            Control::PlaceObject(p) => if p.is_place_object_3() {
                9
            } else {
                3
            },
            Control::RemoveObject { .. } => 4,
            Control::BackgroundColor(_) => 5,
            Control::StartSound { .. } => 6,
            Control::StartSoundStream { .. } => 7,
            Control::InitAction { .. } => 8,
        }
    }
}

/// PlaceObject2 / PlaceObject3. Serialized as PlaceObject3 iff `blend_mode`
/// or `filters` is set.
#[derive(Debug, PartialEq)]
pub struct PlaceObject {
    /// `Move` flag: modify the object at `depth` instead of placing a new one.
    pub is_move: bool,
    pub depth: i32,
    pub character_id: Option<i32>,
    pub matrix: Option<Matrix>,
    pub cxform: Option<PackedCxForm>,
    /// Morph ratio.
    pub ratio: Option<F32Bits>,
    pub name: Option<String>,
    pub clip_depth: Option<i32>,
    pub clip_actions: Option<Vec<EventAction>>,
    /// PlaceObject3 only; -1 = unset in the file.
    pub blend_mode: Option<i32>,
    /// PlaceObject3 only.
    pub filters: Vec<Filter>,
}

impl View for PlaceObject {
    type V = model::PlaceObject;

    open spec fn view(&self) -> model::PlaceObject {
        model::PlaceObject {
            is_move: self.is_move,
            depth: self.depth,
            character_id: self.character_id,
            matrix: self.matrix,
            cxform: self.cxform,
            ratio: self.ratio,
            name: match self.name {
                Some(n) => Some(n@),
                None => None,
            },
            clip_depth: self.clip_depth,
            clip_actions: match self.clip_actions {
                Some(a) => Some(model::views(a@)),
                None => None,
            },
            blend_mode: self.blend_mode,
            filters: model::views(self.filters@),
        }
    }
}

impl PlaceObject {
    pub fn is_place_object_3(&self) -> (b: bool)
        ensures
            b == self@.is_place_object_3(),
    {
        self.blend_mode.is_some() || self.filters.len() > 0
    }
}

impl Default for PlaceObject {
    fn default() -> (p: PlaceObject)
        ensures
            p@ == model::PlaceObject::nothing(),
    {
        let p = PlaceObject {
            is_move: false,
            depth: 0,
            character_id: None,
            matrix: None,
            cxform: None,
            ratio: None,
            name: None,
            clip_depth: None,
            clip_actions: None,
            blend_mode: None,
            filters: Vec::new(),
        };
        assert(p@.filters =~= Seq::<model::Filter>::empty());
        p
    }
}

/// `triggers` is an `AptEventActionFlag` mask (OnLoad=1, EnterFrame=2, ...,
/// KeyPress=0x20000, Construct=0x40000, Wheel=0x80000).
#[derive(Debug, PartialEq)]
pub struct EventAction {
    pub triggers: i32,
    pub key_code: i32,
    pub actions: ActionStream,
}

impl View for EventAction {
    type V = model::EventAction;

    open spec fn view(&self) -> model::EventAction {
        model::EventAction {
            triggers: self.triggers,
            key_code: self.key_code,
            actions: self.actions@,
        }
    }
}

#[derive(Debug, Clone, PartialEq, Eq)]
pub enum Filter {
    DropShadow {
        color: u32,
        blur_x: u32,
        blur_y: u32,
        angle: u32,
        distance: u32,
        strength: u16,
        flags: u16,
    },
    Blur { blur_x: u32, blur_y: u32, flags: u16 },
    Glow { color: u32, blur_x: u32, blur_y: u32, strength: u16, flags: u16 },
    Bevel {
        highlight_color: u32,
        shadow_color: u32,
        blur_x: u32,
        blur_y: u32,
        angle: u32,
        distance: u32,
        strength: u16,
        flags: u16,
    },
    /// id 4 (glow) and 7 (bevel) share this struct.
    GradientGlow {
        is_bevel: bool,
        colors: Vec<u32>,
        ratios: Vec<u8>,
        blur_x: u32,
        blur_y: u32,
        angle: u32,
        distance: u32,
        strength: u16,
        flags: u16,
    },
    ColorMatrix { values: [F32Bits; 20] },
}

impl View for Filter {
    type V = model::Filter;

    open spec fn view(&self) -> model::Filter {
        match self {
            Filter::DropShadow { color, blur_x, blur_y, angle, distance, strength, flags } => {
                model::Filter::DropShadow {
                    color: *color,
                    blur_x: *blur_x,
                    blur_y: *blur_y,
                    angle: *angle,
                    distance: *distance,
                    strength: *strength,
                    flags: *flags,
                }
            },
            Filter::Blur { blur_x, blur_y, flags } => {
                model::Filter::Blur { blur_x: *blur_x, blur_y: *blur_y, flags: *flags }
            },
            Filter::Glow { color, blur_x, blur_y, strength, flags } => {
                model::Filter::Glow {
                    color: *color,
                    blur_x: *blur_x,
                    blur_y: *blur_y,
                    strength: *strength,
                    flags: *flags,
                }
            },
            Filter::Bevel {
                highlight_color,
                shadow_color,
                blur_x,
                blur_y,
                angle,
                distance,
                strength,
                flags,
            } => {
                model::Filter::Bevel {
                    highlight_color: *highlight_color,
                    shadow_color: *shadow_color,
                    blur_x: *blur_x,
                    blur_y: *blur_y,
                    angle: *angle,
                    distance: *distance,
                    strength: *strength,
                    flags: *flags,
                }
            },
            Filter::GradientGlow {
                is_bevel,
                colors,
                ratios,
                blur_x,
                blur_y,
                angle,
                distance,
                strength,
                flags,
            } => {
                model::Filter::GradientGlow {
                    is_bevel: *is_bevel,
                    colors: colors@,
                    ratios: ratios@,
                    blur_x: *blur_x,
                    blur_y: *blur_y,
                    angle: *angle,
                    distance: *distance,
                    strength: *strength,
                    flags: *flags,
                }
            },
            Filter::ColorMatrix { values } => model::Filter::ColorMatrix { values: values@ },
        }
    }
}

impl Filter {
    /// An equal filter of its own.
    pub fn duplicate(&self) -> (r: Filter)
        ensures
            r@ == self@,
    {
        match self {
            Filter::DropShadow { color, blur_x, blur_y, angle, distance, strength, flags } => {
                Filter::DropShadow {
                    color: *color,
                    blur_x: *blur_x,
                    blur_y: *blur_y,
                    angle: *angle,
                    distance: *distance,
                    strength: *strength,
                    flags: *flags,
                }
            },
            Filter::Blur { blur_x, blur_y, flags } => {
                Filter::Blur { blur_x: *blur_x, blur_y: *blur_y, flags: *flags }
            },
            Filter::Glow { color, blur_x, blur_y, strength, flags } => {
                Filter::Glow {
                    color: *color,
                    blur_x: *blur_x,
                    blur_y: *blur_y,
                    strength: *strength,
                    flags: *flags,
                }
            },
            Filter::Bevel {
                highlight_color,
                shadow_color,
                blur_x,
                blur_y,
                angle,
                distance,
                strength,
                flags,
            } => {
                Filter::Bevel {
                    highlight_color: *highlight_color,
                    shadow_color: *shadow_color,
                    blur_x: *blur_x,
                    blur_y: *blur_y,
                    angle: *angle,
                    distance: *distance,
                    strength: *strength,
                    flags: *flags,
                }
            },
            Filter::GradientGlow {
                is_bevel,
                colors,
                ratios,
                blur_x,
                blur_y,
                angle,
                distance,
                strength,
                flags,
            } => {
                let c = colors.clone();
                let r = ratios.clone();
                assert(c@ =~= colors@);
                assert(r@ =~= ratios@);
                Filter::GradientGlow {
                    is_bevel: *is_bevel,
                    colors: c,
                    ratios: r,
                    blur_x: *blur_x,
                    blur_y: *blur_y,
                    angle: *angle,
                    distance: *distance,
                    strength: *strength,
                    flags: *flags,
                }
            },
            Filter::ColorMatrix { values } => Filter::ColorMatrix { values: *values },
        }
    }

    pub fn filter_id(&self) -> (id: u32)
        ensures
            id == self@.filter_id(),
    {
        match self {
            Filter::DropShadow { .. } => 0,
            Filter::Blur { .. } => 1,
            Filter::Glow { .. } => 2,
            Filter::Bevel { .. } => 3,
            Filter::GradientGlow { is_bevel, .. } => if *is_bevel {
                7
            } else {
                4
            },
            Filter::ColorMatrix { .. } => 6,
        }
    }
}

} // verus!
