//! The mathematical counterparts of the data model: the same shapes with
//! sequences in place of vectors, arrays and strings. Contracts speak of these.
use super::types::{
    ButtonSounds, F32Bits, GlyphEntry, Matrix, Morph, PackedCxForm, PtrSize, Rect, Shape,
    TextAlignment,
};
use vstd::prelude::*;

verus! {

/// The counterparts of a sequence of values.
pub open spec fn views<T: View>(s: Seq<T>) -> Seq<T::V> {
    Seq::new(s.len(), |i: int| s[i]@)
}

pub broadcast proof fn lemma_views_push<T: View>(s: Seq<T>, x: T)
    ensures
        #[trigger] views(s.push(x)) == views(s).push(x@),
{
    assert(views(s.push(x)) =~= views(s).push(x@));
}

pub proof fn lemma_views_empty<T: View>()
    ensures
        views(Seq::<T>::empty()) == Seq::<T::V>::empty(),
{
    assert(views(Seq::<T>::empty()) =~= Seq::<T::V>::empty());
}

/// The counterparts of a list of names.
pub open spec fn names(s: Seq<String>) -> Seq<Seq<char>> {
    Seq::new(s.len(), |i: int| s[i]@)
}

/// The counterparts of a list of register parameters.
pub open spec fn reg_names(s: Seq<(u32, String)>) -> Seq<(u32, Seq<char>)> {
    Seq::new(s.len(), |i: int| (s[i].0, s[i].1@))
}

/// What can be wrong with a file being read or a movie being written.
pub enum Error {
    BadAptTag,
    BadConstMagic,
    BadPtrSize(char),
    OutOfBounds { offset: u64, need: u64, len: u64 },
    UnterminatedString(u64),
    InvalidCharacterType(i32),
    InvalidControlType(i32),
    InvalidFilterId(u32),
    InvalidOpcode { opcode: u8, offset: u64 },
    BadBranchTarget { target: u64, stream: u64 },
    BadConstantIndex { index: u64, count: u64 },
    InvalidConstantType(i32),
    RootNotAnimation(i32),
    NonLatin1String(Seq<char>),
    BranchIndexOutOfRange { index: usize, count: usize },
    GradientLengthMismatch,
}

/// The first of two errors.
pub open spec fn or_else(a: Option<Error>, b: Option<Error>) -> Option<Error> {
    if a is Some {
        a
    } else {
        b
    }
}

#[verifier::ext_equal]
pub struct Header {
    pub decoupled: bool,
    pub swf_version: u8,
    pub ptr_size: PtrSize,
    pub raw_tag: Seq<u8>,
}

#[verifier::ext_equal]
pub struct FloatCxForm {
    pub scale: Seq<F32Bits>,
    pub translate: Seq<F32Bits>,
}

#[verifier::ext_equal]
pub enum Value {
    Undefined,
    String(Seq<char>),
    Register(i32),
    Boolean(bool),
    Float(F32Bits),
    Integer(i32),
    Lookup(u32),
}

#[verifier::ext_equal]
pub struct Movie {
    pub frames: Seq<Frame>,
    pub characters: Seq<CharacterSlot>,
    pub width: u32,
    pub height: u32,
    pub ms_per_frame: u32,
    pub imports: Seq<Import>,
    pub exports: Seq<Export>,
}

#[verifier::ext_equal]
pub enum CharacterSlot {
    Root,
    Empty,
    Character(Character),
}

#[verifier::ext_equal]
pub struct Import {
    pub movie: Seq<char>,
    pub name: Seq<char>,
    pub character_id: u32,
}

#[verifier::ext_equal]
pub struct Export {
    pub name: Seq<char>,
    pub character_id: u32,
}

#[verifier::ext_equal]
pub enum Character {
    Shape(Shape),
    Text(Text),
    Font(Font),
    Button(Button),
    Sprite(Seq<Frame>),
    Sound,
    Bitmap,
    Morph(Morph),
    StaticText(StaticText),
    Nothing,
    Video,
}

impl Character {
    /// The number that stands for the kind of character in a file.
    pub open spec fn type_id(self) -> i32 {
        match self {
            Character::Shape(_) => 1,
            Character::Text(_) => 2,
            Character::Font(_) => 3,
            Character::Button(_) => 4,
            Character::Sprite(_) => 5,
            Character::Sound => 6,
            Character::Bitmap => 7,
            Character::Morph(_) => 8,
            Character::StaticText(_) => 10,
            Character::Nothing => 11,
            Character::Video => 12,
        }
    }

    /// The kind of character in words.
    pub open spec fn kind_name(self) -> Seq<char> {
        match self {
            Character::Shape(_) => "Shape"@,
            Character::Text(_) => "Text"@,
            Character::Font(_) => "Font"@,
            Character::Button(_) => "Button"@,
            Character::Sprite(_) => "Sprite"@,
            Character::Sound => "Sound"@,
            Character::Bitmap => "Bitmap"@,
            Character::Morph(_) => "Morph"@,
            Character::StaticText(_) => "StaticText"@,
            Character::Nothing => "None"@,
            Character::Video => "Video"@,
        }
    }
}

#[verifier::ext_equal]
pub struct Text {
    pub bounds: Rect,
    pub font_id: i32,
    pub alignment: TextAlignment,
    pub color: u32,
    pub font_height: F32Bits,
    pub read_only: bool,
    pub multiline: bool,
    pub word_wrap: bool,
    pub initial_text: Seq<char>,
    pub variable: Seq<char>,
}

#[verifier::ext_equal]
pub struct Font {
    pub name: Seq<char>,
    pub glyphs: Seq<u32>,
}

#[verifier::ext_equal]
pub struct Button {
    pub is_menu: bool,
    pub hit_test_bounds: Rect,
    pub hit_test_vertices: Seq<(F32Bits, F32Bits)>,
    pub hit_test_triangles: Seq<Seq<i16>>,
    pub records: Seq<ButtonRecord>,
    pub actions: Seq<ButtonAction>,
    pub sounds: Option<ButtonSounds>,
}

#[verifier::ext_equal]
pub struct ButtonRecord {
    pub states: i32,
    pub character_id: u32,
    pub layer: i32,
    pub matrix: Matrix,
    pub cxform: FloatCxForm,
}

#[verifier::ext_equal]
pub struct ButtonAction {
    pub conditions: i32,
    pub actions: Seq<Instruction>,
}

#[verifier::ext_equal]
pub struct StaticText {
    pub bounds: Rect,
    pub matrix: Matrix,
    pub records: Seq<StaticTextRecord>,
}

#[verifier::ext_equal]
pub struct StaticTextRecord {
    pub font_id: i32,
    pub cxform: FloatCxForm,
    pub x_offset: F32Bits,
    pub y_offset: F32Bits,
    pub scale: F32Bits,
    pub glyphs: Seq<GlyphEntry>,
}

#[verifier::ext_equal]
pub struct Frame {
    pub controls: Seq<Control>,
}

#[verifier::ext_equal]
pub enum Control {
    Action(Seq<Instruction>),
    FrameLabel(Seq<char>),
    PlaceObject(PlaceObject),
    RemoveObject { depth: i32 },
    BackgroundColor(u32),
    StartSound { sound_id: i32 },
    StartSoundStream { sound_id: i32 },
    InitAction { sprite_id: i32, actions: Seq<Instruction> },
}

impl Control {
    /// The number that stands for the kind of control in a file.
    pub open spec fn type_id(self) -> i32 {
        match self {
            Control::Action(_) => 1,
            Control::FrameLabel(_) => 2,
            Control::PlaceObject(p) => if p.is_place_object_3() {
                9
            } else {
                3
            },
            Control::RemoveObject { .. } => 4,
            Control::BackgroundColor(_) => 5,
            Control::StartSound { .. } => 6,
            Control::StartSoundStream { .. } => 7,
            Control::InitAction { .. } => 8,
        }
    }
}

#[verifier::ext_equal]
pub struct PlaceObject {
    pub is_move: bool,
    pub depth: i32,
    pub character_id: Option<i32>,
    pub matrix: Option<Matrix>,
    pub cxform: Option<PackedCxForm>,
    pub ratio: Option<F32Bits>,
    pub name: Option<Seq<char>>,
    pub clip_depth: Option<i32>,
    pub clip_actions: Option<Seq<EventAction>>,
    pub blend_mode: Option<i32>,
    pub filters: Seq<Filter>,
}

impl PlaceObject {
    /// Whether the placement needs the PlaceObject3 record.
    pub open spec fn is_place_object_3(self) -> bool {
        self.blend_mode is Some || self.filters.len() > 0
    }

    /// A placement with nothing set.
    pub open spec fn nothing() -> PlaceObject {
        PlaceObject {
            is_move: false,
            depth: 0,
            character_id: None,
            matrix: None,
            cxform: None,
            ratio: None,
            name: None,
            clip_depth: None,
            clip_actions: None,
            blend_mode: None,
            filters: Seq::empty(),
        }
    }
}

#[verifier::ext_equal]
pub struct EventAction {
    pub triggers: i32,
    pub key_code: i32,
    pub actions: Seq<Instruction>,
}

#[verifier::ext_equal]
pub enum Filter {
    DropShadow {
        color: u32,
        blur_x: u32,
        blur_y: u32,
        angle: u32,
        distance: u32,
        strength: u16,
        flags: u16,
    },
    Blur { blur_x: u32, blur_y: u32, flags: u16 },
    Glow { color: u32, blur_x: u32, blur_y: u32, strength: u16, flags: u16 },
    Bevel {
        highlight_color: u32,
        shadow_color: u32,
        blur_x: u32,
        blur_y: u32,
        angle: u32,
        distance: u32,
        strength: u16,
        flags: u16,
    },
    GradientGlow {
        is_bevel: bool,
        colors: Seq<u32>,
        ratios: Seq<u8>,
        blur_x: u32,
        blur_y: u32,
        angle: u32,
        distance: u32,
        strength: u16,
        flags: u16,
    },
    ColorMatrix { values: Seq<F32Bits> },
}

impl Filter {
    /// The number that stands for the kind of filter in a file.
    pub open spec fn filter_id(self) -> u32 {
        match self {
            Filter::DropShadow { .. } => 0,
            Filter::Blur { .. } => 1,
            Filter::Glow { .. } => 2,
            Filter::Bevel { .. } => 3,
            Filter::GradientGlow { is_bevel, .. } => if is_bevel {
                7
            } else {
                4
            },
            Filter::ColorMatrix { .. } => 6,
        }
    }
}

/// Where a caught exception goes.
pub enum CatchVar {
    Register(u8),
    Variable(Seq<char>),
}

#[verifier::ext_equal]
pub enum Instruction {
    End,
    Simple(u8),
    GotoFrame(i32),
    GetUrl { url: Seq<char>, target: Seq<char> },
    StoreRegister(i32),
    SetTarget(Seq<char>),
    GotoLabel(Seq<char>),
    GotoFrame2 { play: bool },
    Push(Seq<Value>),
    DefineDictionary(Seq<Value>),
    DefineFunction { name: Seq<char>, params: Seq<Seq<char>>, body: Seq<Instruction> },
    DefineFunction2 {
        name: Seq<char>,
        params: Seq<(u32, Seq<char>)>,
        register_count: i16,
        flags: i16,
        body: Seq<Instruction>,
    },
    Try {
        try_count: usize,
        catch_count: usize,
        finally_count: usize,
        has_catch: bool,
        has_finally: bool,
        catch_var: Option<CatchVar>,
    },
    With { end_target: usize },
    BranchAlways { target: usize },
    BranchIfTrue { target: usize },
    BranchIfFalse { target: usize },
    TraceStart(u32),
    PushString { kind: super::actions::PushStringKind, value: Seq<char> },
    DictRef { kind: super::actions::DictRefKind, index: u16 },
    PushFloat(F32Bits),
    PushByte(u8),
    PushWord(u16),
    PushDWord(u32),
    PushRegister(u8),
}

/// A constant file.
#[verifier::ext_equal]
pub struct ConstFile {
    pub magic: Seq<u8>,
    pub main_character_offset: u64,
    pub constants: Seq<Value>,
}

/// An APT movie with its header.
#[verifier::ext_equal]
pub struct AptFile {
    pub header: Header,
    pub const_magic: Seq<u8>,
    pub movie: Movie,
}

} // verus!
