//! The mathematical counterparts of a SWF movie to be written.
use super::swf_movie::{PlaceAction, Rgba};
use crate::apt::model::{Filter, FloatCxForm};
use crate::apt::types::{F32Bits, Matrix, PackedCxForm, Rect, TextAlignment};
use vstd::prelude::*;

verus! {

#[verifier::ext_equal]
pub struct Asset {
    pub id: u16,
    pub name: Seq<char>,
}

#[verifier::ext_equal]
pub struct ClipHandler {
    pub events: u32,
    pub key_code: Option<u8>,
    pub code: Seq<u8>,
}

#[verifier::ext_equal]
pub struct Place {
    pub version: u8,
    pub action: PlaceAction,
    pub depth: u16,
    pub matrix: Option<Matrix>,
    pub cxform: Option<PackedCxForm>,
    pub ratio: Option<F32Bits>,
    pub name: Option<Seq<char>>,
    pub clip_actions: Option<Seq<ClipHandler>>,
    pub clip_depth: Option<u16>,
    pub filters: Seq<Filter>,
    pub blend_mode: Option<u8>,
}

#[verifier::ext_equal]
pub enum TimelineTag {
    DoAction(Seq<u8>),
    DoInitAction { id: u16, code: Seq<u8> },
    Place(Place),
    RemoveObject { depth: u16 },
    FrameLabel(Seq<char>),
    ShowFrame,
}

#[verifier::ext_equal]
pub enum Fill {
    Color(Rgba),
    Bitmap { id: u16, uv: Seq<F32Bits>, repeating: bool, instead: Rgba },
}

#[verifier::ext_equal]
pub struct Outline {
    pub fill: u32,
    pub points: Seq<(F32Bits, F32Bits)>,
}

#[verifier::ext_equal]
pub struct ShapeTag {
    pub id: u16,
    pub bounds: Rect,
    pub fills: Seq<Fill>,
    pub outlines: Seq<Outline>,
}

#[verifier::ext_equal]
pub struct EditTextTag {
    pub id: u16,
    pub bounds: Rect,
    pub font: Option<(u16, F32Bits)>,
    pub color: Rgba,
    pub align: TextAlignment,
    pub read_only: bool,
    pub multiline: bool,
    pub word_wrap: bool,
    pub initial_text: Option<Seq<char>>,
    pub variable: Option<Seq<char>>,
}

#[verifier::ext_equal]
pub struct ButtonRecordTag {
    pub states: u8,
    pub id: u16,
    pub depth: u16,
    pub matrix: Matrix,
    pub cxform: FloatCxForm,
}

#[verifier::ext_equal]
pub struct ButtonActionTag {
    pub conditions: u16,
    pub code: Seq<u8>,
}

#[verifier::ext_equal]
pub struct ButtonTag {
    pub id: u16,
    pub is_menu: bool,
    pub records: Seq<ButtonRecordTag>,
    pub actions: Seq<ButtonActionTag>,
}

#[verifier::ext_equal]
pub enum Definition {
    ImportAssets { url: Seq<char>, assets: Seq<Asset> },
    /// With the pixels that the data inflates to.
    Bitmap { id: u16, width: u16, height: u16, data: Seq<u8>, pixels: Option<Seq<u8>> },
    Shape(ShapeTag),
    WholeBitmap { id: u16, texture: u16, width: u32, height: u32 },
    DeviceFont { id: u16, name: Seq<char> },
    EditText(EditTextTag),
    Sprite { id: u16, num_frames: u16, tags: Seq<TimelineTag> },
    Button(ButtonTag),
    ExportAssets(Seq<Asset>),
    BackgroundColor(Rgba),
}

#[verifier::ext_equal]
pub struct SwfMovie {
    pub version: u8,
    pub width: u32,
    pub height: u32,
    pub frame_rate: i16,
    pub num_frames: u16,
    pub definitions: Seq<Definition>,
    pub timeline: Seq<TimelineTag>,
}

} // verus!
