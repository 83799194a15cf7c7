//! A SWF movie to be written, independent of how its tags are encoded.
//!
//! Coordinates stay the bit patterns of their single-precision pixels.
use super::swf_model as scene;
use super::zlib;
use crate::apt::model;
use crate::apt::types::{F32Bits, Filter, FloatCxForm, Matrix, PackedCxForm, Rect, TextAlignment};
use vstd::prelude::*;

verus! {

#[derive(Debug, Clone, Copy, Default, PartialEq, Eq, Structural)]
pub struct Rgba {
    pub r: u8,
    pub g: u8,
    pub b: u8,
    pub a: u8,
}

/// A character and the name it goes by between movies.
#[derive(Debug, Clone, PartialEq, Eq)]
pub struct Asset {
    pub id: u16,
    pub name: String,
}

#[derive(Debug, Clone, Copy, PartialEq, Eq, Structural)]
pub enum PlaceAction {
    Place(u16),
    Modify,
    Replace(u16),
}

/// A handler of clip events.
#[derive(Debug, Clone, PartialEq, Eq)]
pub struct ClipHandler {
    /// A mask of clip event flags.
    pub events: u32,
    pub key_code: Option<u8>,
    pub code: Vec<u8>,
}

/// PlaceObject2 or PlaceObject3.
#[derive(Debug, PartialEq)]
pub struct Place {
    pub version: u8,
    pub action: PlaceAction,
    pub depth: u16,
    pub matrix: Option<Matrix>,
    pub cxform: Option<PackedCxForm>,
    pub ratio: Option<F32Bits>,
    pub name: Option<String>,
    pub clip_actions: Option<Vec<ClipHandler>>,
    pub clip_depth: Option<u16>,
    pub filters: Vec<Filter>,
    pub blend_mode: Option<u8>,
}

/// A tag of a timeline.
#[derive(Debug, PartialEq)]
pub enum TimelineTag {
    DoAction(Vec<u8>),
    DoInitAction { id: u16, code: Vec<u8> },
    Place(Place),
    RemoveObject { depth: u16 },
    FrameLabel(String),
    ShowFrame,
}

#[derive(Debug, Clone, Copy, PartialEq, Eq)]
pub enum Fill {
    Color(Rgba),
    /// An image. `uv` takes a vertex position to texture pixels; where it has no
    /// inverse that a fill matrix can hold, the color `instead` fills.
    Bitmap { id: u16, uv: [F32Bits; 6], repeating: bool, instead: Rgba },
}

/// A closed path through points, filled with the fill of that number, counted
/// from one.
#[derive(Debug, Clone, PartialEq, Eq)]
pub struct Outline {
    pub fill: u32,
    pub points: Vec<(F32Bits, F32Bits)>,
}

#[derive(Debug, PartialEq)]
pub struct ShapeTag {
    pub id: u16,
    pub bounds: Rect,
    pub fills: Vec<Fill>,
    pub outlines: Vec<Outline>,
}

#[derive(Debug, PartialEq)]
pub struct EditTextTag {
    pub id: u16,
    pub bounds: Rect,
    /// The font character and the height; the default font where there is none.
    pub font: Option<(u16, F32Bits)>,
    pub color: Rgba,
    pub align: TextAlignment,
    pub read_only: bool,
    pub multiline: bool,
    pub word_wrap: bool,
    pub initial_text: Option<String>,
    pub variable: Option<String>,
}

#[derive(Debug, Clone, Copy, PartialEq, Eq)]
pub struct ButtonRecordTag {
    pub states: u8,
    pub id: u16,
    pub depth: u16,
    pub matrix: Matrix,
    pub cxform: FloatCxForm,
}

#[derive(Debug, Clone, PartialEq, Eq)]
pub struct ButtonActionTag {
    pub conditions: u16,
    pub code: Vec<u8>,
}

#[derive(Debug, PartialEq)]
pub struct ButtonTag {
    pub id: u16,
    pub is_menu: bool,
    pub records: Vec<ButtonRecordTag>,
    pub actions: Vec<ButtonActionTag>,
}

/// A tag that stands before the timeline.
#[derive(Debug, PartialEq)]
pub enum Definition {
    ImportAssets { url: String, assets: Vec<Asset> },
    /// DefineBitsLossless2, 32 bits per pixel, zlib-compressed.
    Bitmap { id: u16, width: u16, height: u16, data: Vec<u8> },
    Shape(ShapeTag),
    /// A rectangle that shows a whole bitmap, pixel by pixel.
    WholeBitmap { id: u16, texture: u16, width: u32, height: u32 },
    /// A font without glyphs, which the player finds by its name.
    DeviceFont { id: u16, name: String },
    EditText(EditTextTag),
    Sprite { id: u16, num_frames: u16, tags: Vec<TimelineTag> },
    Button(ButtonTag),
    ExportAssets(Vec<Asset>),
    BackgroundColor(Rgba),
}

/// A movie: its header, the tags before the timeline, and the timeline.
#[derive(Debug, PartialEq)]
pub struct SwfMovie {
    pub version: u8,
    /// The stage in pixels.
    pub width: u32,
    pub height: u32,
    /// Frames per second in 1/256.
    pub frame_rate: i16,
    pub num_frames: u16,
    pub definitions: Vec<Definition>,
    pub timeline: Vec<TimelineTag>,
}

/// The characters of a text that may be missing.
pub open spec fn text_of(s: Option<String>) -> Option<Seq<char>> {
    match s {
        Some(s) => Some(s@),
        None => None,
    }
}

impl View for Asset {
    type V = scene::Asset;

    open spec fn view(&self) -> scene::Asset {
        scene::Asset { id: self.id, name: self.name@ }
    }
}

impl View for ClipHandler {
    type V = scene::ClipHandler;

    open spec fn view(&self) -> scene::ClipHandler {
        scene::ClipHandler { events: self.events, key_code: self.key_code, code: self.code@ }
    }
}

impl View for Place {
    type V = scene::Place;

    open spec fn view(&self) -> scene::Place {
        scene::Place {
            version: self.version,
            action: self.action,
            depth: self.depth,
            matrix: self.matrix,
            cxform: self.cxform,
            ratio: self.ratio,
            name: text_of(self.name),
            clip_actions: match self.clip_actions {
                Some(v) => Some(model::views(v@)),
                None => None,
            },
            clip_depth: self.clip_depth,
            filters: model::views(self.filters@),
            blend_mode: self.blend_mode,
        }
    }
}

impl View for TimelineTag {
    type V = scene::TimelineTag;

    open spec fn view(&self) -> scene::TimelineTag {
        match self {
            TimelineTag::DoAction(code) => scene::TimelineTag::DoAction(code@),
            TimelineTag::DoInitAction { id, code } => scene::TimelineTag::DoInitAction {
                id: *id,
                code: code@,
            },
            TimelineTag::Place(p) => scene::TimelineTag::Place(p@),
            TimelineTag::RemoveObject { depth } => scene::TimelineTag::RemoveObject {
                depth: *depth,
            },
            TimelineTag::FrameLabel(s) => scene::TimelineTag::FrameLabel(s@),
            TimelineTag::ShowFrame => scene::TimelineTag::ShowFrame,
        }
    }
}

impl View for Fill {
    type V = scene::Fill;

    open spec fn view(&self) -> scene::Fill {
        match self {
            Fill::Color(c) => scene::Fill::Color(*c),
            Fill::Bitmap { id, uv, repeating, instead } => scene::Fill::Bitmap {
                id: *id,
                uv: uv@,
                repeating: *repeating,
                instead: *instead,
            },
        }
    }
}

impl View for Outline {
    type V = scene::Outline;

    open spec fn view(&self) -> scene::Outline {
        scene::Outline { fill: self.fill, points: self.points@ }
    }
}

impl View for ShapeTag {
    type V = scene::ShapeTag;

    open spec fn view(&self) -> scene::ShapeTag {
        scene::ShapeTag {
            id: self.id,
            bounds: self.bounds,
            fills: model::views(self.fills@),
            outlines: model::views(self.outlines@),
        }
    }
}

impl View for EditTextTag {
    type V = scene::EditTextTag;

    open spec fn view(&self) -> scene::EditTextTag {
        scene::EditTextTag {
            id: self.id,
            bounds: self.bounds,
            font: self.font,
            color: self.color,
            align: self.align,
            read_only: self.read_only,
            multiline: self.multiline,
            word_wrap: self.word_wrap,
            initial_text: text_of(self.initial_text),
            variable: text_of(self.variable),
        }
    }
}

impl View for ButtonRecordTag {
    type V = scene::ButtonRecordTag;

    open spec fn view(&self) -> scene::ButtonRecordTag {
        scene::ButtonRecordTag {
            states: self.states,
            id: self.id,
            depth: self.depth,
            matrix: self.matrix,
            cxform: self.cxform@,
        }
    }
}

impl View for ButtonActionTag {
    type V = scene::ButtonActionTag;

    open spec fn view(&self) -> scene::ButtonActionTag {
        scene::ButtonActionTag { conditions: self.conditions, code: self.code@ }
    }
}

impl View for ButtonTag {
    type V = scene::ButtonTag;

    open spec fn view(&self) -> scene::ButtonTag {
        scene::ButtonTag {
            id: self.id,
            is_menu: self.is_menu,
            records: model::views(self.records@),
            actions: model::views(self.actions@),
        }
    }
}

impl View for Definition {
    type V = scene::Definition;

    open spec fn view(&self) -> scene::Definition {
        match self {
            Definition::ImportAssets { url, assets } => scene::Definition::ImportAssets {
                url: url@,
                assets: model::views(assets@),
            },
            Definition::Bitmap { id, width, height, data } => scene::Definition::Bitmap {
                id: *id,
                width: *width,
                height: *height,
                data: data@,
                pixels: zlib::inflated(data@),
            },
            Definition::Shape(s) => scene::Definition::Shape(s@),
            Definition::WholeBitmap { id, texture, width, height } => {
                scene::Definition::WholeBitmap {
                    id: *id,
                    texture: *texture,
                    width: *width,
                    height: *height,
                }
            },
            Definition::DeviceFont { id, name } => scene::Definition::DeviceFont {
                id: *id,
                name: name@,
            },
            Definition::EditText(t) => scene::Definition::EditText(t@),
            Definition::Sprite { id, num_frames, tags } => scene::Definition::Sprite {
                id: *id,
                num_frames: *num_frames,
                tags: model::views(tags@),
            },
            Definition::Button(b) => scene::Definition::Button(b@),
            Definition::ExportAssets(a) => scene::Definition::ExportAssets(model::views(a@)),
            Definition::BackgroundColor(c) => scene::Definition::BackgroundColor(*c),
        }
    }
}

impl View for SwfMovie {
    type V = scene::SwfMovie;

    open spec fn view(&self) -> scene::SwfMovie {
        scene::SwfMovie {
            version: self.version,
            width: self.width,
            height: self.height,
            frame_rate: self.frame_rate,
            num_frames: self.num_frames,
            definitions: model::views(self.definitions@),
            timeline: model::views(self.timeline@),
        }
    }
}

} // verus!
