//! Auxiliary (game-side) APT assets.
//!
//! The APT engine core only consumes `.apt`/`.const`; shape geometry and
//! textures are loaded through game-provided callbacks. This module models
//! those aux assets in a game-agnostic way and implements the formats used by
//! the classic C&C/BFME-era games:
//!
//! - **Rendering units**: shape geometry keyed by shape character index. The
//!   classic format is `.ru` text files under `<base>_geometry/<index>.ru`
//!   ([`ru::RuFormat`]).
//! - **Texture maps** (`.dat`): bitmap character ID -> texture ID.
use vstd::prelude::*;

pub mod dat;
pub mod image_codec;
pub mod packer;
pub mod ru;
pub mod ru_laws;
pub mod table;
pub mod text_laws;
pub mod texture;

pub use dat::TextureMap;
pub use ru::{RenderUnit, RuFormat, ShapeGeometry, Style};
pub use texture::{
    pack_textures, FileTextureSource, NoTextures, PackedRect, Texture, TextureSource,
};

verus! {

/// What can be wrong with an auxiliary asset.
#[derive(Debug, Clone, PartialEq, Eq)]
pub enum Error {
    /// A line of a texture map that says neither `->` nor `=`.
    UnrecognizedLine(String),
    /// A texture map names this as an ID.
    BadId(String),
    /// Geometry that cannot be read.
    Geometry(GeometryError),
    /// A style that geometry does not know.
    UnknownStyle(String),
    /// An image that cannot be decoded.
    UndecodableImage,
    /// An image that cannot be encoded in the format asked for.
    UnencodableImage,
    /// Fewer bytes than the size of the texture asks for.
    BadDimensions,
}

/// What can be wrong with geometry.
#[derive(Debug, Clone, Copy, PartialEq, Eq, Structural)]
pub enum GeometryError {
    /// Missing style spec after `s`.
    MissingStyle,
    /// `s` before any `c`.
    StyleBeforeUnit,
    /// Vertex line before any `c`.
    VertexBeforeUnit,
    BadVertex,
    MissingWidth,
    BadWidth,
    MissingColor,
    BadColor,
    MissingBitmap,
    BadBitmap,
    MissingCell,
    BadCell,
}

/// The counterpart of [`Error`] that contracts speak of.
pub enum Trouble {
    UnrecognizedLine(Seq<char>),
    BadId(Seq<char>),
    Geometry(GeometryError),
    UnknownStyle(Seq<char>),
    UndecodableImage,
    UnencodableImage,
    BadDimensions,
}

impl View for Error {
    type V = Trouble;

    open spec fn view(&self) -> Trouble {
        match self {
            Error::UnrecognizedLine(s) => Trouble::UnrecognizedLine(s@),
            Error::BadId(s) => Trouble::BadId(s@),
            Error::Geometry(e) => Trouble::Geometry(*e),
            Error::UnknownStyle(s) => Trouble::UnknownStyle(s@),
            Error::UndecodableImage => Trouble::UndecodableImage,
            Error::UnencodableImage => Trouble::UnencodableImage,
            Error::BadDimensions => Trouble::BadDimensions,
        }
    }
}

} // verus!
