//! Conversion between the APT format and standard SWF.
//!
//! Where APT goes to SWF, its shorthand opcodes are expanded into standard AVM1
//! actions; where SWF goes to APT, standard AVM1 is parsed into the APT
//! instruction model.
pub mod assets;
pub mod avm1;
pub mod bitmaps;
pub mod bridge;
pub mod building;
pub mod defining_laws;
pub mod bytecode;
pub mod code_laws;
pub mod contour_laws;
pub mod converting;
pub mod curve_laws;
pub mod extracting;
pub mod finding_laws;
pub mod floats;
pub mod from_swf;
pub mod geometry;
pub mod geometry_laws;
pub mod imports;
pub mod lowered;
pub mod machine;
pub mod merging;
pub mod narrow;
pub mod operand_laws;
pub mod painting_laws;
pub mod pixel_laws;
pub mod placing_laws;
pub mod reading;
pub mod reading_laws;
pub mod recovering;
pub mod recovering_laws;
pub mod singles;
pub mod spelled;
pub mod swf_model;
pub mod swf_movie;
pub mod swf_read;
pub mod to_swf;
pub mod walking;
pub mod zlib;

use crate::apt::types::F32Bits;
use vstd::prelude::*;

verus! {

/// What can be wrong with SWF data being read.
#[derive(Debug, Clone, Copy, PartialEq, Eq, Structural)]
pub enum ReadFault {
    /// The length of an action is cut off.
    TruncatedLength,
    /// The payload of an action is cut off.
    TruncatedPayload,
    /// A payload is too short for the operand it should hold.
    ShortOperand,
    /// No terminator follows a string.
    UnterminatedString,
    /// A pushed value of an unknown type.
    UnknownPushType(u8),
    /// A tag that cannot be read, or no end of the tags.
    BadTag,
    /// Not a SWF file.
    BadFile,
}

/// What can be wrong with a conversion.
#[derive(Debug, Clone, PartialEq, Eq)]
pub enum Error {
    /// The SWF data is not well-formed.
    SwfRead(ReadFault),
    /// Try/Catch has no translation.
    Unsupported,
    /// The text holds characters that latin-1 lacks.
    NonLatin1(String),
    /// A branch to an instruction that the stream lacks.
    UnresolvedBranch(usize),
    /// No text was given for a number in a dictionary.
    NoFloatText(F32Bits),
    /// The pixels of a texture cannot be compressed.
    Compression,
}

/// The counterpart of [`Error`] that contracts speak of.
pub enum Trouble {
    SwfRead(ReadFault),
    Unsupported,
    NonLatin1(Seq<char>),
    UnresolvedBranch(usize),
    NoFloatText(F32Bits),
    Compression,
}

impl View for Error {
    type V = Trouble;

    open spec fn view(&self) -> Trouble {
        match self {
            Error::SwfRead(f) => Trouble::SwfRead(*f),
            Error::Unsupported => Trouble::Unsupported,
            Error::NonLatin1(s) => Trouble::NonLatin1(s@),
            Error::UnresolvedBranch(i) => Trouble::UnresolvedBranch(*i),
            Error::NoFloatText(b) => Trouble::NoFloatText(*b),
            Error::Compression => Trouble::Compression,
        }
    }
}

/// The first of two.
pub open spec fn first_of<T>(a: Option<T>, b: Option<T>) -> Option<T> {
    if a is Some {
        a
    } else {
        b
    }
}

} // verus!
