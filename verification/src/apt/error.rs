//! What can go wrong when a movie is read or written.
use super::model;
use vstd::prelude::*;

verus! {

#[derive(Debug, Clone, PartialEq, Eq)]
pub enum Error {
    /// Not an APT file: bad header tag.
    BadAptTag,
    /// Not an APT const file: bad magic.
    BadConstMagic,
    /// Unsupported pointer size digit in the header tag.
    BadPtrSize(char),
    /// A read at `offset` of `need` bytes from a blob of `len`.
    OutOfBounds { offset: u64, need: u64, len: u64 },
    /// No terminator follows the string at this offset.
    UnterminatedString(u64),
    InvalidCharacterType(i32),
    InvalidControlType(i32),
    InvalidFilterId(u32),
    InvalidOpcode { opcode: u8, offset: u64 },
    /// A branch or block target that is not on an instruction boundary.
    BadBranchTarget { target: u64, stream: u64 },
    BadConstantIndex { index: u64, count: u64 },
    /// An entry of the constant table has an unknown type.
    InvalidConstantType(i32),
    /// The root character is not an Animation.
    RootNotAnimation(i32),
    /// The string holds characters that latin-1 lacks.
    NonLatin1String(String),
    /// A branch names an instruction that its stream of `count` instructions lacks.
    BranchIndexOutOfRange { index: usize, count: usize },
    /// A gradient filter has not as many ratios as colors.
    GradientLengthMismatch,
}

impl View for Error {
    type V = model::Error;

    open spec fn view(&self) -> model::Error {
        match self {
            Error::BadAptTag => model::Error::BadAptTag,
            Error::BadConstMagic => model::Error::BadConstMagic,
            Error::BadPtrSize(c) => model::Error::BadPtrSize(*c),
            Error::OutOfBounds { offset, need, len } => model::Error::OutOfBounds {
                offset: *offset,
                need: *need,
                len: *len,
            },
            Error::UnterminatedString(o) => model::Error::UnterminatedString(*o),
            Error::InvalidCharacterType(t) => model::Error::InvalidCharacterType(*t),
            Error::InvalidControlType(t) => model::Error::InvalidControlType(*t),
            Error::InvalidFilterId(t) => model::Error::InvalidFilterId(*t),
            Error::InvalidOpcode { opcode, offset } => model::Error::InvalidOpcode {
                opcode: *opcode,
                offset: *offset,
            },
            Error::BadBranchTarget { target, stream } => model::Error::BadBranchTarget {
                target: *target,
                stream: *stream,
            },
            Error::BadConstantIndex { index, count } => model::Error::BadConstantIndex {
                index: *index,
                count: *count,
            },
            Error::InvalidConstantType(t) => model::Error::InvalidConstantType(*t),
            Error::RootNotAnimation(t) => model::Error::RootNotAnimation(*t),
            Error::NonLatin1String(s) => model::Error::NonLatin1String(s@),
            Error::BranchIndexOutOfRange { index, count } => model::Error::BranchIndexOutOfRange {
                index: *index,
                count: *count,
            },
            Error::GradientLengthMismatch => model::Error::GradientLengthMismatch,
        }
    }
}

} // verus!
