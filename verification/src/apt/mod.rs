//! Core of EA's APT file format: a SWF-derived UI format used by EA games
//! (C&C Generals, BFME, C&C3, RA3, ...).
//!
//! An APT "movie" is a family of loose files sharing a base name:
//! - `<base>.apt`   - memory image of characters/frames/actions (pointer slots hold file offsets)
//! - `<base>.const` - constant table + entry point (offset of the root character in the `.apt`)
//! - `<base>.dat`   - bitmap character ID -> texture ID mapping (text)
//! - `<base>_geometry/<id>.ru` - per-shape geometry (text)
//!
//! The binary layout depends on the pointer size the file was built for
//! (4 or 8 bytes) and on whether it targets decoupled rendering; both are
//! declared in the `.apt` header tag `"Apt Data:<decoupled>:<swfver>:<ptrsize>"`.
use crate::paths::{trimmed, trimmed_len};
use crate::text;
use vstd::prelude::*;

pub mod action_format;
pub mod action_laws;
pub mod actions;
pub mod bytes;
pub mod clean;
pub mod constfile;
pub mod copies;
pub mod decode;
pub mod encode;
pub mod error;
pub mod file_format;
pub mod file_laws;
pub mod flush;
pub mod growth;
pub mod io;
pub mod laws;
pub mod layout;
pub mod model;
pub mod naming;
pub mod opcode;
pub mod ordering;
pub mod out;
pub mod parse;
pub mod parsed;
pub mod parsing;
pub mod readback;
pub mod readback_actions;
pub mod readback_movie;
pub mod reader;
pub mod rows;
pub mod settle;
pub mod sink;
pub mod streams;
pub mod types;
pub mod writable;
pub mod write;
pub mod writing;
pub mod writing_laws;

pub use constfile::ConstFile;
pub use error::Error;

verus! {

/// A fully loaded APT movie: parsed `.apt` + `.const` pair.
#[derive(Debug, PartialEq)]
pub struct AptFile {
    /// Header info as found in / destined for the `.apt` tag.
    pub header: types::Header,
    /// The 20-byte `.const` magic/header block, preserved for faithful re-emit.
    pub const_magic: [u8; 20],
    /// The root character (always an Animation / movie).
    pub movie: types::Movie,
}

impl View for AptFile {
    type V = model::AptFile;

    open spec fn view(&self) -> model::AptFile {
        model::AptFile {
            header: self.header@,
            const_magic: self.const_magic@,
            movie: self.movie@,
        }
    }
}

impl AptFile {
    /// Parse an APT movie from raw `.apt` and `.const` bytes.
    pub fn read(apt_data: &[u8], const_data: &[u8]) -> (r: Result<AptFile, Error>)
        ensures
            match r {
                Ok(f) => parsing::apt_file(apt_data@, const_data@) == Ok::<
                    model::AptFile,
                    model::Error,
                >(f@),
                Err(e) => parsing::apt_file(apt_data@, const_data@) == Err::<
                    model::AptFile,
                    model::Error,
                >(e@),
            },
    {
        parse::parse(apt_data, const_data)
    }

    /// Serialize to (`.apt` bytes, `.const` bytes) for the given target layout.
    pub fn write(&self, options: &write::WriteOptions) -> (r: Result<(Vec<u8>, Vec<u8>), Error>)
        ensures
            match r {
                Ok(b) => {
                    &&& writing::file_err(
                        self@,
                        options.ptr_size.width(),
                        options.decoupled,
                        options.tag(),
                    ) is None
                    &&& writing::file_bytes(
                        self@,
                        options.ptr_size.width(),
                        options.decoupled,
                        options.tag(),
                    ) == (b.0@, b.1@)
                },
                Err(e) => writing::file_err(
                    self@,
                    options.ptr_size.width(),
                    options.decoupled,
                    options.tag(),
                ) == Some(e@),
            },
    {
        write::write(self, options)
    }
}

/// Whether a path ends in a file name with this extension and a stem before it.
pub open spec fn has_extension(path: Seq<char>, dotted: Seq<char>) -> bool {
    let n = path.len() - dotted.len();
    0 < n && path.skip(n) == dotted && path[n - 1] != '/'
}

/// The movie base path: the path without a `.apt` or `.const` extension.
pub open spec fn base_of(path: Seq<char>) -> Seq<char> {
    let t = trimmed(path);
    if has_extension(t, seq!['.', 'a', 'p', 't']) {
        t.take(t.len() - 4)
    } else if has_extension(t, seq!['.', 'c', 'o', 'n', 's', 't']) {
        t.take(t.len() - 6)
    } else {
        path
    }
}

/// Strip a `.apt`/`.const` extension to get the movie base path. The parts of
/// the path are separated by `/`.
pub fn base_path(path: &str) -> (base: String)
    ensures
        base@ == base_of(path@),
{
    let v = text::to_chars(path);
    let n: usize = trimmed_len(&v, v.len());
    assert(v@.take(v@.len() as int) =~= path@);
    let ghost whole = trimmed(path@);
    assert(whole =~= v@.take(n as int));
    if n > 4 && v[n - 5] != '/' && v[n - 4] == '.' && v[n - 3] == 'a' && v[n - 2] == 'p' && v[n - 1]
        == 't' {
        assert(whole.skip(n - 4) =~= seq!['.', 'a', 'p', 't']);
        assert(v@.subrange(0, n - 4) =~= whole.take(n - 4));
        return text::from_chars(&v, 0, n - 4);
    }
    proof {
        if has_extension(whole, seq!['.', 'a', 'p', 't']) {
            let t = whole.skip(n - 4);
            assert(t[0] == '.' && t[1] == 'a' && t[2] == 'p' && t[3] == 't');
        }
    }
    if n > 6 && v[n - 7] != '/' && v[n - 6] == '.' && v[n - 5] == 'c' && v[n - 4] == 'o' && v[n - 3]
        == 'n' && v[n - 2] == 's' && v[n - 1] == 't' {
        assert(whole.skip(n - 6) =~= seq!['.', 'c', 'o', 'n', 's', 't']);
        assert(v@.subrange(0, n - 6) =~= whole.take(n - 6));
        return text::from_chars(&v, 0, n - 6);
    }
    proof {
        if has_extension(whole, seq!['.', 'c', 'o', 'n', 's', 't']) {
            let t = whole.skip(n - 6);
            assert(t[0] == '.' && t[1] == 'c' && t[2] == 'o' && t[3] == 'n' && t[4] == 's' && t[5]
                == 't');
        }
    }
    path.to_owned()
}

} // verus!
