//! What reading a blob gives.
//!
//! A reading position carries the first error met on the way: from then on
//! reading stays where it is and gives zeros.
use super::bytes::{round_up, un_le};
use super::error::Error;
use super::model;
use vstd::prelude::*;

verus! {

/// A blob and the pointer size it was built for.
pub struct Src {
    pub data: Seq<u8>,
    pub ps: nat,
}

/// A reading position and the first error met on the way.
pub struct Rd {
    pub pos: int,
    pub err: Option<model::Error>,
}

impl Rd {
    pub open spec fn start(pos: int) -> Rd {
        Rd { pos, err: None }
    }

    pub open spec fn at(self, pos: int) -> Rd {
        Rd { pos, ..self }
    }

    pub open spec fn fail(self, e: model::Error) -> Rd {
        if self.err is Some {
            self
        } else {
            Rd { err: Some(e), ..self }
        }
    }
}

/// Bytes as the characters of the same numbers.
pub open spec fn latin1(b: Seq<u8>) -> Seq<char> {
    Seq::new(b.len(), |i: int| b[i] as char)
}

/// Characters as the bytes of the same numbers.
pub open spec fn to_latin1(s: Seq<char>) -> Seq<u8> {
    Seq::new(s.len(), |i: int| (s[i] as u32) as u8)
}

/// Whether every character fits in a byte.
pub open spec fn is_latin1(s: Seq<char>) -> bool {
    forall|i: int| 0 <= i < s.len() ==> (#[trigger] s[i]) as u32 <= 0xFF
}

/// Where the first zero byte from `i` on is.
pub open spec fn terminator(data: Seq<u8>, i: int) -> Option<int>
    decreases data.len() - i,
{
    if i >= data.len() {
        None
    } else if data[i] == 0 {
        Some(i)
    } else {
        terminator(data, i + 1)
    }
}

/// The sum, or the largest 64-bit number where the sum is larger.
pub open spec fn sat(a: int, b: int) -> int {
    if a + b > u64::MAX {
        u64::MAX as int
    } else {
        a + b
    }
}

impl Src {
    pub open spec fn len(self) -> int {
        self.data.len() as int
    }

    /// A number of `n` bytes.
    pub open spec fn num(self, c: Rd, n: nat) -> (nat, Rd) {
        if c.err is Some {
            (0, c)
        } else if c.pos + n > self.len() {
            (
                0,
                c.fail(
                    model::Error::OutOfBounds {
                        offset: c.pos as u64,
                        need: n as u64,
                        len: self.len() as u64,
                    },
                ),
            )
        } else {
            (un_le(self.data, c.pos, n), c.at(c.pos + n))
        }
    }

    pub open spec fn u8(self, c: Rd) -> (u8, Rd) {
        (self.num(c, 1).0 as u8, self.num(c, 1).1)
    }

    pub open spec fn u16(self, c: Rd) -> (u16, Rd) {
        (self.num(c, 2).0 as u16, self.num(c, 2).1)
    }

    pub open spec fn i16(self, c: Rd) -> (i16, Rd) {
        (self.u16(c).0 as i16, self.u16(c).1)
    }

    pub open spec fn u32(self, c: Rd) -> (u32, Rd) {
        (self.num(c, 4).0 as u32, self.num(c, 4).1)
    }

    pub open spec fn i32(self, c: Rd) -> (i32, Rd) {
        (self.u32(c).0 as i32, self.u32(c).1)
    }

    pub open spec fn u64(self, c: Rd) -> (u64, Rd) {
        (self.num(c, 8).0 as u64, self.num(c, 8).1)
    }

    /// The next multiple of `n`. A position at the very end of the 64-bit range,
    /// past the end of any blob, stays where it is.
    pub open spec fn align(self, c: Rd, n: nat) -> Rd {
        if c.err is Some || round_up(c.pos, n) > u64::MAX {
            c
        } else {
            c.at(round_up(c.pos, n))
        }
    }

    pub open spec fn align_ptr(self, c: Rd) -> Rd {
        self.align(c, self.ps)
    }

    /// A pointer-width number, aligned.
    pub open spec fn ptr(self, c: Rd) -> (u64, Rd) {
        let r = self.num(self.align_ptr(c), self.ps);
        (r.0 as u64, r.1)
    }

    /// The string that starts at `off`. The position stays.
    pub open spec fn string_at(self, c: Rd, off: u64) -> (Seq<char>, Rd) {
        if c.err is Some {
            (Seq::empty(), c)
        } else if off >= self.len() {
            (
                Seq::empty(),
                c.fail(
                    model::Error::OutOfBounds { offset: off, need: 1, len: self.len() as u64 },
                ),
            )
        } else {
            match terminator(self.data, off as int) {
                Some(end) => (latin1(self.data.subrange(off as int, end)), c),
                None => (Seq::empty(), c.fail(model::Error::UnterminatedString(off))),
            }
        }
    }

    /// A pointer to a string; 0 stands for the empty one.
    pub open spec fn ptr_string(self, c: Rd) -> (Seq<char>, Rd) {
        let (off, c) = self.ptr(c);
        if off == 0 {
            (Seq::empty(), c)
        } else {
            self.string_at(c, off)
        }
    }
}

/// Whether `r` reports what reading gave, and the reader stands at `pos` after it.
pub open spec fn reads<T>(r: Result<T, Error>, got: (T, Rd), pos: int) -> bool {
    match r {
        Ok(v) => got.1.err is None && v == got.0 && pos == got.1.pos,
        Err(e) => got.1.err == Some(e@),
    }
}

/// As [`reads`], for a value that is compared by its view.
pub open spec fn reads_view<T: View>(r: Result<T, Error>, got: (T::V, Rd), pos: int) -> bool {
    match r {
        Ok(v) => got.1.err is None && v@ == got.0 && pos == got.1.pos,
        Err(e) => got.1.err == Some(e@),
    }
}

/// As [`reads_view`], wherever the reader stands afterwards.
pub open spec fn gives<T: View>(r: Result<T, Error>, got: (T::V, Rd)) -> bool {
    match r {
        Ok(v) => got.1.err is None && v@ == got.0,
        Err(e) => got.1.err == Some(e@),
    }
}

pub proof fn lemma_byte_char(c: char)
    requires
        c as u32 <= 0xFF,
    ensures
        ((c as u32) as u8) as char == c,
        (c as u32) as u8 == 0 ==> c as u32 == 0,
{
}

/// Latin-1 text survives being turned into bytes and back.
pub proof fn law_latin1_roundtrip(s: Seq<char>)
    requires
        is_latin1(s),
    ensures
        latin1(to_latin1(s)) == s,
{
    assert forall|i: int| 0 <= i < s.len() implies latin1(to_latin1(s))[i] == s[i] by {
        lemma_byte_char(s[i]);
    }
    assert(latin1(to_latin1(s)) =~= s);
}

/// Bytes survive being turned into text and back.
pub proof fn law_latin1_bytes_roundtrip(b: Seq<u8>)
    ensures
        is_latin1(latin1(b)),
        to_latin1(latin1(b)) == b,
{
    assert(to_latin1(latin1(b)) =~= b);
}

pub proof fn lemma_terminator(data: Seq<u8>, i: int, e: int)
    requires
        0 <= i <= e <= data.len(),
        forall|j: int| i <= j < e ==> data[j] != 0,
    ensures
        e < data.len() && data[e] == 0 ==> terminator(data, i) == Some(e),
        e == data.len() ==> terminator(data, i) is None,
    decreases e - i,
{
    if i < e {
        lemma_terminator(data, i + 1, e);
    } else if i < data.len() && data[i] != 0 {
    }
}

/// `n` readings one after another.
pub open spec fn reps<T>(step: spec_fn(Rd) -> (T, Rd), c: Rd, n: nat) -> (Seq<T>, Rd)
    decreases n,
{
    if n == 0 || c.err is Some {
        (Seq::empty(), c)
    } else {
        let (got, d) = reps(step, c, (n - 1) as nat);
        let (x, e) = step(d);
        (got.push(x), e)
    }
}

/// Whether reading stops at the first error.
pub open spec fn sticky<T>(step: spec_fn(Rd) -> (T, Rd)) -> bool {
    forall|c: Rd| c.err is Some ==> (#[trigger] step(c)).1 == c
}

pub proof fn lemma_reps_sticky<T>(step: spec_fn(Rd) -> (T, Rd), c: Rd, i: nat, n: nat)
    requires
        sticky(step),
        i <= n,
        reps(step, c, i).1.err is Some,
    ensures
        reps(step, c, n).1 == reps(step, c, i).1,
    decreases n - i,
{
    if i < n {
        lemma_reps_sticky(step, c, i, (n - 1) as nat);
    }
}

/// The number of items that a signed count stands for.
pub open spec fn items(n: i32) -> nat {
    if n > 0 {
        n as nat
    } else {
        0
    }
}

pub proof fn lemma_reps_len<T>(step: spec_fn(Rd) -> (T, Rd), c: Rd, n: nat)
    requires
        c.err is None,
    ensures
        reps(step, c, n).0.len() == n,
    decreases n,
{
    if n > 0 {
        lemma_reps_len(step, c, (n - 1) as nat);
    }
}

} // verus!
