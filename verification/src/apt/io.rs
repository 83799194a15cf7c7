//! Byte-level reading/writing helpers.
//!
//! APT files are little-endian memory images: every "pointer" is a 4- or
//! 8-byte slot holding a file-relative offset (0 = NULL), a character index,
//! or a magic value. Alignment matters: pointer slots and inline action
//! structs are aligned to the file's pointer size *on blob-relative offsets*.
use super::bytes::{self, capacity, le, power_of_two, un_le};
use super::error::Error;
use super::flush;
use super::layout::{self, Image, Slot};
use super::model;
use super::out::{Out, Pending};
use super::reader::{self, Rd, Src};
use super::types::PtrSize;
use vstd::prelude::*;

verus! {

/// Read cursor over an APT blob.
#[derive(Clone, Copy)]
pub struct Cursor<'a> {
    pub data: &'a [u8],
    pub pos: u64,
    pub ptr_size: PtrSize,
}

impl<'a> Cursor<'a> {
    /// The blob it reads.
    pub open spec fn src(self) -> Src {
        Src { data: self.data@, ps: self.ptr_size.width() }
    }

    /// Where it stands.
    pub open spec fn rd(self) -> Rd {
        Rd::start(self.pos as int)
    }

    pub fn new(data: &'a [u8], ptr_size: PtrSize) -> (c: Self)
        ensures
            c.data@ == data@,
            c.pos == 0,
            c.ptr_size == ptr_size,
    {
        Cursor { data, pos: 0, ptr_size }
    }

    pub fn at(&self, pos: u64) -> (c: Cursor<'a>)
        ensures
            c.src() == self.src(),
            c.data == self.data,
            c.ptr_size == self.ptr_size,
            c.pos == pos,
    {
        Cursor { data: self.data, pos, ptr_size: self.ptr_size }
    }

    /// The next `n` bytes as a number.
    fn take(&mut self, n: usize) -> (r: Result<u64, Error>)
        requires
            n <= 8,
        ensures
            final(self).data == old(self).data,
            final(self).ptr_size == old(self).ptr_size,
            match r {
                Ok(v) => old(self).src().num(old(self).rd(), n as nat) == (
                    v as nat,
                    final(self).rd(),
                ),
                Err(e) => {
                    &&& old(self).src().num(old(self).rd(), n as nat).1.err == Some(e@)
                    &&& final(self).pos == old(self).pos
                },
            },
    {
        let total: usize = self.data.len();
        let len: u64 = total as u64;
        if n as u64 > len || self.pos > len - n as u64 {
            return Err(Error::OutOfBounds { offset: self.pos, need: n as u64, len });
        }
        let start: usize = self.pos as usize;
        let mut acc: u64 = 0;
        let mut k: usize = n;
        while k > 0
            invariant
                k <= n <= 8,
                start + n <= total,
                total == self.data@.len(),
                acc as nat == un_le(self.data@, start + k, (n - k) as nat),
                self.data == old(self).data,
                self.ptr_size == old(self).ptr_size,
                self.pos == old(self).pos,
            decreases k,
        {
            proof {
                bytes::lemma_un_le_bound(self.data@, start + k - 1, (n - k + 1) as nat);
                assert(capacity((n - k + 1) as nat) <= capacity(8)) by {
                    reveal_with_fuel(capacity, 9);
                }
                bytes::lemma_capacity();
            }
            k = k - 1;
            acc = self.data[start + k] as u64 + 256 * acc;
        }
        self.pos = self.pos + n as u64;
        Ok(acc)
    }

    pub fn align(&mut self, n: usize)
        requires
            power_of_two(n as int),
        ensures
            final(self).data == old(self).data,
            final(self).ptr_size == old(self).ptr_size,
            final(self).rd() == old(self).src().align(old(self).rd(), n as nat),
            old(self).pos <= final(self).pos < old(self).pos + n,
            old(self).pos + n <= u64::MAX ==> final(self).pos % (n as u64) == 0,
    {
        proof {
            layout::lemma_round_up_to(self.pos as int, n as nat);
        }
        let rest: u64 = self.pos % (n as u64);
        if rest != 0 && self.pos <= u64::MAX - (n as u64 - rest) {
            self.pos = self.pos + (n as u64 - rest);
        }
    }

    pub fn align_ptr(&mut self)
        ensures
            final(self).data == old(self).data,
            final(self).ptr_size == old(self).ptr_size,
            final(self).rd() == old(self).src().align_ptr(old(self).rd()),
            old(self).pos <= final(self).pos,
    {
        proof {
            bytes::lemma_powers();
        }
        self.align(self.ptr_size.bytes());
    }

    pub fn u8(&mut self) -> (r: Result<u8, Error>)
        ensures
            final(self).data == old(self).data,
            r is Ok ==> old(self).pos < final(self).pos <= old(self).data@.len(),
            final(self).ptr_size == old(self).ptr_size,
            reader::reads(r, old(self).src().u8(old(self).rd()), final(self).pos as int),
            r is Err ==> final(self).pos == old(self).pos,
    {
        proof {
            bytes::lemma_capacity();
            bytes::lemma_un_le_bound(self.data@, self.pos as int, 1);
        }
        let v: u64 = self.take(1)?;
        Ok(v as u8)
    }

    pub fn u16(&mut self) -> (r: Result<u16, Error>)
        ensures
            final(self).data == old(self).data,
            r is Ok ==> old(self).pos < final(self).pos <= old(self).data@.len(),
            final(self).ptr_size == old(self).ptr_size,
            reader::reads(r, old(self).src().u16(old(self).rd()), final(self).pos as int),
            r is Err ==> final(self).pos == old(self).pos,
    {
        proof {
            bytes::lemma_capacity();
            bytes::lemma_un_le_bound(self.data@, self.pos as int, 2);
        }
        let v: u64 = self.take(2)?;
        Ok(v as u16)
    }

    pub fn i16(&mut self) -> (r: Result<i16, Error>)
        ensures
            final(self).data == old(self).data,
            r is Ok ==> old(self).pos < final(self).pos <= old(self).data@.len(),
            final(self).ptr_size == old(self).ptr_size,
            reader::reads(r, old(self).src().i16(old(self).rd()), final(self).pos as int),
            r is Err ==> final(self).pos == old(self).pos,
    {
        let v: u16 = self.u16()?;
        Ok(v as i16)
    }

    pub fn u32(&mut self) -> (r: Result<u32, Error>)
        ensures
            final(self).data == old(self).data,
            r is Ok ==> old(self).pos < final(self).pos <= old(self).data@.len(),
            final(self).ptr_size == old(self).ptr_size,
            reader::reads(r, old(self).src().u32(old(self).rd()), final(self).pos as int),
            r is Err ==> final(self).pos == old(self).pos,
    {
        proof {
            bytes::lemma_capacity();
            bytes::lemma_un_le_bound(self.data@, self.pos as int, 4);
        }
        let v: u64 = self.take(4)?;
        Ok(v as u32)
    }

    pub fn i32(&mut self) -> (r: Result<i32, Error>)
        ensures
            final(self).data == old(self).data,
            r is Ok ==> old(self).pos < final(self).pos <= old(self).data@.len(),
            final(self).ptr_size == old(self).ptr_size,
            reader::reads(r, old(self).src().i32(old(self).rd()), final(self).pos as int),
            r is Err ==> final(self).pos == old(self).pos,
    {
        let v: u32 = self.u32()?;
        Ok(v as i32)
    }

    pub fn u64(&mut self) -> (r: Result<u64, Error>)
        ensures
            final(self).data == old(self).data,
            r is Ok ==> old(self).pos < final(self).pos <= old(self).data@.len(),
            final(self).ptr_size == old(self).ptr_size,
            reader::reads(r, old(self).src().u64(old(self).rd()), final(self).pos as int),
            r is Err ==> final(self).pos == old(self).pos,
    {
        proof {
            bytes::lemma_capacity();
            bytes::lemma_un_le_bound(self.data@, self.pos as int, 8);
        }
        self.take(8)
    }

    /// Read a pointer-width slot (aligned). Returns the raw value
    /// (an offset, an index, or a magic).
    pub fn ptr(&mut self) -> (r: Result<u64, Error>)
        ensures
            final(self).data == old(self).data,
            r is Ok ==> old(self).pos < final(self).pos <= old(self).data@.len(),
            final(self).ptr_size == old(self).ptr_size,
            reader::reads(r, old(self).src().ptr(old(self).rd()), final(self).pos as int),
            r is Err ==> final(self).rd() == old(self).src().align_ptr(old(self).rd()),
    {
        self.align_ptr();
        match self.ptr_size {
            PtrSize::Four => {
                proof {
                    bytes::lemma_capacity();
                    bytes::lemma_un_le_bound(self.data@, self.pos as int, 4);
                }
                let v: u32 = self.u32()?;
                Ok(v as u64)
            },
            PtrSize::Eight => self.u64(),
        }
    }

    /// Read a NUL-terminated latin-1 string at an absolute offset.
    pub fn string_at(&self, offset: u64) -> (r: Result<String, Error>)
        ensures
            reader::reads_view(r, self.src().string_at(self.rd(), offset), self.pos as int),
    {
        let len: u64 = self.data.len() as u64;
        if offset >= len {
            return Err(Error::OutOfBounds { offset, need: 1, len });
        }
        let start: usize = offset as usize;
        let mut end: usize = start;
        while end < self.data.len() && self.data[end] != 0
            invariant
                start <= end <= self.data@.len(),
                forall|j: int| start <= j < end ==> self.data@[j] != 0,
            decreases self.data@.len() - end,
        {
            end = end + 1;
        }
        proof {
            reader::lemma_terminator(self.data@, start as int, end as int);
        }
        if end == self.data.len() {
            return Err(Error::UnterminatedString(offset));
        }
        Ok(latin1_to_string(vstd::slice::slice_subrange(self.data, start, end)))
    }

    /// Read a pointer slot that must be a string offset; 0 yields "".
    pub fn ptr_string(&mut self) -> (r: Result<String, Error>)
        ensures
            final(self).data == old(self).data,
            r is Ok ==> old(self).pos < final(self).pos <= old(self).data@.len(),
            final(self).ptr_size == old(self).ptr_size,
            reader::reads_view(
                r,
                old(self).src().ptr_string(old(self).rd()),
                final(self).pos as int,
            ),
            r is Err ==> final(self).pos == old(self).src().ptr_string(old(self).rd()).1.pos,
    {
        let off: u64 = self.ptr()?;
        if off == 0 {
            let s = String::new();
            Ok(s)
        } else {
            self.string_at(off)
        }
    }
}

pub fn latin1_to_string(bytes: &[u8]) -> (s: String)
    ensures
        s@ == reader::latin1(bytes@),
{
    let mut s = String::new();
    let mut i: usize = 0;
    while i < bytes.len()
        invariant
            i <= bytes@.len(),
            s@ == reader::latin1(bytes@.take(i as int)),
        decreases bytes@.len() - i,
    {
        s.push(bytes[i] as char);
        i = i + 1;
        assert(s@ =~= reader::latin1(bytes@.take(i as int)));
    }
    assert(bytes@.take(i as int) =~= bytes@);
    s
}

pub fn string_to_latin1(s: &str) -> (r: Result<Vec<u8>, Error>)
    ensures
        match r {
            Ok(b) => reader::is_latin1(s@) && b@ == reader::to_latin1(s@),
            Err(e) => !reader::is_latin1(s@) && e@ == model::Error::NonLatin1String(s@),
        },
{
    let mut out: Vec<u8> = Vec::new();
    for c in it: s.chars()
        invariant
            it.seq() == s@,
            out@ == reader::to_latin1(s@.take(it.index())),
            reader::is_latin1(s@.take(it.index())),
    {
        let v: u32 = c as u32;
        if v > 0xFF {
            return Err(Error::NonLatin1String(s.to_owned()));
        }
        out.push(v as u8);
        proof {
            let t = s@.take(it.index() + 1);
            assert(t =~= s@.take(it.index()).push(c));
            assert(out@ =~= reader::to_latin1(t));
        }
    }
    assert(s@.take(s@.len() as int) =~= s@);
    Ok(out)
}

/// A pointer slot in the output blob awaiting its final value.
#[derive(Debug, Clone, Copy, PartialEq, Eq, Structural)]
#[must_use]
pub struct Patch(usize);

impl Patch {
    /// Where the slot starts.
    pub closed spec fn pos(self) -> int {
        self.0 as int
    }
}

/// Which bytes of a blob belong to slots.
pub struct Marks {
    pub owner: Seq<int>,
    pub slots: Map<int, Slot>,
}

/// Growable output blob with pointer-slot patching.
pub struct Arena {
    pub buf: Vec<u8>,
    pub ptr_size: PtrSize,
    pub marks: Ghost<Marks>,
}

impl View for Arena {
    type V = Image;

    open spec fn view(&self) -> Image {
        Image {
            ps: self.ptr_size.width(),
            bytes: self.buf@,
            owner: self.marks@.owner,
            slots: self.marks@.slots,
        }
    }
}

impl Arena {
    pub fn new(ptr_size: PtrSize) -> (a: Self)
        ensures
            a@ == Image::empty(ptr_size.width()),
            a@.inv(),
            a.ptr_size == ptr_size,
    {
        proof {
            layout::lemma_empty(ptr_size.width());
        }
        Arena {
            buf: Vec::new(),
            ptr_size,
            marks: Ghost(Marks { owner: Seq::empty(), slots: Map::empty() }),
        }
    }

    pub fn len(&self) -> (n: usize)
        ensures
            n == self@.len(),
    {
        self.buf.len()
    }

    pub fn bytes(&mut self, b: &[u8])
        requires
            old(self)@.inv(),
        ensures
            final(self)@ == old(self)@.append(b@),
            final(self)@.inv(),
            final(self).ptr_size == old(self).ptr_size,
    {
        let mut i: usize = 0;
        while i < b.len()
            invariant
                i <= b@.len(),
                self.buf@ == old(self).buf@ + b@.take(i as int),
                self.ptr_size == old(self).ptr_size,
                self.marks == old(self).marks,
            decreases b@.len() - i,
        {
            self.buf.push(b[i]);
            i = i + 1;
            assert(self.buf@ =~= old(self).buf@ + b@.take(i as int));
        }
        proof {
            assert(b@.take(i as int) =~= b@);
            reveal(Image::append);
            layout::lemma_append(old(self)@, b@);
            layout::lemma_extends(old(self)@, old(self)@.append(b@));
            self.marks@ = Marks {
                owner: old(self)@.owner + Seq::new(b@.len(), |i: int| -1int),
                slots: old(self)@.slots,
            };
        }
    }

    /// The low `n` bytes of `v`.
    fn number(&mut self, v: u64, n: usize)
        requires
            old(self)@.inv(),
        ensures
            final(self)@ == old(self)@.put(n as nat, v as nat),
            final(self)@.inv(),
            final(self).ptr_size == old(self).ptr_size,
    {
        let mut k: usize = 0;
        let mut rest: u64 = v;
        proof {
            bytes::lemma_le_len(v as nat, n as nat);
        }
        while k < n
            invariant
                k <= n,
                le(v as nat, n as nat).len() == n,
                le(rest as nat, (n - k) as nat) == le(v as nat, n as nat).skip(k as int),
                self.buf@ == old(self).buf@ + le(v as nat, n as nat).take(k as int),
                self.ptr_size == old(self).ptr_size,
                self.marks == old(self).marks,
            decreases n - k,
        {
            proof {
                let whole = le(v as nat, n as nat);
                let left = le(rest as nat, (n - k) as nat);
                bytes::lemma_le_len((rest / 256) as nat, (n - k - 1) as nat);
                assert(left[0] == (rest % 256) as u8);
                assert(left.skip(1) =~= le((rest / 256) as nat, (n - k - 1) as nat));
                assert(whole.skip(k as int).skip(1) =~= whole.skip(k + 1));
                assert(whole.take(k + 1) =~= whole.take(k as int).push(left[0]));
            }
            self.buf.push((rest % 256) as u8);
            rest = rest / 256;
            k = k + 1;
            assert(self.buf@ =~= old(self).buf@ + le(v as nat, n as nat).take(k as int));
        }
        proof {
            let b = le(v as nat, n as nat);
            assert(b.take(k as int) =~= b);
            reveal(Image::append);
            layout::lemma_append(old(self)@, b);
            layout::lemma_extends(old(self)@, old(self)@.append(b));
            self.marks@ = Marks {
                owner: old(self)@.owner + Seq::new(b.len(), |i: int| -1int),
                slots: old(self)@.slots,
            };
        }
    }

    pub fn align(&mut self, n: usize)
        requires
            old(self)@.inv(),
            power_of_two(n as int),
        ensures
            final(self)@ == old(self)@.align(n as nat),
            final(self)@.inv(),
            final(self).ptr_size == old(self).ptr_size,
    {
        let rest: usize = self.buf.len() % n;
        let pad: usize = if rest == 0 {
            0
        } else {
            n - rest
        };
        let mut k: usize = 0;
        while k < pad
            invariant
                k <= pad,
                self.buf@ == old(self).buf@ + Seq::new(k as nat, |i: int| 0u8),
                self.ptr_size == old(self).ptr_size,
                self.marks == old(self).marks,
            decreases pad - k,
        {
            self.buf.push(0);
            k = k + 1;
            assert(self.buf@ =~= old(self).buf@ + Seq::new(k as nat, |i: int| 0u8));
        }
        proof {
            layout::lemma_round_up_to(old(self)@.len() as int, n as nat);
            layout::lemma_align(old(self)@, n as nat);
            layout::lemma_extends(old(self)@, old(self)@.align(n as nat));
            reveal(Image::append);
            self.marks@ = Marks {
                owner: old(self)@.owner + Seq::new(pad as nat, |i: int| -1int),
                slots: old(self)@.slots,
            };
        }
    }

    pub fn align_ptr(&mut self)
        requires
            old(self)@.inv(),
        ensures
            final(self)@ == old(self)@.align(old(self)@.ps),
            final(self)@.inv(),
            final(self).ptr_size == old(self).ptr_size,
    {
        proof {
            bytes::lemma_powers();
        }
        self.align(self.ptr_size.bytes());
    }

    pub fn u8(&mut self, v: u8)
        requires
            old(self)@.inv(),
        ensures
            final(self)@ == old(self)@.put(1, v as nat),
            final(self)@.inv(),
            final(self).ptr_size == old(self).ptr_size,
    {
        self.number(v as u64, 1);
    }

    pub fn u16(&mut self, v: u16)
        requires
            old(self)@.inv(),
        ensures
            final(self)@ == old(self)@.put(2, v as nat),
            final(self)@.inv(),
            final(self).ptr_size == old(self).ptr_size,
    {
        self.number(v as u64, 2);
    }

    pub fn i16(&mut self, v: i16)
        requires
            old(self)@.inv(),
        ensures
            final(self)@ == old(self)@.put(2, (v as u16) as nat),
            final(self)@.inv(),
            final(self).ptr_size == old(self).ptr_size,
    {
        self.u16(v as u16);
    }

    pub fn u32(&mut self, v: u32)
        requires
            old(self)@.inv(),
        ensures
            final(self)@ == old(self)@.put(4, v as nat),
            final(self)@.inv(),
            final(self).ptr_size == old(self).ptr_size,
    {
        self.number(v as u64, 4);
    }

    pub fn i32(&mut self, v: i32)
        requires
            old(self)@.inv(),
        ensures
            final(self)@ == old(self)@.put(4, (v as u32) as nat),
            final(self)@.inv(),
            final(self).ptr_size == old(self).ptr_size,
    {
        self.u32(v as u32);
    }

    pub fn u64(&mut self, v: u64)
        requires
            old(self)@.inv(),
        ensures
            final(self)@ == old(self)@.put(8, v as nat),
            final(self)@.inv(),
            final(self).ptr_size == old(self).ptr_size,
    {
        self.number(v, 8);
    }

    /// Write a pointer-width slot holding a known raw value (index/magic/0).
    pub fn ptr_value(&mut self, v: u64)
        requires
            old(self)@.inv(),
        ensures
            final(self)@ == old(self)@.align(old(self)@.ps).put(old(self)@.ps, v as nat),
            final(self)@.inv(),
            final(self).ptr_size == old(self).ptr_size,
    {
        self.align_ptr();
        self.number(v, self.ptr_size.bytes());
        proof {
            reveal(Image::append);
        }
    }

    /// Reserve `n` bytes at the end.
    fn reserve(&mut self, n: usize, tag: Ghost<(nat, nat)>) -> (p: Patch)
        requires
            old(self)@.inv(),
            n > 0,
        ensures
            final(self)@ == old(self)@.slot(n as nat, tag@),
            final(self)@.inv(),
            p.pos() == old(self)@.len(),
            final(self).ptr_size == old(self).ptr_size,
    {
        let pos: usize = self.buf.len();
        let ghost before = self@;
        self.number(0, n);
        proof {
            reveal(Image::append);
            reveal(Image::slot);
            bytes::lemma_le_len(0, n as nat);
            layout::lemma_slot(before, n as nat, tag@);
            layout::lemma_extends(before, before.slot(n as nat, tag@));
            self.marks@ = Marks {
                owner: before.owner + Seq::new(n as nat, |i: int| before.len() as int),
                slots: before.slots.insert(
                    before.len() as int,
                    Slot { width: n as nat, value: None, tag: tag@ },
                ),
            };
        }
        Patch(pos)
    }

    /// Reserve a pointer-width slot to be patched later with an offset.
    pub fn ptr_patch(&mut self) -> (p: Patch)
        requires
            old(self)@.inv(),
        ensures
            final(self)@ == old(self)@.align(old(self)@.ps).slot(old(self)@.ps, (0, 0)),
            final(self)@.inv(),
            p.pos() == old(self)@.align(old(self)@.ps).len(),
            final(self)@.holds(p.pos(), old(self)@.ps, (0, 0)),
            final(self)@.keeps(p.pos(), old(self)@.ps, (0, 0)),
            final(self).ptr_size == old(self).ptr_size,
    {
        self.align_ptr();
        proof {
            layout::lemma_reserved(self@, self@.ps, (0, 0));
        }
        self.reserve(self.ptr_size.bytes(), Ghost((0, 0)))
    }

    /// Reserve a pointer-width slot for out-of-line data.
    fn ptr_patch_for(&mut self, tag: Ghost<(nat, nat)>) -> (p: Patch)
        requires
            old(self)@.inv(),
        ensures
            final(self)@ == old(self)@.align(old(self)@.ps).slot(old(self)@.ps, tag@),
            final(self)@.inv(),
            p.pos() == old(self)@.align(old(self)@.ps).len(),
            final(self).ptr_size == old(self).ptr_size,
    {
        self.align_ptr();
        self.reserve(self.ptr_size.bytes(), tag)
    }

    /// Reserve a 4-byte int to be patched later.
    pub fn i32_patch(&mut self) -> (p: Patch)
        requires
            old(self)@.inv(),
        ensures
            final(self)@ == old(self)@.slot(4, (0, 0)),
            final(self)@.inv(),
            p.pos() == old(self)@.len(),
            final(self)@.holds(p.pos(), 4, (0, 0)),
            final(self)@.keeps(p.pos(), 4, (0, 0)),
            final(self).ptr_size == old(self).ptr_size,
    {
        proof {
            layout::lemma_reserved(self@, 4, (0, 0));
        }
        self.reserve(4, Ghost((0, 0)))
    }

    /// The low `n` bytes of `v` into a slot.
    fn patch(&mut self, p: Patch, v: u64, n: usize, tag: Ghost<(nat, nat)>)
        requires
            old(self)@.inv(),
            old(self)@.keeps(p.pos(), n as nat, tag@),
        ensures
            final(self)@ == old(self)@.fill(p.pos(), n as nat, v as nat),
            final(self)@.inv(),
            final(self).ptr_size == old(self).ptr_size,
    {
        let start: usize = p.0;
        let mut k: usize = 0;
        let mut rest: u64 = v;
        let total: usize = self.buf.len();
        proof {
            bytes::lemma_le_len(v as nat, n as nat);
            layout::lemma_refill(self@, p.pos(), n as nat, v as nat, tag@);
        }
        while k < n
            invariant
                k <= n,
                start + n <= total,
                total == self.buf@.len(),
                le(v as nat, n as nat).len() == n,
                le(rest as nat, (n - k) as nat) == le(v as nat, n as nat).skip(k as int),
                self.buf@ == layout::overwrite(
                    old(self).buf@,
                    start as int,
                    le(v as nat, n as nat).take(k as int),
                ),
                self.ptr_size == old(self).ptr_size,
                self.marks == old(self).marks,
            decreases n - k,
        {
            proof {
                let whole = le(v as nat, n as nat);
                let left = le(rest as nat, (n - k) as nat);
                bytes::lemma_le_len((rest / 256) as nat, (n - k - 1) as nat);
                assert(left[0] == (rest % 256) as u8);
                assert(left.skip(1) =~= le((rest / 256) as nat, (n - k - 1) as nat));
                assert(whole.skip(k as int).skip(1) =~= whole.skip(k + 1));
                assert(whole.take(k + 1) =~= whole.take(k as int).push(left[0]));
            }
            self.buf.set(start + k, (rest % 256) as u8);
            rest = rest / 256;
            k = k + 1;
            assert(self.buf@ =~= layout::overwrite(
                old(self).buf@,
                start as int,
                le(v as nat, n as nat).take(k as int),
            ));
        }
        proof {
            let b = le(v as nat, n as nat);
            assert(b.take(k as int) =~= b);
            reveal(Image::fill);
            self.marks@ = Marks {
                owner: old(self)@.owner,
                slots: old(self)@.slots.insert(
                    p.pos(),
                    Slot { width: n as nat, value: Some(v as nat), tag: old(self)@.slots[p.pos()].tag },
                ),
            };
        }
    }

    /// Put a number into a pointer-sized slot, also in place of an earlier one.
    pub fn patch_ptr(&mut self, p: Patch, v: u64)
        requires
            old(self)@.inv(),
            old(self)@.keeps(p.pos(), old(self)@.ps, (0, 0)),
        ensures
            final(self)@ == old(self)@.fill(p.pos(), old(self)@.ps, v as nat),
            final(self)@.inv(),
            final(self)@.keeps(p.pos(), old(self)@.ps, (0, 0)),
            final(self).ptr_size == old(self).ptr_size,
    {
        self.patch(p, v, self.ptr_size.bytes(), Ghost((0, 0)));
        proof {
            layout::lemma_refill(old(self)@, p.pos(), old(self)@.ps, v as nat, (0, 0));
        }
    }

    /// Put a number into a slot of 4 bytes, also in place of an earlier one.
    pub fn patch_i32(&mut self, p: Patch, v: i32)
        requires
            old(self)@.inv(),
            old(self)@.keeps(p.pos(), 4, (0, 0)),
        ensures
            final(self)@ == old(self)@.fill(p.pos(), 4, (v as u32) as nat),
            final(self)@.inv(),
            final(self)@.keeps(p.pos(), 4, (0, 0)),
            final(self).ptr_size == old(self).ptr_size,
    {
        let w: u32 = v as u32;
        self.patch(p, w as u64, 4, Ghost((0, 0)));
        proof {
            layout::lemma_refill(old(self)@, p.pos(), 4, w as nat, (0, 0));
        }
    }

    /// Append a NUL-terminated latin-1 string, returning its offset.
    pub fn string(&mut self, s: &str) -> (r: Result<u64, Error>)
        requires
            old(self)@.inv(),
        ensures
            match r {
                Ok(off) => {
                    &&& reader::is_latin1(s@)
                    &&& off == old(self)@.len()
                    &&& final(self)@ == old(self)@.append(reader::to_latin1(s@).push(0))
                    &&& final(self)@.inv()
                },
                Err(e) => {
                    &&& !reader::is_latin1(s@)
                    &&& e@ == model::Error::NonLatin1String(s@)
                    &&& *final(self) == *old(self)
                },
            },
            final(self).ptr_size == old(self).ptr_size,
    {
        let off: u64 = self.buf.len() as u64;
        let mut b = string_to_latin1(s)?;
        b.push(0);
        self.bytes(b.as_slice());
        Ok(off)
    }
}

/// Out-of-line data referenced from structs being serialized (strings, pointer
/// arrays, function parameter tables). Collected while writing a struct or
/// action stream, then flushed after it so the stream bytes stay contiguous.
pub struct Deferred {
    strings: Vec<(Patch, String)>,
    /// Arrays of pointer-width slots holding raw values (indices etc.).
    ptr_arrays: Vec<(Patch, Vec<u64>)>,
    /// Arrays of pointer-width slots, each pointing to a string.
    string_arrays: Vec<(Patch, Vec<String>)>,
    /// `AptRegisterParam[]`: (register, param name) pairs.
    reg_params: Vec<(Patch, Vec<(u32, String)>)>,
}

/// The counterparts of a list of numbers.
pub open spec fn numbers(s: Seq<u64>) -> Seq<nat> {
    Seq::new(s.len(), |i: int| s[i] as nat)
}

impl View for Deferred {
    type V = Pending;

    closed spec fn view(&self) -> Pending {
        Pending {
            strings: Seq::new(
                self.strings@.len(),
                |i: int| (self.strings@[i].0.pos(), self.strings@[i].1@),
            ),
            ptr_arrays: Seq::new(
                self.ptr_arrays@.len(),
                |i: int| (self.ptr_arrays@[i].0.pos(), numbers(self.ptr_arrays@[i].1@)),
            ),
            string_arrays: Seq::new(
                self.string_arrays@.len(),
                |i: int|
                    (self.string_arrays@[i].0.pos(), model::names(self.string_arrays@[i].1@)),
            ),
            reg_params: Seq::new(
                self.reg_params@.len(),
                |i: int| (self.reg_params@[i].0.pos(), model::reg_names(self.reg_params@[i].1@)),
            ),
        }
    }
}

/// A blob and the data that is still to be placed in it.
pub open spec fn joined(img: Image, def: Pending) -> Out {
    Out { img, consts: Seq::empty(), def }
}

impl Default for Deferred {
    fn default() -> (d: Deferred)
        ensures
            d@ == Pending::empty(),
    {
        let d = Deferred {
            strings: Vec::new(),
            ptr_arrays: Vec::new(),
            string_arrays: Vec::new(),
            reg_params: Vec::new(),
        };
        assert(d@ =~= Pending::empty());
        d
    }
}

impl Deferred {
    pub fn string(&mut self, arena: &mut Arena, s: &str)
        requires
            old(arena)@.inv(),
        ensures
            final(arena)@.inv(),
            final(arena).ptr_size == old(arena).ptr_size,
            joined(final(arena)@, final(self)@) == joined(old(arena)@, old(self)@).text(s@),
    {
        let p = arena.ptr_patch_for(Ghost((1nat, self@.strings.len())));
        self.strings.push((p, s.to_owned()));
        proof {
            let o = joined(old(arena)@, old(self)@);
            assert(self@ =~= o.text(s@).def);
        }
    }

    pub fn ptr_array(&mut self, arena: &mut Arena, values: Vec<u64>)
        requires
            old(arena)@.inv(),
        ensures
            final(arena)@.inv(),
            final(arena).ptr_size == old(arena).ptr_size,
            joined(final(arena)@, final(self)@) == joined(old(arena)@, old(self)@).ptr_array(
                numbers(values@),
            ),
    {
        let p = arena.ptr_patch_for(Ghost((2nat, self@.ptr_arrays.len())));
        self.ptr_arrays.push((p, values));
        proof {
            let o = joined(old(arena)@, old(self)@);
            assert(self@ =~= o.ptr_array(numbers(values@)).def);
        }
    }

    pub fn string_array(&mut self, arena: &mut Arena, values: Vec<String>)
        requires
            old(arena)@.inv(),
        ensures
            final(arena)@.inv(),
            final(arena).ptr_size == old(arena).ptr_size,
            joined(final(arena)@, final(self)@) == joined(old(arena)@, old(self)@).string_array(
                model::names(values@),
            ),
    {
        let p = arena.ptr_patch_for(Ghost((3nat, self@.string_arrays.len())));
        self.string_arrays.push((p, values));
        proof {
            let o = joined(old(arena)@, old(self)@);
            assert(self@ =~= o.string_array(model::names(values@)).def);
        }
    }

    pub fn reg_params(&mut self, arena: &mut Arena, params: Vec<(u32, String)>)
        requires
            old(arena)@.inv(),
        ensures
            final(arena)@.inv(),
            final(arena).ptr_size == old(arena).ptr_size,
            joined(final(arena)@, final(self)@) == joined(old(arena)@, old(self)@).reg_params(
                model::reg_names(params@),
            ),
    {
        let p = arena.ptr_patch_for(Ghost((4nat, self@.reg_params.len())));
        self.reg_params.push((p, params));
        proof {
            let o = joined(old(arena)@, old(self)@);
            assert(self@ =~= o.reg_params(model::reg_names(params@)).def);
        }
    }

    /// Place one array of numbers.
    fn place_ptr_array(&self, arena: &mut Arena, k: usize)
        requires
            k < self@.ptr_arrays.len(),
            flush::waiting(joined(old(arena)@, self@), 0, k as nat, 0, 0),
        ensures
            final(arena).ptr_size == old(arena).ptr_size,
            joined(final(arena)@, self@) == flush::place_ptr_array(
                joined(old(arena)@, self@),
                self@.ptr_arrays[k as int],
            ),
    {
        let ghost o = joined(arena@, self@);
        proof {
            flush::lemma_place_ptr_array(o, k as nat);
            flush::lemma_waiting_inv(o, 0, k as nat, 0, 0);
        }
        arena.align_ptr();
        let ghost a = o.align_ptr();
        let off: u64 = arena.len() as u64;
        let entry = &self.ptr_arrays[k];
        let ghost v = numbers(entry.1@);
        assert(self@.ptr_arrays[k as int] == (entry.0.pos(), v));
        let mut j: usize = 0;
        while j < entry.1.len()
            invariant
                j <= entry.1@.len(),
                v == numbers(entry.1@),
                arena@.inv(),
                arena.ptr_size == old(arena).ptr_size,
                joined(arena@, self@) == flush::ptr_values(a, v, j as nat),
            decreases entry.1@.len() - j,
        {
            arena.ptr_value(entry.1[j]);
            j = j + 1;
        }
        proof {
            let b = flush::ptr_values(a, v, v.len());
            assert(b.img.holds(entry.0.pos(), b.ps(), (2, k as nat))) by {
                reveal(flush::waiting);
                assert(b.def.ptr_arrays[k as int] == (entry.0.pos(), v));
            }
        }
        proof {
            layout::lemma_held_bounds(arena@, entry.0.pos(), arena@.ps, (2nat, k as nat));
        }
        arena.patch(entry.0, off, arena.ptr_size.bytes(), Ghost((2nat, k as nat)));
    }

    /// Place one array of strings.
    fn place_string_array(&mut self, arena: &mut Arena, k: usize, i2: Ghost<nat>)
        requires
            k < old(self)@.string_arrays.len(),
            flush::waiting(joined(old(arena)@, old(self)@), 0, i2@, k as nat, 0),
        ensures
            final(arena).ptr_size == old(arena).ptr_size,
            joined(final(arena)@, final(self)@) == flush::place_string_array(
                joined(old(arena)@, old(self)@),
                old(self)@.string_arrays[k as int],
            ),
    {
        let ghost o = joined(arena@, self@);
        proof {
            flush::lemma_place_string_array(o, i2@, k as nat);
            flush::lemma_waiting_inv(o, 0, i2@, k as nat, 0);
        }
        arena.align_ptr();
        let ghost a = o.align_ptr();
        let off: u64 = arena.len() as u64;
        let ghost v = model::names(self.string_arrays@[k as int].1@);
        let ghost arrays = self.string_arrays@;
        let count: usize = self.string_arrays[k].1.len();
        let mut j: usize = 0;
        while j < count
            invariant
                j <= count,
                k < self.string_arrays@.len(),
                self.string_arrays@ == arrays,
                count == arrays[k as int].1@.len(),
                v == model::names(arrays[k as int].1@),
                arena@.inv(),
                arena.ptr_size == old(arena).ptr_size,
                joined(arena@, self@) == flush::texts(a, v, j as nat),
            decreases count - j,
        {
            let ghost before = joined(arena@, self@);
            let s = self.string_arrays[k].1[j].clone();
            let p = arena.ptr_patch_for(Ghost((1nat, self@.strings.len())));
            self.strings.push((p, s));
            proof {
                assert(self@ =~= before.text(v[j as int]).def);
            }
            j = j + 1;
        }
        let patch = self.string_arrays[k].0;
        proof {
            let b = flush::texts(a, v, v.len());
            assert(o.def.string_arrays[k as int] == (patch.pos(), v));
            assert(b.img.holds(patch.pos(), b.ps(), (3, k as nat))) by {
                reveal(flush::waiting);
                assert(b.def.string_arrays[k as int] == (patch.pos(), v));
            }
        }
        proof {
            layout::lemma_held_bounds(arena@, patch.pos(), arena@.ps, (3nat, k as nat));
        }
        arena.patch(patch, off, arena.ptr_size.bytes(), Ghost((3nat, k as nat)));
    }

    /// Place one parameter table.
    fn place_params(&mut self, arena: &mut Arena, k: usize, i2: Ghost<nat>, i3: Ghost<nat>)
        requires
            k < old(self)@.reg_params.len(),
            flush::waiting(joined(old(arena)@, old(self)@), 0, i2@, i3@, k as nat),
        ensures
            final(arena).ptr_size == old(arena).ptr_size,
            joined(final(arena)@, final(self)@) == flush::place_params(
                joined(old(arena)@, old(self)@),
                old(self)@.reg_params[k as int],
            ),
    {
        let ghost o = joined(arena@, self@);
        proof {
            flush::lemma_place_params(o, i2@, i3@, k as nat);
            flush::lemma_waiting_inv(o, 0, i2@, i3@, k as nat);
        }
        arena.align_ptr();
        let ghost a = o.align_ptr();
        let off: u64 = arena.len() as u64;
        let ghost v = model::reg_names(self.reg_params@[k as int].1@);
        let ghost tables = self.reg_params@;
        let count: usize = self.reg_params[k].1.len();
        let mut j: usize = 0;
        while j < count
            invariant
                j <= count,
                k < self.reg_params@.len(),
                self.reg_params@ == tables,
                count == tables[k as int].1@.len(),
                v == model::reg_names(tables[k as int].1@),
                arena@.inv(),
                arena.ptr_size == old(arena).ptr_size,
                joined(arena@, self@) == flush::reg_texts(a, v, j as nat),
            decreases count - j,
        {
            let ghost before = joined(arena@, self@);
            arena.align_ptr();
            arena.u32(self.reg_params[k].1[j].0);
            let ghost mid = joined(arena@, self@);
            let s = self.reg_params[k].1[j].1.clone();
            let p = arena.ptr_patch_for(Ghost((1nat, self@.strings.len())));
            self.strings.push((p, s));
            proof {
                assert(mid == before.align_ptr().put(4, v[j as int].0 as nat));
                assert(self@ =~= mid.text(v[j as int].1).def);
            }
            j = j + 1;
        }
        let patch = self.reg_params[k].0;
        proof {
            let b = flush::reg_texts(a, v, v.len());
            assert(o.def.reg_params[k as int] == (patch.pos(), v));
            assert(b.img.holds(patch.pos(), b.ps(), (4, k as nat))) by {
                reveal(flush::waiting);
                assert(b.def.reg_params[k as int] == (patch.pos(), v));
            }
        }
        proof {
            layout::lemma_held_bounds(arena@, patch.pos(), arena@.ps, (4nat, k as nat));
        }
        arena.patch(patch, off, arena.ptr_size.bytes(), Ghost((4nat, k as nat)));
    }

    fn clear(&mut self)
        ensures
            final(self)@ == Pending::empty(),
    {
        self.strings = Vec::new();
        self.ptr_arrays = Vec::new();
        self.string_arrays = Vec::new();
        self.reg_params = Vec::new();
        assert(self@ =~= Pending::empty());
    }

    /// Emit all deferred data into the arena and patch the referring slots.
    pub fn flush(&mut self, arena: &mut Arena) -> (r: Result<(), Error>)
        requires
            joined(old(arena)@, old(self)@).ok(),
        ensures
            ({
                let o = joined(old(arena)@, old(self)@);
                let strings = flush::all_strings(o);
                match flush::first_foreign(strings, strings.len()) {
                    None => {
                        &&& r is Ok
                        &&& final(arena)@ == flush::flush(o).img
                    },
                    Some(s) => {
                        &&& r matches Err(e) && e@ == model::Error::NonLatin1String(s)
                        &&& final(arena)@ == flush::flushed_until(o).img
                    },
                }
            }),
            final(arena)@.inv(),
            final(self)@ == Pending::empty(),
            final(arena).ptr_size == old(arena).ptr_size,
    {
        let ghost o = joined(arena@, self@);
        proof {
            flush::lemma_waiting_start(o);
            flush::lemma_place_ptr_arrays(o, o.def.ptr_arrays.len());
        }
        let mut k: usize = 0;
        while k < self.ptr_arrays.len()
            invariant
                k <= self@.ptr_arrays.len(),
                self@ == o.def,
                o.consts == Seq::<model::Value>::empty(),
                flush::waiting(o, 0, 0, 0, 0),
                arena.ptr_size == old(arena).ptr_size,
                joined(arena@, self@) == flush::place_ptr_arrays(o, k as nat),
            decreases self@.ptr_arrays.len() - k,
        {
            proof {
                flush::lemma_place_ptr_arrays(o, k as nat);
            }
            self.place_ptr_array(arena, k);
            k = k + 1;
        }
        let ghost i2 = o.def.ptr_arrays.len();
        let ghost a = flush::place_ptr_arrays(o, i2);
        proof {
            flush::lemma_place_string_arrays(a, i2, a.def.string_arrays.len());
        }
        let mut k: usize = 0;
        let count: usize = self.string_arrays.len();
        while k < count
            invariant
                k <= count,
                count == a.def.string_arrays.len(),
                flush::waiting(a, 0, i2, 0, 0),
                arena.ptr_size == old(arena).ptr_size,
                joined(arena@, self@) == flush::place_string_arrays(a, k as nat),
            decreases count - k,
        {
            proof {
                flush::lemma_place_string_arrays(a, i2, k as nat);
            }
            self.place_string_array(arena, k, Ghost(i2));
            k = k + 1;
        }
        let ghost i3 = o.def.string_arrays.len();
        let ghost b = flush::place_string_arrays(a, i3);
        proof {
            flush::lemma_place_string_arrays(a, i2, i3);
            flush::lemma_place_all_params(b, i2, i3, b.def.reg_params.len());
        }
        let mut k: usize = 0;
        let count: usize = self.reg_params.len();
        while k < count
            invariant
                k <= count,
                count == b.def.reg_params.len(),
                flush::waiting(b, 0, i2, i3, 0),
                arena.ptr_size == old(arena).ptr_size,
                joined(arena@, self@) == flush::place_all_params(b, k as nat),
            decreases count - k,
        {
            proof {
                flush::lemma_place_all_params(b, i2, i3, k as nat);
            }
            self.place_params(arena, k, Ghost(i2), Ghost(i3));
            k = k + 1;
        }
        let ghost i4 = o.def.reg_params.len();
        let ghost c = flush::place_all_params(b, i4);
        proof {
            flush::lemma_place_all_params(b, i2, i3, i4);
            assert(c == flush::place_arrays(o));
        }
        // Strings last: deduplicate identical strings.
        let mut offsets: vstd::hash_map::StringHashMap<u64> = vstd::hash_map::StringHashMap::new();
        let mut k: usize = 0;
        let count: usize = self.strings.len();
        proof {
            flush::lemma_waiting_inv(c, 0, i2, i3, i4);
        }
        while k < count
            invariant
                k <= count,
                count == c.def.strings.len(),
                self@ == c.def,
                flush::waiting(c, 0, i2, i3, i4),
                flush::all_strings(o) == c.def.strings,
                c == flush::place_arrays(o),
                o == joined(old(arena)@, old(self)@),
                flush::first_foreign(c.def.strings, k as nat) is None,
                arena.ptr_size == old(arena).ptr_size,
                arena@.inv(),
                flush::place_strings(c, k as nat) == (joined(arena@, self@), offsets@),
            decreases count - k,
        {
            let ghost p = joined(arena@, self@);
            proof {
                flush::lemma_place_strings(c, k as nat, i2, i3, i4);
                flush::lemma_place_string(c, k as nat, i2, i3, i4);
            }
            let patch = self.strings[k].0;
            let ghost s = c.def.strings[k as int].1;
            assert(c.def.strings[k as int].0 == patch.pos());
            let found = match offsets.get(self.strings[k].1.as_str()) {
                Some(off) => Some(*off),
                None => None,
            };
            let off: u64 = match found {
                Some(off) => {
                    proof {
                        flush::lemma_known_latin1(c, k as nat, s);
                    }
                    off
                },
                None => {
                    let off: u64 = match arena.string(self.strings[k].1.as_str()) {
                        Ok(off) => off,
                        Err(e) => {
                            proof {
                                flush::lemma_first_foreign(c.def.strings, k as nat);
                                flush::lemma_native(c.def.strings, k as nat, c.def.strings.len());
                            }
                            self.clear();
                            return Err(e);
                        },
                    };
                    offsets.insert(self.strings[k].1.clone(), off);
                    off
                },
            };
            proof {
                layout::lemma_held_bounds(arena@, patch.pos(), arena@.ps, (1nat, k as nat));
            }
            arena.patch(patch, off, arena.ptr_size.bytes(), Ghost((1nat, k as nat)));
            k = k + 1;
        }
        self.clear();
        Ok(())
    }
}

} // verus!
