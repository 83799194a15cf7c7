//! Reading back what was laid out.
//!
//! A blob that is being laid out only ever grows, so what was put into it is
//! still there in the finished blob. The lemmas here follow a layout step by
//! step: where the state after a step grows to the finished blob, so does the
//! state before it, and reading the finished blob at the place of the step gives
//! what the step put there.
use super::bytes::{self, capacity, round_up, un_le};
use super::flush::ptrs;
use super::layout::{self, Image};
use super::model;
use super::out::{self, Out};
use super::reader::{self, is_latin1, reps, to_latin1, Rd, Src};
use vstd::prelude::*;

verus! {

/// The finished blob as a reader sees it.
pub open spec fn src(fin: Out) -> Src {
    Src { data: fin.img.bytes, ps: fin.ps() }
}

/// The reading position where the blob ended.
pub open spec fn here(o: Out) -> Rd {
    Rd { pos: o.len(), err: None }
}

/// Text that a terminated latin-1 string can hold.
pub open spec fn clean(s: Seq<char>) -> bool {
    &&& is_latin1(s)
    &&& forall|i: int| 0 <= i < s.len() ==> (#[trigger] s[i]) as u32 != 0
}

/// Whether the text `s` stands at `off`, which is not 0.
pub open spec fn spells(fin: Out, off: int, s: Seq<char>) -> bool {
    &&& 0 < off
    &&& off + s.len() < fin.len()
    &&& clean(s)
    &&& forall|i: int| 0 <= i < s.len() ==> #[trigger] fin.img.bytes[off + i] == to_latin1(s)[i]
    &&& fin.img.bytes[off + s.len()] == 0
}

/// The pointer at `p`.
pub open spec fn target(fin: Out, p: int) -> int {
    un_le(fin.img.bytes, p, fin.ps()) as int
}

/// Whether the numbers `v` stand at the aligned `off` in pointer-width slots.
pub open spec fn lists(fin: Out, off: int, v: Seq<nat>) -> bool {
    &&& 0 <= off
    &&& off % (fin.ps() as int) == 0
    &&& off + ptrs(fin.ps(), v.len() as int) <= fin.len()
    &&& forall|j: int|
        0 <= j < v.len() && v[j] < capacity(fin.ps()) ==> target(fin, off + ptrs(fin.ps(), j))
            == #[trigger] v[j]
}

/// Whether pointers to the texts `v` stand at the aligned `off`.
pub open spec fn lists_texts(fin: Out, off: int, v: Seq<Seq<char>>) -> bool {
    &&& 0 <= off
    &&& off % (fin.ps() as int) == 0
    &&& off + ptrs(fin.ps(), v.len() as int) <= fin.len()
    &&& forall|j: int|
        0 <= j < v.len() ==> spells(
            fin,
            target(fin, off + ptrs(fin.ps(), j)),
            #[trigger] v[j],
        )
}

/// Whether the parameter table `v` stands at the aligned `off`.
pub open spec fn lists_params(fin: Out, off: int, v: Seq<(u32, Seq<char>)>) -> bool {
    &&& 0 <= off
    &&& off % (fin.ps() as int) == 0
    &&& off + ptrs(fin.ps(), 2 * v.len() as int) <= fin.len()
    &&& forall|j: int|
        0 <= j < v.len() ==> {
            &&& un_le(fin.img.bytes, off + ptrs(fin.ps(), 2 * j), 4) == (#[trigger] v[j]).0
            &&& spells(fin, target(fin, off + ptrs(fin.ps(), 2 * j + 1)), v[j].1)
        }
}

/// The largest offset that a pointer can hold.
pub open spec fn limit(ps: nat) -> int {
    if ps == 4 {
        u32::MAX as int
    } else {
        u64::MAX as int
    }
}

/// A finished blob whose offsets fit in its pointers, and the number of its constants
/// in a count: all out-of-line data is in its place.
#[verifier::opaque]
pub open spec fn settled(fin: Out) -> bool {
    &&& fin.img.inv()
    &&& fin.len() <= limit(fin.ps())
    &&& fin.consts.len() <= i32::MAX
    &&& forall|k: int|
        0 <= k < fin.def.strings.len() ==> spells(
            fin,
            target(fin, (#[trigger] fin.def.strings[k]).0),
            fin.def.strings[k].1,
        )
    &&& forall|k: int|
        0 <= k < fin.def.ptr_arrays.len() ==> lists(
            fin,
            target(fin, (#[trigger] fin.def.ptr_arrays[k]).0),
            fin.def.ptr_arrays[k].1,
        )
    &&& forall|k: int|
        0 <= k < fin.def.string_arrays.len() ==> lists_texts(
            fin,
            target(fin, (#[trigger] fin.def.string_arrays[k]).0),
            fin.def.string_arrays[k].1,
        )
    &&& forall|k: int|
        0 <= k < fin.def.reg_params.len() ==> lists_params(
            fin,
            target(fin, (#[trigger] fin.def.reg_params[k]).0),
            fin.def.reg_params[k].1,
        )
}

pub broadcast proof fn settled_facts(fin: Out)
    requires
        #[trigger] settled(fin),
    ensures
        fin.ps() == 4 || fin.ps() == 8,
        fin.len() <= limit(fin.ps()),
        fin.consts.len() <= i32::MAX,
        fin.img.inv(),
{
    reveal(settled);
    reveal(Image::inv);
}

/// Whether a number fits in `n` bytes.
pub open spec fn fits(v: nat, n: nat) -> bool {
    ||| n == 1 && v < 0x100
    ||| n == 2 && v < 0x1_0000
    ||| n == 4 && v < 0x1_0000_0000
    ||| n == 8 && v < 0x1_0000_0000_0000_0000
}

pub proof fn lemma_back(a: Out, b: Out, fin: Out)
    requires
        a.extends_to(b),
        b.grows_to(fin),
    ensures
        a.grows_to(fin),
        a.ok(),
        b.ok(),
        a.ps() == fin.ps(),
        b.ps() == fin.ps(),
        a.len() <= b.len() <= fin.len(),
{
    out::ext_facts(a, b);
    out::grow_facts(b, fin);
    out::grow_trans(a, b, fin);
}

pub broadcast proof fn back_put(o: Out, n: nat, v: nat, fin: Out)
    requires
        settled(fin),
        o.ok(),
        #[trigger] o.put(n, v).grows_to(fin),
    ensures
        o.grows_to(fin),
        o.put(n, v).ok(),
        o.put(n, v).len() == o.len() + n,
        o.ps() == fin.ps(),
        o.put(n, v).ps() == fin.ps(),
        0 <= o.len(),
        o.len() + n <= fin.len(),
        fits(v, n) ==> un_le(fin.img.bytes, o.len(), n) == v,
        fits(v, n) ==> src(fin).num(here(o), n) == (v, here(o.put(n, v))),
{
    out::ext_put(o, n, v);
    lemma_back(o, o.put(n, v), fin);
    out::ok_ps(o);
    if fits(v, n) {
        bytes::lemma_capacity();
        assert(o.put(n, v).img.grows_to(fin.img)) by {
            reveal(Out::grows_to);
        }
        layout::lemma_put_read(o.img, n, v, fin.img);
    }
}

pub proof fn lemma_i32_bits(v: i32)
    ensures
        (v as u32) as i32 == v,
{
    assert((v as u32) as i32 == v) by (bit_vector);
}

pub proof fn lemma_i16_bits(v: i16)
    ensures
        (v as u16) as i16 == v,
{
    assert((v as u16) as i16 == v) by (bit_vector);
}

pub broadcast proof fn back_i32(o: Out, v: i32, fin: Out)
    requires
        settled(fin),
        o.ok(),
        #[trigger] o.put_i32(v).grows_to(fin),
    ensures
        o.grows_to(fin),
        o.put_i32(v).ok(),
        o.put_i32(v).len() == o.len() + 4,
        o.ps() == fin.ps(),
        o.put_i32(v).ps() == fin.ps(),
        src(fin).i32(here(o)) == (v, here(o.put_i32(v))),
{
    back_put(o, 4, (v as u32) as nat, fin);
    lemma_i32_bits(v);
}

pub broadcast proof fn back_i16(o: Out, v: i16, fin: Out)
    requires
        settled(fin),
        o.ok(),
        #[trigger] o.put_i16(v).grows_to(fin),
    ensures
        o.grows_to(fin),
        o.put_i16(v).ok(),
        o.put_i16(v).len() == o.len() + 2,
        o.ps() == fin.ps(),
        o.put_i16(v).ps() == fin.ps(),
        src(fin).i16(here(o)) == (v, here(o.put_i16(v))),
{
    back_put(o, 2, (v as u16) as nat, fin);
    lemma_i16_bits(v);
}

pub broadcast proof fn back_align(o: Out, n: nat, fin: Out)
    requires
        settled(fin),
        o.ok(),
        n > 0,
        #[trigger] o.align(n).grows_to(fin),
    ensures
        o.grows_to(fin),
        o.align(n).ok(),
        o.align(n).len() == round_up(o.len(), n),
        o.len() <= o.align(n).len() < o.len() + n,
        o.align(n).len() % (n as int) == 0,
        o.ps() == fin.ps(),
        o.align(n).ps() == fin.ps(),
        src(fin).align(here(o), n) == here(o.align(n)),
{
    settled_facts(fin);
    out::ext_align(o, n);
    lemma_back(o, o.align(n), fin);
}

/// The pointer boundary behind every state.
pub broadcast proof fn back_align_ptr(o: Out, fin: Out)
    requires
        settled(fin),
        o.ok(),
        #[trigger] o.align_ptr().grows_to(fin),
    ensures
        o.grows_to(fin),
        o.align_ptr().ok(),
        o.align_ptr().len() == round_up(o.len(), o.ps()),
        o.len() <= o.align_ptr().len() < o.len() + o.ps(),
        o.align_ptr().len() % (o.ps() as int) == 0,
        o.ps() == fin.ps(),
        o.align_ptr().ps() == fin.ps(),
        src(fin).align_ptr(here(o)) == here(o.align_ptr()),
{
    out::ok_ps(o);
    back_align(o, o.ps(), fin);
}

pub broadcast proof fn back_ptr_value(o: Out, v: nat, fin: Out)
    requires
        settled(fin),
        o.ok(),
        #[trigger] o.ptr_value(v).grows_to(fin),
    ensures
        o.grows_to(fin),
        o.ptr_value(v).ok(),
        o.ps() == fin.ps(),
        o.ptr_value(v).ps() == fin.ps(),
        src(fin).ptr(here(o)).1 == here(o.ptr_value(v)),
        v < 0x1_0000_0000 ==> src(fin).ptr(here(o)).0 == v,
        o.ptr_value(v).len() == round_up(o.len(), o.ps()) + o.ps(),
{
    out::ok_ps(o);
    out::ext_align(o, o.ps());
    out::ext_facts(o, o.align_ptr());
    back_put(o.align_ptr(), o.ps(), v, fin);
    back_align(o, o.ps(), fin);
}

pub broadcast proof fn back_slot(o: Out, n: nat, fin: Out)
    requires
        settled(fin),
        o.ok(),
        n > 0,
        #[trigger] o.slot(n).grows_to(fin),
    ensures
        o.grows_to(fin),
        o.slot(n).ok(),
        o.slot(n).len() == o.len() + n,
        o.slot(n).pending(o.len(), n),
        o.ps() == fin.ps(),
        o.slot(n).ps() == fin.ps(),
        0 <= o.len(),
        o.len() + n <= fin.len(),
        src(fin).num(here(o), n) == (un_le(fin.img.bytes, o.len(), n), here(o.slot(n))),
{
    out::ext_slot(o, n);
    lemma_back(o, o.slot(n), fin);
}

/// A pointer-width slot: the reader sees what it was filled with.
pub broadcast proof fn back_ptr_slot(o: Out, fin: Out)
    requires
        settled(fin),
        o.ok(),
        #[trigger] o.ptr_slot().grows_to(fin),
    ensures
        o.grows_to(fin),
        o.ptr_slot().ok(),
        o.ps() == fin.ps(),
        o.ptr_slot().ps() == fin.ps(),
        o.ptr_slot().pending(o.align_ptr().len(), o.ps()),
        o.align_ptr().len() == round_up(o.len(), o.ps()),
        o.len() <= o.align_ptr().len(),
        o.ptr_slot().len() == o.align_ptr().len() + o.ps(),
        src(fin).ptr(here(o)) == (target(fin, o.align_ptr().len()) as u64, here(o.ptr_slot())),
        0 <= target(fin, o.align_ptr().len()) <= u64::MAX,
{
    out::ok_ps(o);
    out::ext_align(o, o.ps());
    out::ext_facts(o, o.align_ptr());
    back_slot(o.align_ptr(), o.ps(), fin);
    back_align(o, o.ps(), fin);
    bytes::lemma_capacity();
    bytes::lemma_un_le_bound(fin.img.bytes, o.align_ptr().len(), o.ps());
}

pub broadcast proof fn back_fill(o: Out, p: int, n: nat, v: nat, fin: Out)
    requires
        settled(fin),
        o.ok(),
        o.pending(p, n),
        #[trigger] o.fill(p, n, v).grows_to(fin),
    ensures
        o.grows_to(fin),
        o.ps() == fin.ps(),
        o.fill(p, n, v).ok(),
        o.fill(p, n, v).len() == o.len(),
        fits(v, n) ==> un_le(fin.img.bytes, p, n) == v,
{
    out::fill_ok(o, p, n, v);
    out::grow_trans(o, o.fill(p, n, v), fin);
    out::grow_facts(o, fin);
    out::ok_ps(o);
    if fits(v, n) {
        bytes::lemma_capacity();
        assert(o.fill(p, n, v).img.grows_to(fin.img)) by {
            reveal(Out::grows_to);
        }
        layout::lemma_fill_read(o.img, p, n, v, (0, 0), fin.img);
    }
}

/// A place put into a pointer slot.
pub broadcast proof fn back_ptr_fill(o: Out, p: int, v: int, fin: Out)
    requires
        settled(fin),
        o.ok(),
        o.pending(p, o.ps()),
        #[trigger] o.ptr_fill(p, v).grows_to(fin),
    ensures
        o.grows_to(fin),
        o.ps() == fin.ps(),
        o.ptr_fill(p, v).ok(),
        o.ptr_fill(p, v).len() == o.len(),
        o.len() <= fin.len(),
        0 <= v <= limit(fin.ps()) ==> target(fin, p) == v,
{
    out::ok_ps(o);
    back_fill(o, p, o.ps(), v as nat, fin);
    out::grow_facts(o, fin);
}

proof fn lemma_ptr_in(fin: Out, p: int)
    requires
        settled(fin),
        0 <= p,
        p % (fin.ps() as int) == 0,
        p + fin.ps() <= fin.len(),
    ensures
        src(fin).ptr(Rd { pos: p, err: None }) == (
            target(fin, p) as u64,
            Rd { pos: p + fin.ps(), err: None },
        ),
        0 <= target(fin, p) <= u64::MAX,
{
    settled_facts(fin);
    layout::lemma_round_up(p, fin.ps());
    bytes::lemma_capacity();
    bytes::lemma_un_le_bound(fin.img.bytes, p, fin.ps());
}

/// A text that stands in the blob is read back.
pub proof fn lemma_string_at(fin: Out, off: int, s: Seq<char>, c: Rd)
    requires
        settled(fin),
        spells(fin, off, s),
        c.err is None,
    ensures
        src(fin).string_at(c, off as u64) == (s, c),
{
    settled_facts(fin);
    let data = fin.img.bytes;
    let e = off + s.len();
    assert forall|j: int| off <= j < e implies data[j] != 0 by {
        assert(data[off + (j - off)] == to_latin1(s)[j - off]);
        assert(s[j - off] as u32 != 0);
        reader::lemma_byte_char(s[j - off]);
    }
    reader::lemma_terminator(data, off, e);
    let t = data.subrange(off, e);
    assert(t =~= to_latin1(s)) by {
        assert forall|i: int| 0 <= i < s.len() implies t[i] == to_latin1(s)[i] by {
            assert(data[off + i] == to_latin1(s)[i]);
        }
    }
    reader::law_latin1_roundtrip(s);
}

/// A string slot: its pointer, and the text it points to.
pub proof fn lemma_text_slot(o: Out, s: Seq<char>, fin: Out)
    requires
        settled(fin),
        o.ok(),
        o.text(s).grows_to(fin),
    ensures
        o.grows_to(fin),
        o.text(s).ok(),
        o.ps() == fin.ps(),
        o.text(s).ps() == fin.ps(),
        o.text(s).len() == round_up(o.len(), o.ps()) + o.ps(),
        src(fin).ptr(here(o)) == (
            target(fin, round_up(o.len(), o.ps())) as u64,
            here(o.text(s)),
        ),
        spells(fin, target(fin, round_up(o.len(), o.ps())), s),
        0 < target(fin, round_up(o.len(), o.ps())) <= u64::MAX,
{
    settled_facts(fin);
    out::ok_ps(o);
    out::ext_text(o, s);
    lemma_back(o, o.text(s), fin);
    out::ext_align(o, o.ps());
    layout::lemma_round_up(o.len(), o.ps());
    let p = round_up(o.len(), o.ps());
    lemma_ptr_in(fin, p);
    assert(src(fin).align_ptr(here(o)) == (Rd { pos: p, err: None }));
    let k = o.def.strings.len() as int;
    assert(o.text(s).def.strings[k] == (p, s));
    assert(fin.def.strings[k] == (p, s) && k < fin.def.strings.len()) by {
        reveal(Out::grows_to);
        reveal(out::starts);
    }
    reveal(settled);
}

pub broadcast proof fn back_text(o: Out, s: Seq<char>, fin: Out)
    requires
        settled(fin),
        o.ok(),
        #[trigger] o.text(s).grows_to(fin),
    ensures
        o.grows_to(fin),
        o.text(s).ok(),
        o.ps() == fin.ps(),
        o.text(s).ps() == fin.ps(),
        src(fin).ptr_string(here(o)) == (s, here(o.text(s))),
{
    lemma_text_slot(o, s, fin);
    lemma_string_at(fin, target(fin, round_up(o.len(), o.ps())), s, here(o.text(s)));
}

/// A slot for out-of-line data: its pointer, and the data it points to.
pub proof fn lemma_ptr_array(o: Out, v: Seq<nat>, fin: Out)
    requires
        settled(fin),
        o.ok(),
        o.ptr_array(v).grows_to(fin),
    ensures
        o.grows_to(fin),
        o.ptr_array(v).ok(),
        o.ps() == fin.ps(),
        o.ptr_array(v).ps() == fin.ps(),
        src(fin).ptr(here(o)) == (
            target(fin, round_up(o.len(), o.ps())) as u64,
            here(o.ptr_array(v)),
        ),
        lists(fin, target(fin, round_up(o.len(), o.ps())), v),
{
    settled_facts(fin);
    out::ok_ps(o);
    out::ext_ptr_array(o, v);
    lemma_back(o, o.ptr_array(v), fin);
    out::ext_align(o, o.ps());
    layout::lemma_round_up(o.len(), o.ps());
    let p = round_up(o.len(), o.ps());
    lemma_ptr_in(fin, p);
    assert(src(fin).align_ptr(here(o)) == (Rd { pos: p, err: None }));
    let k = o.def.ptr_arrays.len() as int;
    assert(o.ptr_array(v).def.ptr_arrays[k] == (p, v));
    assert(fin.def.ptr_arrays[k] == (p, v) && k < fin.def.ptr_arrays.len()) by {
        reveal(Out::grows_to);
        reveal(out::starts);
    }
    reveal(settled);
}

/// A slot for out-of-line data: its pointer, and the data it points to.
pub proof fn lemma_string_array(o: Out, v: Seq<Seq<char>>, fin: Out)
    requires
        settled(fin),
        o.ok(),
        o.string_array(v).grows_to(fin),
    ensures
        o.grows_to(fin),
        o.string_array(v).ok(),
        o.ps() == fin.ps(),
        o.string_array(v).ps() == fin.ps(),
        src(fin).ptr(here(o)) == (
            target(fin, round_up(o.len(), o.ps())) as u64,
            here(o.string_array(v)),
        ),
        lists_texts(fin, target(fin, round_up(o.len(), o.ps())), v),
{
    settled_facts(fin);
    out::ok_ps(o);
    out::ext_string_array(o, v);
    lemma_back(o, o.string_array(v), fin);
    out::ext_align(o, o.ps());
    layout::lemma_round_up(o.len(), o.ps());
    let p = round_up(o.len(), o.ps());
    lemma_ptr_in(fin, p);
    assert(src(fin).align_ptr(here(o)) == (Rd { pos: p, err: None }));
    let k = o.def.string_arrays.len() as int;
    assert(o.string_array(v).def.string_arrays[k] == (p, v));
    assert(fin.def.string_arrays[k] == (p, v) && k < fin.def.string_arrays.len()) by {
        reveal(Out::grows_to);
        reveal(out::starts);
    }
    reveal(settled);
}

/// A slot for out-of-line data: its pointer, and the data it points to.
pub proof fn lemma_reg_params(o: Out, v: Seq<(u32, Seq<char>)>, fin: Out)
    requires
        settled(fin),
        o.ok(),
        o.reg_params(v).grows_to(fin),
    ensures
        o.grows_to(fin),
        o.reg_params(v).ok(),
        o.ps() == fin.ps(),
        o.reg_params(v).ps() == fin.ps(),
        src(fin).ptr(here(o)) == (
            target(fin, round_up(o.len(), o.ps())) as u64,
            here(o.reg_params(v)),
        ),
        lists_params(fin, target(fin, round_up(o.len(), o.ps())), v),
{
    settled_facts(fin);
    out::ok_ps(o);
    out::ext_reg_params(o, v);
    lemma_back(o, o.reg_params(v), fin);
    out::ext_align(o, o.ps());
    layout::lemma_round_up(o.len(), o.ps());
    let p = round_up(o.len(), o.ps());
    lemma_ptr_in(fin, p);
    assert(src(fin).align_ptr(here(o)) == (Rd { pos: p, err: None }));
    let k = o.def.reg_params.len() as int;
    assert(o.reg_params(v).def.reg_params[k] == (p, v));
    assert(fin.def.reg_params[k] == (p, v) && k < fin.def.reg_params.len()) by {
        reveal(Out::grows_to);
        reveal(out::starts);
    }
    reveal(settled);
}

/// A number out of a list in pointer-width slots.
pub proof fn lemma_listed(fin: Out, off: int, v: Seq<nat>, j: int)
    requires
        settled(fin),
        lists(fin, off, v),
        0 <= j < v.len(),
        v[j] < 0x1_0000_0000,
    ensures
        src(fin).ptr(Rd { pos: off + ptrs(fin.ps(), j), err: None }) == (
            v[j] as u64,
            Rd { pos: off + ptrs(fin.ps(), j + 1), err: None },
        ),
{
    settled_facts(fin);
    bytes::lemma_capacity();
    assert(v[j] < capacity(fin.ps()));
    lemma_ptr_in(fin, off + ptrs(fin.ps(), j));
}

/// A text out of a list of pointers to texts.
pub proof fn lemma_listed_text(fin: Out, off: int, v: Seq<Seq<char>>, j: int)
    requires
        settled(fin),
        lists_texts(fin, off, v),
        0 <= j < v.len(),
    ensures
        src(fin).ptr_string(Rd { pos: off + ptrs(fin.ps(), j), err: None }) == (
            v[j],
            Rd { pos: off + ptrs(fin.ps(), j + 1), err: None },
        ),
{
    settled_facts(fin);
    let p = off + ptrs(fin.ps(), j);
    lemma_ptr_in(fin, p);
    assert(spells(fin, target(fin, off + ptrs(fin.ps(), j)), v[j]));
    lemma_string_at(fin, target(fin, p), v[j], Rd { pos: p + fin.ps(), err: None });
}

/// A parameter out of a parameter table.
pub proof fn lemma_listed_param(fin: Out, off: int, v: Seq<(u32, Seq<char>)>, j: int)
    requires
        settled(fin),
        lists_params(fin, off, v),
        0 <= j < v.len(),
    ensures
        ({
            let (r, c) = src(fin).u32(
                src(fin).align_ptr(Rd { pos: off + ptrs(fin.ps(), 2 * j), err: None }),
            );
            let (s, d) = src(fin).ptr_string(c);
            r == v[j].0 && s == v[j].1 && d == (Rd {
                pos: off + ptrs(fin.ps(), 2 * (j + 1)),
                err: None,
            })
        }),
{
    settled_facts(fin);
    let p = off + ptrs(fin.ps(), 2 * j);
    let q = off + ptrs(fin.ps(), 2 * j + 1);
    layout::lemma_round_up(p, fin.ps());
    assert(un_le(fin.img.bytes, p, 4) == v[j].0);
    assert(spells(fin, target(fin, q), v[j].1));
    lemma_ptr_in(fin, q);
    assert(round_up(p + 4, fin.ps()) == q);
    assert(src(fin).align_ptr(Rd { pos: p + 4, err: None }) == (Rd { pos: q, err: None }));
    assert(round_up(q, fin.ps()) == q);
    lemma_string_at(fin, target(fin, q), v[j].1, Rd { pos: q + fin.ps(), err: None });
}

pub broadcast proof fn back_constants(o: Out, v: Seq<model::Value>, fin: Out)
    requires
        settled(fin),
        o.ok(),
        #[trigger] o.constants(v).grows_to(fin),
    ensures
        o.grows_to(fin),
        o.constants(v).ok(),
        o.ps() == fin.ps(),
        o.constants(v).ps() == fin.ps(),
        here(o.constants(v)) == here(o),
        o.consts.len() + v.len() <= fin.consts.len(),
        forall|i: int| 0 <= i < v.len() ==> #[trigger] fin.consts[o.consts.len() + i] == v[i],
{
    out::ext_constants(o, v);
    lemma_back(o, o.constants(v), fin);
    reveal(Out::grows_to);
    reveal(out::starts);
    let t = o.consts + v;
    assert forall|i: int| 0 <= i < v.len() implies #[trigger] fin.consts[o.consts.len() + i]
        == v[i] by {
        assert(t[o.consts.len() + i] == v[i]);
        assert(fin.consts[o.consts.len() + i] == t[o.consts.len() + i]);
    }
}

/// Following a layout from its end.
pub broadcast group group_back {
    settled_facts,
    back_put,
    back_i32,
    back_i16,
    back_align,
    back_align_ptr,
    back_ptr_value,
    back_slot,
    back_ptr_slot,
    back_fill,
    back_ptr_fill,
    back_text,
    back_constants,
}

/// Readings one after another, each starting where the one before ended.
pub proof fn lemma_reps<T>(step: spec_fn(Rd) -> (T, Rd), at: spec_fn(int) -> int, v: Seq<T>, n: nat)
    requires
        n <= v.len(),
        forall|i: int|
            0 <= i < n ==> #[trigger] step(Rd { pos: at(i), err: None }) == (
                v[i],
                Rd { pos: at(i + 1), err: None },
            ),
    ensures
        reps(step, Rd { pos: at(0), err: None }, n) == (
            v.take(n as int),
            Rd { pos: at(n as int), err: None },
        ),
    decreases n,
{
    if n == 0 {
        assert(v.take(0) =~= Seq::<T>::empty());
    } else {
        let m = (n - 1) as nat;
        lemma_reps(step, at, v, m);
        assert(v.take(n as int) =~= v.take(m as int).push(v[m as int]));
        assert(step(Rd { pos: at(m as int), err: None }) == (
            v[m as int],
            Rd { pos: at(m as int + 1), err: None },
        ));
    }
}

} // verus!
