//! What a writer has produced so far: the blob, the constants it refers to, and
//! the out-of-line data that still has to be placed.
use super::bytes::round_up;
use super::layout::{self, Image};
use super::model;
use vstd::prelude::*;

verus! {

/// Out-of-line data, each with the slot that will point to it.
#[verifier::ext_equal]
pub struct Pending {
    pub strings: Seq<(int, Seq<char>)>,
    /// Arrays of pointer-width slots holding raw values.
    pub ptr_arrays: Seq<(int, Seq<nat>)>,
    /// Arrays of pointer-width slots, each pointing to a string.
    pub string_arrays: Seq<(int, Seq<Seq<char>>)>,
    /// (register, name) pairs.
    pub reg_params: Seq<(int, Seq<(u32, Seq<char>)>)>,
}

impl Pending {
    pub open spec fn empty() -> Pending {
        Pending {
            strings: Seq::empty(),
            ptr_arrays: Seq::empty(),
            string_arrays: Seq::empty(),
            reg_params: Seq::empty(),
        }
    }

    pub open spec fn prefix_of(self, later: Pending) -> bool {
        &&& starts(self.strings, later.strings)
        &&& starts(self.ptr_arrays, later.ptr_arrays)
        &&& starts(self.string_arrays, later.string_arrays)
        &&& starts(self.reg_params, later.reg_params)
    }
}

#[verifier::ext_equal]
pub struct Out {
    pub img: Image,
    pub consts: Seq<model::Value>,
    pub def: Pending,
}

/// Whether `t` begins with `s`.
#[verifier::opaque]
pub open spec fn starts<T>(s: Seq<T>, t: Seq<T>) -> bool {
    &&& s.len() <= t.len()
    &&& forall|i: int| 0 <= i < s.len() ==> #[trigger] t[i] == s[i]
}

impl Out {
    pub open spec fn empty(ps: nat) -> Out {
        Out { img: Image::empty(ps), consts: Seq::empty(), def: Pending::empty() }
    }

    /// Size of a pointer in bytes.
    pub open spec fn ps(self) -> nat {
        self.img.ps
    }

    pub open spec fn len(self) -> int {
        self.img.len() as int
    }

    /// Plain bytes.
    pub open spec fn raw(self, b: Seq<u8>) -> Out {
        Out { img: self.img.append(b), ..self }
    }

    /// A number of `n` bytes.
    pub open spec fn put(self, n: nat, v: nat) -> Out {
        Out { img: self.img.put(n, v), ..self }
    }

    /// A signed 4-byte number.
    pub open spec fn put_i32(self, v: i32) -> Out {
        self.put(4, (v as u32) as nat)
    }

    /// A signed 2-byte number.
    pub open spec fn put_i16(self, v: i16) -> Out {
        self.put(2, (v as u16) as nat)
    }

    /// Zeros up to a multiple of `n`.
    pub open spec fn align(self, n: nat) -> Out {
        Out { img: self.img.align(n), ..self }
    }

    /// Zeros up to a multiple of the pointer size.
    pub open spec fn align_ptr(self) -> Out {
        self.align(self.ps())
    }

    /// A pointer-width number, aligned.
    pub open spec fn ptr_value(self, v: nat) -> Out {
        self.align_ptr().put(self.ps(), v)
    }

    /// An empty slot of `n` bytes.
    pub open spec fn slot(self, n: nat) -> Out {
        Out { img: self.img.slot(n, (0, 0)), ..self }
    }

    /// An empty pointer-width slot, aligned. It starts at `self.align_ptr().len()`.
    pub open spec fn ptr_slot(self) -> Out {
        self.align_ptr().slot(self.ps())
    }

    /// `v` in the empty slot of `n` bytes at `p`.
    pub open spec fn fill(self, p: int, n: nat, v: nat) -> Out {
        Out { img: self.img.fill(p, n, v), ..self }
    }

    /// `v` in the empty pointer-width slot at `p`.
    pub open spec fn ptr_fill(self, p: int, v: int) -> Out {
        self.fill(p, self.ps(), v as nat)
    }

    /// Whether an empty slot of `n` bytes starts at `p`.
    pub open spec fn pending(self, p: int, n: nat) -> bool {
        self.img.holds(p, n, (0, 0))
    }

    /// The image is sound, and what is to be placed has its slots waiting.
    #[verifier::opaque]
    pub open spec fn ok(self) -> bool {
        &&& self.img.inv()
        &&& forall|k: int|
            0 <= k < self.def.strings.len() ==> self.img.holds(
                (#[trigger] self.def.strings[k]).0,
                self.ps(),
                (1, k as nat),
            )
        &&& forall|k: int|
            0 <= k < self.def.ptr_arrays.len() ==> self.img.holds(
                (#[trigger] self.def.ptr_arrays[k]).0,
                self.ps(),
                (2, k as nat),
            )
        &&& forall|k: int|
            0 <= k < self.def.string_arrays.len() ==> self.img.holds(
                (#[trigger] self.def.string_arrays[k]).0,
                self.ps(),
                (3, k as nat),
            )
        &&& forall|k: int|
            0 <= k < self.def.reg_params.len() ==> self.img.holds(
                (#[trigger] self.def.reg_params[k]).0,
                self.ps(),
                (4, k as nat),
            )
    }

    /// An aligned pointer-width slot for out-of-line data.
    pub open spec fn tagged_slot(self, tag: (nat, nat)) -> Out {
        let a = self.align_ptr();
        Out { img: a.img.slot(self.ps(), tag), ..a }
    }

    /// A pointer to a string that is placed later.
    pub open spec fn text(self, s: Seq<char>) -> Out {
        let o = self.tagged_slot((1, self.def.strings.len()));
        Out {
            def: Pending { strings: o.def.strings.push((self.align_ptr().len(), s)), ..o.def },
            ..o
        }
    }

    /// A pointer to an array of numbers that is placed later.
    pub open spec fn ptr_array(self, v: Seq<nat>) -> Out {
        let o = self.tagged_slot((2, self.def.ptr_arrays.len()));
        Out {
            def: Pending { ptr_arrays: o.def.ptr_arrays.push((self.align_ptr().len(), v)), ..o.def },
            ..o
        }
    }

    /// A pointer to an array of strings that is placed later.
    pub open spec fn string_array(self, v: Seq<Seq<char>>) -> Out {
        let o = self.tagged_slot((3, self.def.string_arrays.len()));
        Out {
            def: Pending {
                string_arrays: o.def.string_arrays.push((self.align_ptr().len(), v)),
                ..o.def
            },
            ..o
        }
    }

    /// A pointer to a parameter table that is placed later.
    pub open spec fn reg_params(self, v: Seq<(u32, Seq<char>)>) -> Out {
        let o = self.tagged_slot((4, self.def.reg_params.len()));
        Out {
            def: Pending { reg_params: o.def.reg_params.push((self.align_ptr().len(), v)), ..o.def },
            ..o
        }
    }

    /// More constants.
    pub open spec fn constants(self, v: Seq<model::Value>) -> Out {
        Out { consts: self.consts + v, ..self }
    }

    /// `later` comes of `self` by appending, reserving and filling.
    #[verifier::opaque]
    pub open spec fn grows_to(self, later: Out) -> bool {
        &&& self.img.grows_to(later.img)
        &&& starts(self.consts, later.consts)
        &&& self.def.prefix_of(later.def)
    }

    /// As [`Out::grows_to`], with the slots of `self` left as they were.
    #[verifier::opaque]
    pub open spec fn extends_to(self, later: Out) -> bool {
        &&& self.ok() && later.ok()
        &&& self.img.extends_to(later.img)
        &&& starts(self.consts, later.consts)
        &&& self.def.prefix_of(later.def)
    }
}

pub proof fn lemma_starts_trans<T>(a: Seq<T>, b: Seq<T>, c: Seq<T>)
    requires
        starts(a, b),
        starts(b, c),
    ensures
        starts(a, c),
{
    reveal(starts);
    assert forall|i: int| 0 <= i < a.len() implies #[trigger] c[i] == a[i] by {
        assert(b[i] == a[i]);
    }
}

pub proof fn lemma_starts_refl<T>(a: Seq<T>)
    ensures
        starts(a, a),
{
    reveal(starts);
}

proof fn lemma_ok_kept(a: Out, b: Out)
    requires
        a.ok(),
        a.img.extends_to(b.img),
        a.def == b.def,
    ensures
        b.ok(),
{
    reveal(Out::ok);
    layout::lemma_extends(a.img, b.img);
    assert forall|k: int| 0 <= k < b.def.strings.len() implies b.img.holds(
        (#[trigger] b.def.strings[k]).0,
        b.ps(),
        (1, k as nat),
    ) by {
        layout::lemma_held_kept(a.img, b.img, a.def.strings[k].0, a.ps(), (1, k as nat));
    }
    assert forall|k: int| 0 <= k < b.def.ptr_arrays.len() implies b.img.holds(
        (#[trigger] b.def.ptr_arrays[k]).0,
        b.ps(),
        (2, k as nat),
    ) by {
        layout::lemma_held_kept(a.img, b.img, a.def.ptr_arrays[k].0, a.ps(), (2, k as nat));
    }
    assert forall|k: int| 0 <= k < b.def.string_arrays.len() implies b.img.holds(
        (#[trigger] b.def.string_arrays[k]).0,
        b.ps(),
        (3, k as nat),
    ) by {
        layout::lemma_held_kept(a.img, b.img, a.def.string_arrays[k].0, a.ps(), (3, k as nat));
    }
    assert forall|k: int| 0 <= k < b.def.reg_params.len() implies b.img.holds(
        (#[trigger] b.def.reg_params[k]).0,
        b.ps(),
        (4, k as nat),
    ) by {
        layout::lemma_held_kept(a.img, b.img, a.def.reg_params[k].0, a.ps(), (4, k as nat));
    }
}

pub broadcast proof fn ok_ps(a: Out)
    requires
        #[trigger] a.ok(),
    ensures
        a.ps() == 4 || a.ps() == 8,
        a.img.inv(),
{
    reveal(Out::ok);
    reveal(Image::inv);
}

pub proof fn lemma_empty(ps: nat)
    requires
        ps == 4 || ps == 8,
    ensures
        Out::empty(ps).ok(),
{
    layout::lemma_empty(ps);
    reveal(Out::ok);
}

pub broadcast proof fn ext_facts(a: Out, b: Out)
    requires
        #[trigger] a.extends_to(b),
    ensures
        a.ok(),
        b.ok(),
        a.ps() == b.ps(),
        a.len() <= b.len(),
        a.grows_to(b),
        a.ps() == 4 || a.ps() == 8,
{
    reveal(Out::extends_to);
    reveal(Out::grows_to);
    layout::lemma_extends(a.img, b.img);
}

pub broadcast proof fn grow_facts(a: Out, b: Out)
    requires
        #[trigger] a.grows_to(b),
    ensures
        a.ps() == b.ps(),
        a.len() <= b.len(),
        a.ps() == 4 || a.ps() == 8,
        a.img.inv(),
        b.img.inv(),
{
    reveal(Out::grows_to);
    layout::lemma_grows(a.img, b.img);
}

pub broadcast proof fn ext_trans(a: Out, b: Out, c: Out)
    requires
        #[trigger] a.extends_to(b),
        #[trigger] b.extends_to(c),
    ensures
        a.extends_to(c),
{
    reveal(Out::extends_to);
    layout::lemma_extends_trans(a.img, b.img, c.img);
    lemma_starts_trans(a.consts, b.consts, c.consts);
    lemma_starts_trans(a.def.strings, b.def.strings, c.def.strings);
    lemma_starts_trans(a.def.ptr_arrays, b.def.ptr_arrays, c.def.ptr_arrays);
    lemma_starts_trans(a.def.string_arrays, b.def.string_arrays, c.def.string_arrays);
    lemma_starts_trans(a.def.reg_params, b.def.reg_params, c.def.reg_params);
}

pub proof fn grow_trans(a: Out, b: Out, c: Out)
    requires
        a.grows_to(b),
        b.grows_to(c),
    ensures
        a.grows_to(c),
{
    reveal(Out::grows_to);
    layout::lemma_grows_trans(a.img, b.img, c.img);
    lemma_starts_trans(a.consts, b.consts, c.consts);
    lemma_starts_trans(a.def.strings, b.def.strings, c.def.strings);
    lemma_starts_trans(a.def.ptr_arrays, b.def.ptr_arrays, c.def.ptr_arrays);
    lemma_starts_trans(a.def.string_arrays, b.def.string_arrays, c.def.string_arrays);
    lemma_starts_trans(a.def.reg_params, b.def.reg_params, c.def.reg_params);
}

pub proof fn ext_refl(a: Out)
    requires
        a.ok(),
    ensures
        a.extends_to(a),
{
    reveal(Out::extends_to);
    reveal(starts);
    ok_ps(a);
    layout::lemma_refl(a.img);
}

proof fn lemma_img_ext(a: Out, b: Out)
    requires
        a.ok(),
        a.img.extends_to(b.img),
        a.def == b.def,
        starts(a.consts, b.consts),
    ensures
        a.extends_to(b),
{
    reveal(Out::extends_to);
    reveal(starts);
    lemma_ok_kept(a, b);
}

pub broadcast proof fn ext_raw(a: Out, b: Seq<u8>)
    requires
        a.ok(),
    ensures
        a.extends_to(#[trigger] a.raw(b)),
        a.raw(b).len() == a.len() + b.len(),
{
    ok_ps(a);
    layout::lemma_append(a.img, b);
    lemma_starts_refl(a.consts);
    lemma_img_ext(a, a.raw(b));
}

pub broadcast proof fn ext_put(a: Out, n: nat, v: nat)
    requires
        a.ok(),
    ensures
        a.extends_to(#[trigger] a.put(n, v)),
        a.put(n, v).len() == a.len() + n,
{
    ok_ps(a);
    layout::lemma_put(a.img, n, v);
    lemma_starts_refl(a.consts);
    lemma_img_ext(a, a.put(n, v));
}

pub broadcast proof fn ext_align(a: Out, n: nat)
    requires
        a.ok(),
        n > 0,
    ensures
        a.extends_to(#[trigger] a.align(n)),
        a.align(n).len() == round_up(a.len(), n),
        a.len() <= a.align(n).len() < a.len() + n,
        a.align(n).len() % (n as int) == 0,
{
    ok_ps(a);
    layout::lemma_align(a.img, n);
    layout::lemma_round_up_to(a.len(), n);
    lemma_starts_refl(a.consts);
    lemma_img_ext(a, a.align(n));
}

pub broadcast proof fn ext_slot(a: Out, n: nat)
    requires
        a.ok(),
        n > 0,
    ensures
        a.extends_to(#[trigger] a.slot(n)),
        a.slot(n).len() == a.len() + n,
        a.slot(n).pending(a.len(), n),
{
    ok_ps(a);
    layout::lemma_slot(a.img, n, (0, 0));
    lemma_starts_refl(a.consts);
    lemma_img_ext(a, a.slot(n));
}

pub broadcast proof fn ext_pending(a: Out, b: Out, p: int, n: nat)
    requires
        #[trigger] a.extends_to(b),
        #[trigger] a.pending(p, n),
    ensures
        b.pending(p, n),
        0 <= p,
        p + n <= a.len(),
        0 < n,
{
    reveal(Out::extends_to);
    layout::lemma_extends(a.img, b.img);
    layout::lemma_held_kept(a.img, b.img, p, n, (0, 0));
    layout::lemma_held_bounds(a.img, p, n, (0, 0));
}

pub broadcast proof fn fill_ok(b: Out, p: int, n: nat, v: nat)
    requires
        b.ok(),
        b.pending(p, n),
    ensures
        b.grows_to(#[trigger] b.fill(p, n, v)),
        b.fill(p, n, v).ok(),
        b.fill(p, n, v).len() == b.len(),
        b.fill(p, n, v).ps() == b.ps(),
{
    ok_ps(b);
    reveal(Out::grows_to);
    reveal(starts);
    layout::lemma_fill(b.img, p, n, v, (0, 0));
    let c = b.fill(p, n, v);
    layout::lemma_grows(b.img, c.img);
    reveal(Out::ok);
    reveal(Image::holds);
    assert forall|k: int| 0 <= k < c.def.strings.len() implies c.img.holds(
        (#[trigger] c.def.strings[k]).0,
        c.ps(),
        (1, k as nat),
    ) by {
        layout::lemma_fill_others(b.img, p, n, v, b.def.strings[k].0, b.ps(), (1, k as nat));
    }
    assert forall|k: int| 0 <= k < c.def.ptr_arrays.len() implies c.img.holds(
        (#[trigger] c.def.ptr_arrays[k]).0,
        c.ps(),
        (2, k as nat),
    ) by {
        layout::lemma_fill_others(b.img, p, n, v, b.def.ptr_arrays[k].0, b.ps(), (2, k as nat));
    }
    assert forall|k: int| 0 <= k < c.def.string_arrays.len() implies c.img.holds(
        (#[trigger] c.def.string_arrays[k]).0,
        c.ps(),
        (3, k as nat),
    ) by {
        layout::lemma_fill_others(b.img, p, n, v, b.def.string_arrays[k].0, b.ps(), (3, k as nat));
    }
    assert forall|k: int| 0 <= k < c.def.reg_params.len() implies c.img.holds(
        (#[trigger] c.def.reg_params[k]).0,
        c.ps(),
        (4, k as nat),
    ) by {
        layout::lemma_fill_others(b.img, p, n, v, b.def.reg_params[k].0, b.ps(), (4, k as nat));
    }
}

pub broadcast proof fn ext_fill(a: Out, b: Out, p: int, n: nat, v: nat)
    requires
        #[trigger] a.extends_to(b),
        b.pending(p, n),
        a.len() <= p,
    ensures
        a.extends_to(#[trigger] b.fill(p, n, v)),
        b.fill(p, n, v).len() == b.len(),
{
    ext_facts(a, b);
    fill_ok(b, p, n, v);
    reveal(Out::extends_to);
    layout::lemma_fill_extends(a.img, b.img, p, n, v, (0, 0));
}

pub broadcast proof fn fill_others(b: Out, p: int, n: nat, v: nat, q: int, m: nat)
    requires
        #[trigger] b.pending(q, m),
        p != q,
    ensures
        (#[trigger] b.fill(p, n, v)).pending(q, m),
{
    layout::lemma_fill_others(b.img, p, n, v, q, m, (0, 0));
}

pub proof fn lemma_tagged_slot(a: Out, tag: (nat, nat))
    requires
        a.ok(),
    ensures
        a.extends_to(a.tagged_slot(tag)),
        a.tagged_slot(tag).len() == round_up(a.len(), a.ps()) + a.ps(),
        a.tagged_slot(tag).img.holds(a.align_ptr().len(), a.ps(), tag),
        a.align_ptr().len() == round_up(a.len(), a.ps()),
        a.align_ptr().img.extends_to(a.tagged_slot(tag).img),
{
    ok_ps(a);
    ext_align(a, a.ps());
    let b = a.align_ptr();
    ext_facts(a, b);
    ok_ps(b);
    layout::lemma_slot(b.img, a.ps(), tag);
    lemma_starts_refl(b.consts);
    lemma_img_ext(b, a.tagged_slot(tag));
    ext_trans(a, b, a.tagged_slot(tag));
}

pub broadcast proof fn ext_text(a: Out, s: Seq<char>)
    requires
        a.ok(),
    ensures
        a.extends_to(#[trigger] a.text(s)),
        a.text(s).len() == round_up(a.len(), a.ps()) + a.ps(),
{
    let tag = (1nat, a.def.strings.len());
    lemma_tagged_slot(a, tag);
    let b = a.tagged_slot(tag);
    let c = a.text(s);
    ext_facts(a, b);
    assert(c.ok()) by {
        reveal(Out::ok);
    }
    reveal(Out::extends_to);
    reveal(starts);
}

pub broadcast proof fn ext_ptr_array(a: Out, s: Seq<nat>)
    requires
        a.ok(),
    ensures
        a.extends_to(#[trigger] a.ptr_array(s)),
        a.ptr_array(s).len() == round_up(a.len(), a.ps()) + a.ps(),
{
    let tag = (2nat, a.def.ptr_arrays.len());
    lemma_tagged_slot(a, tag);
    let b = a.tagged_slot(tag);
    let c = a.ptr_array(s);
    ext_facts(a, b);
    assert(c.ok()) by {
        reveal(Out::ok);
    }
    reveal(Out::extends_to);
    reveal(starts);
}

pub broadcast proof fn ext_string_array(a: Out, s: Seq<Seq<char>>)
    requires
        a.ok(),
    ensures
        a.extends_to(#[trigger] a.string_array(s)),
        a.string_array(s).len() == round_up(a.len(), a.ps()) + a.ps(),
{
    let tag = (3nat, a.def.string_arrays.len());
    lemma_tagged_slot(a, tag);
    let b = a.tagged_slot(tag);
    let c = a.string_array(s);
    ext_facts(a, b);
    assert(c.ok()) by {
        reveal(Out::ok);
    }
    reveal(Out::extends_to);
    reveal(starts);
}

pub broadcast proof fn ext_reg_params(a: Out, s: Seq<(u32, Seq<char>)>)
    requires
        a.ok(),
    ensures
        a.extends_to(#[trigger] a.reg_params(s)),
        a.reg_params(s).len() == round_up(a.len(), a.ps()) + a.ps(),
{
    let tag = (4nat, a.def.reg_params.len());
    lemma_tagged_slot(a, tag);
    let b = a.tagged_slot(tag);
    let c = a.reg_params(s);
    ext_facts(a, b);
    assert(c.ok()) by {
        reveal(Out::ok);
    }
    reveal(Out::extends_to);
    reveal(starts);
}

/// The constants play no part in whether slots wait.
pub proof fn lemma_ok_consts(a: Out, v: Seq<model::Value>)
    requires
        a.ok(),
    ensures
        (Out { consts: v, ..a }).ok(),
{
    reveal(Out::ok);
}

pub broadcast proof fn ext_constants(a: Out, v: Seq<model::Value>)
    requires
        a.ok(),
    ensures
        a.extends_to(#[trigger] a.constants(v)),
        a.constants(v).len() == a.len(),
{
    ext_refl(a);
    reveal(Out::extends_to);
    reveal(Out::ok);
    reveal(starts);
}

/// Laying out only ever adds.
pub broadcast group group_ext {
    ok_ps,
    ext_facts,
    ext_trans,
    ext_raw,
    ext_put,
    ext_align,
    ext_slot,
    ext_pending,
    ext_fill,
    fill_ok,
    fill_others,
    ext_text,
    ext_ptr_array,
    ext_string_array,
    ext_reg_params,
    ext_constants,
}

} // verus!
