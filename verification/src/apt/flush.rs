//! Placing out-of-line data behind the structs that point to it.
use super::bytes::round_up;
use super::layout::{self, Image};
use super::out::{self, Out};
use super::reader::{is_latin1, to_latin1};
use vstd::prelude::*;

verus! {

/// `n` pointers, for a pointer size of 4 or 8.
pub open spec fn ptrs(ps: nat, n: int) -> int {
    if ps == 4 {
        4 * n
    } else {
        8 * n
    }
}

/// Pointer-width numbers one after another.
pub open spec fn ptr_values(o: Out, v: Seq<nat>, n: nat) -> Out
    decreases n,
{
    if n == 0 {
        o
    } else {
        ptr_values(o, v, (n - 1) as nat).ptr_value(v[n - 1])
    }
}

/// An array of numbers, and its offset in the slot that points to it.
pub open spec fn place_ptr_array(o: Out, e: (int, Seq<nat>)) -> Out {
    let a = o.align_ptr();
    ptr_values(a, e.1, e.1.len()).ptr_fill(e.0, a.len())
}

/// The first `n` of the waiting arrays of numbers.
pub open spec fn place_ptr_arrays(o: Out, n: nat) -> Out
    decreases n,
{
    if n == 0 {
        o
    } else {
        place_ptr_array(place_ptr_arrays(o, (n - 1) as nat), o.def.ptr_arrays[n - 1])
    }
}

/// Pointers to strings one after another.
pub open spec fn texts(o: Out, v: Seq<Seq<char>>, n: nat) -> Out
    decreases n,
{
    if n == 0 {
        o
    } else {
        texts(o, v, (n - 1) as nat).text(v[n - 1])
    }
}

/// An array of pointers to strings, and its offset in the slot that points to it.
pub open spec fn place_string_array(o: Out, e: (int, Seq<Seq<char>>)) -> Out {
    let a = o.align_ptr();
    texts(a, e.1, e.1.len()).ptr_fill(e.0, a.len())
}

/// The first `n` of the waiting arrays of strings.
pub open spec fn place_string_arrays(o: Out, n: nat) -> Out
    decreases n,
{
    if n == 0 {
        o
    } else {
        place_string_array(place_string_arrays(o, (n - 1) as nat), o.def.string_arrays[n - 1])
    }
}

/// Registers with pointers to their names one after another.
pub open spec fn reg_texts(o: Out, v: Seq<(u32, Seq<char>)>, n: nat) -> Out
    decreases n,
{
    if n == 0 {
        o
    } else {
        reg_texts(o, v, (n - 1) as nat).align_ptr().put(4, v[n - 1].0 as nat).text(v[n - 1].1)
    }
}

/// A parameter table, and its offset in the slot that points to it.
pub open spec fn place_params(o: Out, e: (int, Seq<(u32, Seq<char>)>)) -> Out {
    let a = o.align_ptr();
    reg_texts(a, e.1, e.1.len()).ptr_fill(e.0, a.len())
}

/// The first `n` of the waiting parameter tables.
pub open spec fn place_all_params(o: Out, n: nat) -> Out
    decreases n,
{
    if n == 0 {
        o
    } else {
        place_params(place_all_params(o, (n - 1) as nat), o.def.reg_params[n - 1])
    }
}

/// The first `n` of the waiting strings, each text once; with the offsets of the
/// texts placed so far.
pub open spec fn place_strings(o: Out, n: nat) -> (Out, Map<Seq<char>, u64>)
    decreases n,
{
    if n == 0 {
        (o, Map::empty())
    } else {
        let (p, known) = place_strings(o, (n - 1) as nat);
        let (pos, s) = o.def.strings[n - 1];
        if known.dom().contains(s) {
            (p.ptr_fill(pos, known[s] as int), known)
        } else {
            (
                p.raw(to_latin1(s).push(0)).ptr_fill(pos, (p.len() as u64) as int),
                known.insert(s, p.len() as u64),
            )
        }
    }
}

/// Everything but the strings.
pub open spec fn place_arrays(o: Out) -> Out {
    let a = place_ptr_arrays(o, o.def.ptr_arrays.len());
    let b = place_string_arrays(a, o.def.string_arrays.len());
    place_all_params(b, o.def.reg_params.len())
}

/// The blob once everything is placed: arrays of numbers, arrays of strings,
/// parameter tables, then the strings.
pub open spec fn flush(o: Out) -> Out {
    let c = place_arrays(o);
    place_strings(c, c.def.strings.len()).0
}

/// The strings that are to be placed, in the order in which they are.
pub open spec fn all_strings(o: Out) -> Seq<(int, Seq<char>)> {
    place_arrays(o).def.strings
}

/// The first of the first `n` strings that latin-1 cannot hold.
pub open spec fn first_foreign(s: Seq<(int, Seq<char>)>, n: nat) -> Option<Seq<char>>
    decreases n,
{
    if n == 0 {
        None
    } else {
        match first_foreign(s, (n - 1) as nat) {
            Some(t) => Some(t),
            None => if is_latin1(s[n - 1].1) {
                None
            } else {
                Some(s[n - 1].1)
            },
        }
    }
}

/// How many of the first `n` strings stand before the first that latin-1 cannot hold.
pub open spec fn native(s: Seq<(int, Seq<char>)>, n: nat) -> nat
    decreases n,
{
    if n == 0 {
        0
    } else if first_foreign(s, (n - 1) as nat) is Some || !is_latin1(s[n - 1].1) {
        native(s, (n - 1) as nat)
    } else {
        n
    }
}

/// The blob where a string stops the placing: the arrays, and the strings before it.
pub open spec fn flushed_until(o: Out) -> Out {
    let c = place_arrays(o);
    place_strings(c, native(c.def.strings, c.def.strings.len())).0
}

/// The image is sound, and what is left to be placed has its slots waiting:
/// strings from `i1` on, arrays of numbers from `i2` on, arrays of strings from
/// `i3` on, parameter tables from `i4` on.
#[verifier::opaque]
pub open spec fn waiting(o: Out, i1: nat, i2: nat, i3: nat, i4: nat) -> bool {
    &&& o.img.inv()
    &&& forall|k: int|
        i1 <= k < o.def.strings.len() ==> o.img.holds(
            (#[trigger] o.def.strings[k]).0,
            o.ps(),
            (1, k as nat),
        )
    &&& forall|k: int|
        i2 <= k < o.def.ptr_arrays.len() ==> o.img.holds(
            (#[trigger] o.def.ptr_arrays[k]).0,
            o.ps(),
            (2, k as nat),
        )
    &&& forall|k: int|
        i3 <= k < o.def.string_arrays.len() ==> o.img.holds(
            (#[trigger] o.def.string_arrays[k]).0,
            o.ps(),
            (3, k as nat),
        )
    &&& forall|k: int|
        i4 <= k < o.def.reg_params.len() ==> o.img.holds(
            (#[trigger] o.def.reg_params[k]).0,
            o.ps(),
            (4, k as nat),
        )
}

pub proof fn lemma_waiting_start(o: Out)
    requires
        o.ok(),
    ensures
        waiting(o, 0, 0, 0, 0),
{
    reveal(Out::ok);
    reveal(waiting);
}

pub proof fn lemma_waiting_inv(o: Out, i1: nat, i2: nat, i3: nat, i4: nat)
    requires
        waiting(o, i1, i2, i3, i4),
    ensures
        o.img.inv(),
        o.ps() == 4 || o.ps() == 8,
{
    reveal(waiting);
    reveal(Image::inv);
}

/// Appending keeps what waits waiting.
pub proof fn lemma_waiting_ext(a: Out, b: Out, i1: nat, i2: nat, i3: nat, i4: nat)
    requires
        waiting(a, i1, i2, i3, i4),
        a.img.extends_to(b.img),
        a.def == b.def,
    ensures
        waiting(b, i1, i2, i3, i4),
{
    reveal(waiting);
    layout::lemma_extends(a.img, b.img);
    assert forall|k: int| i1 <= k < b.def.strings.len() implies b.img.holds(
        (#[trigger] b.def.strings[k]).0,
        b.ps(),
        (1, k as nat),
    ) by {
        layout::lemma_held_kept(a.img, b.img, a.def.strings[k].0, a.ps(), (1, k as nat));
    }
    assert forall|k: int| i2 <= k < b.def.ptr_arrays.len() implies b.img.holds(
        (#[trigger] b.def.ptr_arrays[k]).0,
        b.ps(),
        (2, k as nat),
    ) by {
        layout::lemma_held_kept(a.img, b.img, a.def.ptr_arrays[k].0, a.ps(), (2, k as nat));
    }
    assert forall|k: int| i3 <= k < b.def.string_arrays.len() implies b.img.holds(
        (#[trigger] b.def.string_arrays[k]).0,
        b.ps(),
        (3, k as nat),
    ) by {
        layout::lemma_held_kept(a.img, b.img, a.def.string_arrays[k].0, a.ps(), (3, k as nat));
    }
    assert forall|k: int| i4 <= k < b.def.reg_params.len() implies b.img.holds(
        (#[trigger] b.def.reg_params[k]).0,
        b.ps(),
        (4, k as nat),
    ) by {
        layout::lemma_held_kept(a.img, b.img, a.def.reg_params[k].0, a.ps(), (4, k as nat));
    }
}

/// Filling one slot keeps the others waiting.
proof fn lemma_waiting_fill(
    b: Out,
    p: int,
    v: nat,
    tag: (nat, nat),
    i: (nat, nat, nat, nat),
    j: (nat, nat, nat, nat),
)
    requires
        waiting(b, i.0, i.1, i.2, i.3),
        b.img.holds(p, b.ps(), tag),
        i.0 <= j.0,
        i.1 <= j.1,
        i.2 <= j.2,
        i.3 <= j.3,
        tag.0 == 1 ==> tag.1 < j.0,
        tag.0 == 2 ==> tag.1 < j.1,
        tag.0 == 3 ==> tag.1 < j.2,
        tag.0 == 4 ==> tag.1 < j.3,
    ensures
        waiting(b.fill(p, b.ps(), v), j.0, j.1, j.2, j.3),
        b.img.grows_to(b.fill(p, b.ps(), v).img),
        b.fill(p, b.ps(), v).len() == b.len(),
{
    reveal(waiting);
    reveal(Image::holds);
    layout::lemma_fill(b.img, p, b.ps(), v, tag);
    let c = b.fill(p, b.ps(), v);
    layout::lemma_grows(b.img, c.img);
    assert forall|k: int| j.0 <= k < c.def.strings.len() implies c.img.holds(
        (#[trigger] c.def.strings[k]).0,
        c.ps(),
        (1, k as nat),
    ) by {
        layout::lemma_fill_others(b.img, p, b.ps(), v, b.def.strings[k].0, b.ps(), (1, k as nat));
    }
    assert forall|k: int| j.1 <= k < c.def.ptr_arrays.len() implies c.img.holds(
        (#[trigger] c.def.ptr_arrays[k]).0,
        c.ps(),
        (2, k as nat),
    ) by {
        layout::lemma_fill_others(b.img, p, b.ps(), v, b.def.ptr_arrays[k].0, b.ps(), (2, k as nat));
    }
    assert forall|k: int| j.2 <= k < c.def.string_arrays.len() implies c.img.holds(
        (#[trigger] c.def.string_arrays[k]).0,
        c.ps(),
        (3, k as nat),
    ) by {
        layout::lemma_fill_others(
            b.img,
            p,
            b.ps(),
            v,
            b.def.string_arrays[k].0,
            b.ps(),
            (3, k as nat),
        );
    }
    assert forall|k: int| j.3 <= k < c.def.reg_params.len() implies c.img.holds(
        (#[trigger] c.def.reg_params[k]).0,
        c.ps(),
        (4, k as nat),
    ) by {
        layout::lemma_fill_others(b.img, p, b.ps(), v, b.def.reg_params[k].0, b.ps(), (4, k as nat));
    }
}

/// Aligning, at the level of images.
pub proof fn lemma_align_img(a: Out)
    requires
        a.img.inv(),
    ensures
        a.img.extends_to(a.align_ptr().img),
        a.align_ptr().img.inv(),
        a.align_ptr().len() == round_up(a.len(), a.ps()),
        a.align_ptr().len() % (a.ps() as int) == 0,
        a.align_ptr().ps() == a.ps(),
        a.ps() == 4 || a.ps() == 8,
        a.align_ptr().def == a.def,
{
    reveal(Image::inv);
    layout::lemma_align(a.img, a.ps());
    layout::lemma_round_up(a.len(), a.ps());
    layout::lemma_extends(a.img, a.align_ptr().img);
}

pub proof fn lemma_ptr_values(o: Out, v: Seq<nat>, n: nat)
    requires
        o.img.inv(),
        n <= v.len(),
    ensures
        o.img.extends_to(ptr_values(o, v, n).img),
        ptr_values(o, v, n).def == o.def,
        ptr_values(o, v, n).consts == o.consts,
        ptr_values(o, v, n).ps() == o.ps(),
        o.len() % (o.ps() as int) == 0 ==> ptr_values(o, v, n).len() == o.len() + ptrs(
            o.ps(),
            n as int,
        ),
    decreases n,
{
    if n == 0 {
        layout::lemma_refl(o.img);
    } else {
        let m = (n - 1) as nat;
        lemma_ptr_values(o, v, m);
        let b = ptr_values(o, v, m);
        layout::lemma_extends(o.img, b.img);
        lemma_align_img(b);
        let c = b.align_ptr();
        layout::lemma_put(c.img, o.ps(), v[n - 1]);
        layout::lemma_extends_trans(o.img, b.img, c.img);
        layout::lemma_extends_trans(o.img, c.img, c.put(o.ps(), v[n - 1]).img);
        layout::lemma_round_up(b.len(), o.ps());
        layout::lemma_extends(c.img, c.put(o.ps(), v[n - 1]).img);
    }
}

/// A string slot keeps what waits waiting and waits itself.
pub proof fn lemma_text_waiting(a: Out, s: Seq<char>, i1: nat, i2: nat, i3: nat, i4: nat)
    requires
        waiting(a, i1, i2, i3, i4),
    ensures
        waiting(a.text(s), i1, i2, i3, i4),
        a.img.extends_to(a.text(s).img),
        a.text(s).len() == round_up(a.len(), a.ps()) + a.ps(),
        a.text(s).ps() == a.ps(),
{
    lemma_waiting_inv(a, i1, i2, i3, i4);
    lemma_align_img(a);
    let b = a.align_ptr();
    let tag = (1nat, a.def.strings.len());
    layout::lemma_slot(b.img, a.ps(), tag);
    let c = a.tagged_slot(tag);
    layout::lemma_extends_trans(a.img, b.img, c.img);
    layout::lemma_extends(a.img, c.img);
    lemma_waiting_ext(a, c, i1, i2, i3, i4);
    reveal(waiting);
}

pub proof fn lemma_texts(o: Out, v: Seq<Seq<char>>, n: nat, i1: nat, i2: nat, i3: nat, i4: nat)
    requires
        waiting(o, i1, i2, i3, i4),
        n <= v.len(),
    ensures
        o.img.extends_to(texts(o, v, n).img),
        waiting(texts(o, v, n), i1, i2, i3, i4),
        texts(o, v, n).ps() == o.ps(),
        texts(o, v, n).def.ptr_arrays == o.def.ptr_arrays,
        texts(o, v, n).def.string_arrays == o.def.string_arrays,
        texts(o, v, n).def.reg_params == o.def.reg_params,
        texts(o, v, n).consts == o.consts,
        texts(o, v, n).def.strings.len() == o.def.strings.len() + n,
        forall|k: int|
            0 <= k < o.def.strings.len() ==> #[trigger] texts(o, v, n).def.strings[k]
                == o.def.strings[k],
        o.len() % (o.ps() as int) == 0 ==> {
            &&& texts(o, v, n).len() == o.len() + ptrs(o.ps(), n as int)
            &&& forall|k: int|
                0 <= k < n ==> #[trigger] texts(o, v, n).def.strings[o.def.strings.len() + k] == (
                    o.len() + ptrs(o.ps(), k),
                    v[k],
                )
        },
    decreases n,
{
    if n == 0 {
        lemma_waiting_inv(o, i1, i2, i3, i4);
        layout::lemma_refl(o.img);
    } else {
        let m = (n - 1) as nat;
        lemma_texts(o, v, m, i1, i2, i3, i4);
        let b = texts(o, v, m);
        lemma_waiting_inv(b, i1, i2, i3, i4);
        lemma_align_img(b);
        lemma_text_waiting(b, v[n - 1], i1, i2, i3, i4);
        layout::lemma_extends_trans(o.img, b.img, b.text(v[n - 1]).img);
        layout::lemma_round_up(b.len(), o.ps());
    }
}

pub proof fn lemma_reg_texts(
    o: Out,
    v: Seq<(u32, Seq<char>)>,
    n: nat,
    i1: nat,
    i2: nat,
    i3: nat,
    i4: nat,
)
    requires
        waiting(o, i1, i2, i3, i4),
        n <= v.len(),
    ensures
        o.img.extends_to(reg_texts(o, v, n).img),
        waiting(reg_texts(o, v, n), i1, i2, i3, i4),
        reg_texts(o, v, n).ps() == o.ps(),
        reg_texts(o, v, n).def.ptr_arrays == o.def.ptr_arrays,
        reg_texts(o, v, n).def.string_arrays == o.def.string_arrays,
        reg_texts(o, v, n).def.reg_params == o.def.reg_params,
        reg_texts(o, v, n).consts == o.consts,
        reg_texts(o, v, n).def.strings.len() == o.def.strings.len() + n,
        forall|k: int|
            0 <= k < o.def.strings.len() ==> #[trigger] reg_texts(o, v, n).def.strings[k]
                == o.def.strings[k],
        o.len() % (o.ps() as int) == 0 ==> {
            &&& reg_texts(o, v, n).len() == o.len() + ptrs(o.ps(), 2 * n as int)
            &&& forall|k: int|
                0 <= k < n ==> #[trigger] reg_texts(o, v, n).def.strings[o.def.strings.len() + k]
                    == (o.len() + ptrs(o.ps(), 2 * k + 1), v[k].1)
        },
    decreases n,
{
    if n == 0 {
        lemma_waiting_inv(o, i1, i2, i3, i4);
        layout::lemma_refl(o.img);
    } else {
        let m = (n - 1) as nat;
        lemma_reg_texts(o, v, m, i1, i2, i3, i4);
        let b = reg_texts(o, v, m);
        lemma_waiting_inv(b, i1, i2, i3, i4);
        lemma_align_img(b);
        let c = b.align_ptr();
        layout::lemma_put(c.img, 4, v[n - 1].0 as nat);
        let d = c.put(4, v[n - 1].0 as nat);
        layout::lemma_extends(c.img, d.img);
        layout::lemma_extends_trans(b.img, c.img, d.img);
        lemma_waiting_ext(b, d, i1, i2, i3, i4);
        lemma_align_img(d);
        lemma_text_waiting(d, v[n - 1].1, i1, i2, i3, i4);
        layout::lemma_extends_trans(o.img, b.img, d.img);
        layout::lemma_extends_trans(o.img, d.img, d.text(v[n - 1].1).img);
        layout::lemma_round_up(b.len(), o.ps());
        layout::lemma_round_up(d.len(), o.ps());
    }
}

pub proof fn lemma_place_ptr_array(o: Out, k: nat)
    requires
        waiting(o, 0, k, 0, 0),
        k < o.def.ptr_arrays.len(),
    ensures
        waiting(place_ptr_array(o, o.def.ptr_arrays[k as int]), 0, k + 1, 0, 0),
        o.img.grows_to(place_ptr_array(o, o.def.ptr_arrays[k as int]).img),
        place_ptr_array(o, o.def.ptr_arrays[k as int]).def == o.def,
        place_ptr_array(o, o.def.ptr_arrays[k as int]).consts == o.consts,
        waiting(
            ptr_values(
                o.align_ptr(),
                o.def.ptr_arrays[k as int].1,
                o.def.ptr_arrays[k as int].1.len(),
            ),
            0,
            k,
            0,
            0,
        ),
{
    let e = o.def.ptr_arrays[k as int];
    lemma_waiting_inv(o, 0, k, 0, 0);
    lemma_align_img(o);
    let a = o.align_ptr();
    lemma_ptr_values(a, e.1, e.1.len());
    let b = ptr_values(a, e.1, e.1.len());
    layout::lemma_extends_trans(o.img, a.img, b.img);
    layout::lemma_extends(o.img, b.img);
    lemma_waiting_ext(o, b, 0, k, 0, 0);
    assert(b.img.holds(e.0, b.ps(), (2, k))) by {
        reveal(waiting);
    }
    lemma_waiting_fill(b, e.0, a.len() as nat, (2, k), (0, k, 0, 0), (0, k + 1, 0, 0));
    layout::lemma_grows_trans(o.img, b.img, b.ptr_fill(e.0, a.len()).img);
}

pub proof fn lemma_place_ptr_arrays(o: Out, n: nat)
    requires
        waiting(o, 0, 0, 0, 0),
        n <= o.def.ptr_arrays.len(),
    ensures
        waiting(place_ptr_arrays(o, n), 0, n, 0, 0),
        o.img.grows_to(place_ptr_arrays(o, n).img),
        place_ptr_arrays(o, n).def == o.def,
        place_ptr_arrays(o, n).consts == o.consts,
    decreases n,
{
    if n == 0 {
        lemma_waiting_inv(o, 0, 0, 0, 0);
        layout::lemma_refl(o.img);
    } else {
        let m = (n - 1) as nat;
        lemma_place_ptr_arrays(o, m);
        lemma_place_ptr_array(place_ptr_arrays(o, m), m);
        layout::lemma_grows_trans(o.img, place_ptr_arrays(o, m).img, place_ptr_arrays(o, n).img);
    }
}

pub proof fn lemma_place_string_array(o: Out, i2: nat, k: nat)
    requires
        waiting(o, 0, i2, k, 0),
        k < o.def.string_arrays.len(),
    ensures
        waiting(place_string_array(o, o.def.string_arrays[k as int]), 0, i2, k + 1, 0),
        o.img.grows_to(place_string_array(o, o.def.string_arrays[k as int]).img),
        place_string_array(o, o.def.string_arrays[k as int]).def.ptr_arrays == o.def.ptr_arrays,
        place_string_array(o, o.def.string_arrays[k as int]).def.string_arrays
            == o.def.string_arrays,
        place_string_array(o, o.def.string_arrays[k as int]).def.reg_params == o.def.reg_params,
        place_string_array(o, o.def.string_arrays[k as int]).consts == o.consts,
        out::starts(
            o.def.strings,
            place_string_array(o, o.def.string_arrays[k as int]).def.strings,
        ),
        waiting(
            texts(
                o.align_ptr(),
                o.def.string_arrays[k as int].1,
                o.def.string_arrays[k as int].1.len(),
            ),
            0,
            i2,
            k,
            0,
        ),
{
    let e = o.def.string_arrays[k as int];
    lemma_waiting_inv(o, 0, i2, k, 0);
    lemma_align_img(o);
    let a = o.align_ptr();
    lemma_waiting_ext(o, a, 0, i2, k, 0);
    lemma_texts(a, e.1, e.1.len(), 0, i2, k, 0);
    let b = texts(a, e.1, e.1.len());
    layout::lemma_extends_trans(o.img, a.img, b.img);
    layout::lemma_extends(o.img, b.img);
    assert(b.img.holds(e.0, b.ps(), (3, k))) by {
        reveal(waiting);
        assert(b.def.string_arrays[k as int] == e);
    }
    lemma_waiting_fill(b, e.0, a.len() as nat, (3, k), (0, i2, k, 0), (0, i2, k + 1, 0));
    layout::lemma_grows_trans(o.img, b.img, b.ptr_fill(e.0, a.len()).img);
    reveal(out::starts);
}

pub proof fn lemma_place_string_arrays(o: Out, i2: nat, n: nat)
    requires
        waiting(o, 0, i2, 0, 0),
        n <= o.def.string_arrays.len(),
    ensures
        waiting(place_string_arrays(o, n), 0, i2, n, 0),
        o.img.grows_to(place_string_arrays(o, n).img),
        place_string_arrays(o, n).def.ptr_arrays == o.def.ptr_arrays,
        place_string_arrays(o, n).def.string_arrays == o.def.string_arrays,
        place_string_arrays(o, n).def.reg_params == o.def.reg_params,
        place_string_arrays(o, n).consts == o.consts,
        out::starts(o.def.strings, place_string_arrays(o, n).def.strings),
    decreases n,
{
    if n == 0 {
        lemma_waiting_inv(o, 0, i2, 0, 0);
        layout::lemma_refl(o.img);
        out::lemma_starts_refl(o.def.strings);
    } else {
        let m = (n - 1) as nat;
        lemma_place_string_arrays(o, i2, m);
        let b = place_string_arrays(o, m);
        lemma_place_string_array(b, i2, m);
        layout::lemma_grows_trans(o.img, b.img, place_string_arrays(o, n).img);
        out::lemma_starts_trans(
            o.def.strings,
            b.def.strings,
            place_string_arrays(o, n).def.strings,
        );
    }
}

pub proof fn lemma_place_params(o: Out, i2: nat, i3: nat, k: nat)
    requires
        waiting(o, 0, i2, i3, k),
        k < o.def.reg_params.len(),
    ensures
        waiting(place_params(o, o.def.reg_params[k as int]), 0, i2, i3, k + 1),
        o.img.grows_to(place_params(o, o.def.reg_params[k as int]).img),
        place_params(o, o.def.reg_params[k as int]).def.reg_params == o.def.reg_params,
        place_params(o, o.def.reg_params[k as int]).consts == o.consts,
        out::starts(o.def.strings, place_params(o, o.def.reg_params[k as int]).def.strings),
        waiting(
            reg_texts(
                o.align_ptr(),
                o.def.reg_params[k as int].1,
                o.def.reg_params[k as int].1.len(),
            ),
            0,
            i2,
            i3,
            k,
        ),
{
    let e = o.def.reg_params[k as int];
    lemma_waiting_inv(o, 0, i2, i3, k);
    lemma_align_img(o);
    let a = o.align_ptr();
    lemma_waiting_ext(o, a, 0, i2, i3, k);
    lemma_reg_texts(a, e.1, e.1.len(), 0, i2, i3, k);
    let b = reg_texts(a, e.1, e.1.len());
    layout::lemma_extends_trans(o.img, a.img, b.img);
    layout::lemma_extends(o.img, b.img);
    assert(b.img.holds(e.0, b.ps(), (4, k))) by {
        reveal(waiting);
        assert(b.def.reg_params[k as int] == e);
    }
    lemma_waiting_fill(b, e.0, a.len() as nat, (4, k), (0, i2, i3, k), (0, i2, i3, k + 1));
    layout::lemma_grows_trans(o.img, b.img, b.ptr_fill(e.0, a.len()).img);
    reveal(out::starts);
}

pub proof fn lemma_place_all_params(o: Out, i2: nat, i3: nat, n: nat)
    requires
        waiting(o, 0, i2, i3, 0),
        n <= o.def.reg_params.len(),
    ensures
        waiting(place_all_params(o, n), 0, i2, i3, n),
        o.img.grows_to(place_all_params(o, n).img),
        place_all_params(o, n).def.reg_params == o.def.reg_params,
        place_all_params(o, n).consts == o.consts,
        out::starts(o.def.strings, place_all_params(o, n).def.strings),
    decreases n,
{
    if n == 0 {
        lemma_waiting_inv(o, 0, i2, i3, 0);
        layout::lemma_refl(o.img);
        out::lemma_starts_refl(o.def.strings);
    } else {
        let m = (n - 1) as nat;
        lemma_place_all_params(o, i2, i3, m);
        let b = place_all_params(o, m);
        lemma_place_params(b, i2, i3, m);
        layout::lemma_grows_trans(o.img, b.img, place_all_params(o, n).img);
        out::lemma_starts_trans(o.def.strings, b.def.strings, place_all_params(o, n).def.strings);
    }
}

/// One more string.
pub proof fn lemma_place_string(o: Out, n: nat, i2: nat, i3: nat, i4: nat)
    requires
        waiting(o, 0, i2, i3, i4),
        n < o.def.strings.len(),
        waiting(place_strings(o, n).0, n, i2, i3, i4),
        place_strings(o, n).0.def == o.def,
        place_strings(o, n).0.ps() == o.ps(),
    ensures
        waiting(place_strings(o, n + 1).0, n + 1, i2, i3, i4),
        place_strings(o, n).0.img.grows_to(place_strings(o, n + 1).0.img),
        place_strings(o, n + 1).0.def == o.def,
        place_strings(o, n + 1).0.ps() == o.ps(),
        place_strings(o, n + 1).0.consts == place_strings(o, n).0.consts,
        ({
            let (p, known) = place_strings(o, n);
            let (pos, s) = o.def.strings[n as int];
            let q = p.raw(to_latin1(s).push(0));
            &&& p.img.holds(pos, o.ps(), (1, n))
            &&& q.img.holds(pos, o.ps(), (1, n))
            &&& waiting(q, n, i2, i3, i4)
            &&& q.len() == p.len() + s.len() + 1
            &&& p.img.extends_to(q.img)
        }),
{
    let (p, known) = place_strings(o, n);
    let (pos, s) = o.def.strings[n as int];
    lemma_waiting_inv(p, n, i2, i3, i4);
    assert(p.img.holds(pos, o.ps(), (1, n))) by {
        reveal(waiting);
        assert(p.def.strings[n as int] == (pos, s));
    }
    let q = p.raw(to_latin1(s).push(0));
    layout::lemma_append(p.img, to_latin1(s).push(0));
    layout::lemma_extends(p.img, q.img);
    lemma_waiting_ext(p, q, n, i2, i3, i4);
    layout::lemma_held_kept(p.img, q.img, pos, o.ps(), (1, n));
    if known.dom().contains(s) {
        lemma_waiting_fill(p, pos, known[s] as nat, (1, n), (n, i2, i3, i4), (n + 1, i2, i3, i4));
    } else {
        lemma_waiting_fill(
            q,
            pos,
            (p.len() as u64) as nat,
            (1, n),
            (n, i2, i3, i4),
            (n + 1, i2, i3, i4),
        );
        layout::lemma_grows_trans(p.img, q.img, q.ptr_fill(pos, (p.len() as u64) as int).img);
    }
    layout::lemma_grows(p.img, place_strings(o, n + 1).0.img);
}

pub proof fn lemma_place_strings(o: Out, n: nat, i2: nat, i3: nat, i4: nat)
    requires
        waiting(o, 0, i2, i3, i4),
        n <= o.def.strings.len(),
    ensures
        waiting(place_strings(o, n).0, n, i2, i3, i4),
        o.img.grows_to(place_strings(o, n).0.img),
        place_strings(o, n).0.def == o.def,
        place_strings(o, n).0.ps() == o.ps(),
        place_strings(o, n).0.consts == o.consts,
    decreases n,
{
    if n == 0 {
        lemma_waiting_inv(o, 0, i2, i3, i4);
        layout::lemma_refl(o.img);
    } else {
        let m = (n - 1) as nat;
        lemma_place_strings(o, m, i2, i3, i4);
        lemma_place_string(o, m, i2, i3, i4);
        layout::lemma_grows_trans(o.img, place_strings(o, m).0.img, place_strings(o, n).0.img);
    }
}

/// The first string that latin-1 cannot hold stays the first.
pub proof fn lemma_first_foreign(s: Seq<(int, Seq<char>)>, k: nat)
    requires
        k < s.len(),
        first_foreign(s, k) is None,
        !is_latin1(s[k as int].1),
    ensures
        first_foreign(s, s.len()) == Some(s[k as int].1),
{
    lemma_foreign_kept(s, (k + 1) as nat, s.len());
}

proof fn lemma_foreign_kept(s: Seq<(int, Seq<char>)>, k: nat, n: nat)
    requires
        k <= n <= s.len(),
        first_foreign(s, k) is Some,
    ensures
        first_foreign(s, n) == first_foreign(s, k),
    decreases n - k,
{
    if k < n {
        lemma_foreign_kept(s, k, (n - 1) as nat);
    }
}

/// The strings before the first that latin-1 cannot hold are all before it.
pub proof fn lemma_native(s: Seq<(int, Seq<char>)>, k: nat, n: nat)
    requires
        k < n <= s.len(),
        first_foreign(s, k) is None,
        !is_latin1(s[k as int].1),
    ensures
        native(s, n) == k,
    decreases n,
{
    if n == k + 1 {
        lemma_all_native(s, k);
    } else {
        lemma_foreign_kept(s, (k + 1) as nat, (n - 1) as nat);
        lemma_native(s, k, (n - 1) as nat);
    }
}

proof fn lemma_all_native(s: Seq<(int, Seq<char>)>, k: nat)
    requires
        first_foreign(s, k) is None,
    ensures
        native(s, k) == k,
    decreases k,
{
}

/// A text that was placed is latin-1, where all placed so far are.
pub proof fn lemma_known_latin1(o: Out, n: nat, s: Seq<char>)
    requires
        first_foreign(o.def.strings, n) is None,
        place_strings(o, n).1.dom().contains(s),
    ensures
        is_latin1(s),
    decreases n,
{
    if n > 0 {
        let m = (n - 1) as nat;
        if place_strings(o, m).1.dom().contains(s) {
            lemma_known_latin1(o, m, s);
        }
    }
}

/// `o` with other constants.
pub open spec fn swap(o: Out, v: Seq<super::model::Value>) -> Out {
    Out { consts: v, ..o }
}

proof fn lemma_ptr_values_consts(o: Out, x: Seq<nat>, n: nat, v: Seq<super::model::Value>)
    ensures
        ptr_values(swap(o, v), x, n) == swap(ptr_values(o, x, n), v),
    decreases n,
{
    if n > 0 {
        lemma_ptr_values_consts(o, x, (n - 1) as nat, v);
    }
}

proof fn lemma_texts_consts(o: Out, x: Seq<Seq<char>>, n: nat, v: Seq<super::model::Value>)
    ensures
        texts(swap(o, v), x, n) == swap(texts(o, x, n), v),
    decreases n,
{
    if n > 0 {
        lemma_texts_consts(o, x, (n - 1) as nat, v);
    }
}

proof fn lemma_reg_texts_consts(
    o: Out,
    x: Seq<(u32, Seq<char>)>,
    n: nat,
    v: Seq<super::model::Value>,
)
    ensures
        reg_texts(swap(o, v), x, n) == swap(reg_texts(o, x, n), v),
    decreases n,
{
    if n > 0 {
        lemma_reg_texts_consts(o, x, (n - 1) as nat, v);
    }
}

proof fn lemma_ptr_arrays_consts(o: Out, n: nat, v: Seq<super::model::Value>)
    ensures
        place_ptr_arrays(swap(o, v), n) == swap(place_ptr_arrays(o, n), v),
    decreases n,
{
    if n > 0 {
        let m = (n - 1) as nat;
        lemma_ptr_arrays_consts(o, m, v);
        let a = place_ptr_arrays(o, m);
        let e = o.def.ptr_arrays[m as int];
        lemma_ptr_values_consts(a.align_ptr(), e.1, e.1.len(), v);
    }
}

proof fn lemma_string_arrays_consts(o: Out, n: nat, v: Seq<super::model::Value>)
    ensures
        place_string_arrays(swap(o, v), n) == swap(place_string_arrays(o, n), v),
    decreases n,
{
    if n > 0 {
        let m = (n - 1) as nat;
        lemma_string_arrays_consts(o, m, v);
        let a = place_string_arrays(o, m);
        let e = o.def.string_arrays[m as int];
        lemma_texts_consts(a.align_ptr(), e.1, e.1.len(), v);
    }
}

proof fn lemma_params_consts(o: Out, n: nat, v: Seq<super::model::Value>)
    ensures
        place_all_params(swap(o, v), n) == swap(place_all_params(o, n), v),
    decreases n,
{
    if n > 0 {
        let m = (n - 1) as nat;
        lemma_params_consts(o, m, v);
        let a = place_all_params(o, m);
        let e = o.def.reg_params[m as int];
        lemma_reg_texts_consts(a.align_ptr(), e.1, e.1.len(), v);
    }
}

proof fn lemma_strings_consts(o: Out, n: nat, v: Seq<super::model::Value>)
    ensures
        place_strings(swap(o, v), n).0 == swap(place_strings(o, n).0, v),
        place_strings(swap(o, v), n).1 == place_strings(o, n).1,
    decreases n,
{
    if n > 0 {
        lemma_strings_consts(o, (n - 1) as nat, v);
    }
}

/// The constants play no part in where data is placed.
pub proof fn lemma_flush_consts(o: Out, v: Seq<super::model::Value>)
    ensures
        flush(swap(o, v)).img == flush(o).img,
        all_strings(swap(o, v)) == all_strings(o),
{
    lemma_ptr_arrays_consts(o, o.def.ptr_arrays.len(), v);
    let a = place_ptr_arrays(o, o.def.ptr_arrays.len());
    lemma_string_arrays_consts(a, o.def.string_arrays.len(), v);
    let b = place_string_arrays(a, o.def.string_arrays.len());
    lemma_params_consts(b, o.def.reg_params.len(), v);
    let c = place_arrays(o);
    lemma_strings_consts(c, c.def.strings.len(), v);
}

} // verus!
