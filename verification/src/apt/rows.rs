//! Rows of pointer slots that are filled one after another.
use super::io::Patch;
use super::out::{self, Out};
use vstd::prelude::*;

verus! {

/// Whether the slots from the `i`-th on are empty; they stand in ascending order.
#[verifier::opaque]
pub open spec fn row(o: Out, slots: Seq<int>, i: int) -> bool {
    &&& forall|j: int| i <= j < slots.len() && 0 <= j ==> o.pending(#[trigger] slots[j], o.ps())
    &&& forall|j: int, k: int| 0 <= j < k < slots.len() ==> slots[j] < slots[k]
    &&& forall|j: int| 0 <= j < slots.len() ==> 0 <= #[trigger] slots[j] < o.len()
}

/// The places of a list of patches.
pub open spec fn places(p: Seq<Patch>) -> Seq<int> {
    Seq::new(p.len(), |i: int| p[i].pos())
}

pub broadcast proof fn lemma_places_push(p: Seq<Patch>, x: Patch)
    ensures
        #[trigger] places(p.push(x)) == places(p).push(x.pos()),
{
    assert(places(p.push(x)) =~= places(p).push(x.pos()));
}

pub proof fn lemma_row_empty(o: Out)
    ensures
        row(o, Seq::empty(), 0),
{
    reveal(row);
}

pub proof fn lemma_row_at(o: Out, slots: Seq<int>, i: int)
    requires
        row(o, slots, i),
        0 <= i < slots.len(),
    ensures
        o.pending(slots[i], o.ps()),
        0 <= slots[i] < o.len(),
{
    reveal(row);
}

pub proof fn lemma_row_ext(a: Out, b: Out, slots: Seq<int>, i: int)
    requires
        a.extends_to(b),
        row(a, slots, i),
    ensures
        row(b, slots, i),
{
    broadcast use out::group_ext;

    reveal(row);
}

/// One more slot at the end.
pub proof fn lemma_row_push(a: Out, slots: Seq<int>)
    requires
        a.ok(),
        row(a, slots, 0),
    ensures
        row(a.ptr_slot(), slots.push(a.align_ptr().len()), 0),
        a.extends_to(a.ptr_slot()),
{
    broadcast use out::group_ext;

    out::ok_ps(a);
    assert(a.extends_to(a.align_ptr()));
    let b = a.ptr_slot();
    assert(a.extends_to(b));
    lemma_row_ext(a, b, slots, 0);
    reveal(row);
}

/// The next slot filled.
pub proof fn lemma_row_fill(o: Out, slots: Seq<int>, i: int, v: int)
    requires
        o.ok(),
        row(o, slots, i),
        0 <= i < slots.len(),
    ensures
        row(o.ptr_fill(slots[i], v), slots, i + 1),
        o.ptr_fill(slots[i], v).ok(),
        o.ptr_fill(slots[i], v).len() == o.len(),
        o.ptr_fill(slots[i], v).ps() == o.ps(),
{
    broadcast use out::group_ext;

    reveal(row);
    let b = o.ptr_fill(slots[i], v);
    assert forall|j: int| i + 1 <= j < slots.len() && 0 <= j implies b.pending(
        #[trigger] slots[j],
        b.ps(),
    ) by {
        assert(slots[i] < slots[j]);
        assert(o.pending(slots[j], o.ps()));
    }
}

/// A slot elsewhere filled.
pub proof fn lemma_row_other(o: Out, slots: Seq<int>, i: int, p: int, v: int)
    requires
        o.ok(),
        row(o, slots, i),
        o.pending(p, o.ps()),
        forall|j: int| 0 <= j < slots.len() ==> p != #[trigger] slots[j],
    ensures
        row(o.ptr_fill(p, v), slots, i),
{
    broadcast use out::group_ext;

    reveal(row);
    let b = o.ptr_fill(p, v);
    assert forall|j: int| i <= j < slots.len() && 0 <= j implies b.pending(
        #[trigger] slots[j],
        b.ps(),
    ) by {
        assert(o.pending(slots[j], o.ps()));
    }
}

} // verus!
