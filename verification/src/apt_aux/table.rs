//! Ordered tables of IDs.
use std::collections::BTreeMap;
use vstd::prelude::*;
use vstd::std_specs::cmp::OrdSpec;
use vstd::std_specs::iter::IteratorSpec;

verus! {

/// Whether `ks` lists the keys of `m` in ascending order.
pub open spec fn lists_keys(ks: Seq<u32>, m: Map<u32, u32>) -> bool {
    &&& ks.to_set() == m.dom()
    &&& forall|i: int, j: int| 0 <= i < j < ks.len() ==> ks[i] < ks[j]
}

/// Puts `v` under `k`, in place of what was there.
pub fn put(m: &mut BTreeMap<u32, u32>, k: u32, v: u32)
    ensures
        final(m)@ == old(m)@.insert(k, v),
{
    broadcast use vstd::std_specs::btree::group_btree_axioms;
    broadcast use vstd::laws_cmp::group_laws_cmp;

    m.insert(k, v);
}

/// What is under `k`.
pub fn get(m: &BTreeMap<u32, u32>, k: u32) -> (v: Option<u32>)
    ensures
        v == if m@.dom().contains(k) {
            Some(m@[k])
        } else {
            None
        },
{
    broadcast use vstd::std_specs::btree::group_btree_axioms;
    broadcast use vstd::laws_cmp::group_laws_cmp;

    match m.get(&k) {
        Some(v) => Some(*v),
        None => None,
    }
}

/// The keys in ascending order.
pub fn keys(m: &BTreeMap<u32, u32>) -> (ks: Vec<u32>)
    ensures
        lists_keys(ks@, m@),
{
    broadcast use vstd::std_specs::btree::group_btree_axioms;
    broadcast use vstd::laws_cmp::group_laws_cmp;

    let mut ks: Vec<u32> = Vec::new();
    let keys = m.keys();
    let ghost all = keys.remaining();
    let ghost flat = all.unref();
    for k in it: keys
        invariant
            it.seq() == all,
            flat == all.unref(),
            ks@ == flat.take(it.index()),
    {
        ks.push(*k);
        assert(flat.take(it.index() + 1) =~= flat.take(it.index()).push(*k));
    }
    proof {
        assert(ks@ =~= flat);
        assert(vstd::laws_cmp::obeys_cmp::<&u32>());
        assert(vstd::std_specs::btree::increasing_seq(all));
        assert forall|i: int, j: int| 0 <= i < j < ks@.len() implies ks@[i] < ks@[j] by {
            assert(OrdSpec::cmp_spec(&all[i], &all[j]) is Less);
        }
    }
    ks
}

} // verus!
