//! Ordered sets of edge indices.

use std::collections::BTreeSet;

use vstd::prelude::*;
use vstd::std_specs::cmp::OrdSpec;
use vstd::std_specs::iter::IteratorSpec;

verus! {

/// Whether `e` is in `set`.
pub(crate) fn edge_set_contains(set: &BTreeSet<usize>, e: usize) -> (r: bool)
    ensures
        r == set@.contains(e),
{
    broadcast use vstd::std_specs::btree::group_btree_axioms;
    broadcast use vstd::laws_cmp::group_laws_cmp;

    set.contains(&e)
}

/// Add `e` to `set`.
pub(crate) fn edge_set_insert(set: &mut BTreeSet<usize>, e: usize)
    ensures
        final(set)@ == old(set)@.insert(e),
{
    broadcast use vstd::std_specs::btree::group_btree_axioms;
    broadcast use vstd::laws_cmp::group_laws_cmp;

    set.insert(e);
}

/// In an increasing sequence each element is below every later one.
proof fn lemma_increasing_seq_less<K: Ord>(s: Seq<K>, a: int, b: int)
    requires
        vstd::laws_cmp::obeys_cmp::<K>(),
        vstd::std_specs::btree::increasing_seq(s),
        0 <= a < b < s.len(),
    ensures
        s[a].cmp_spec(&s[b]) is Less,
{
    vstd::std_specs::btree::axiom_increasing_seq_meaning(s);
}

/// The members of `set` in increasing order.
pub(crate) fn edge_set_to_vec(set: &BTreeSet<usize>) -> (r: Vec<usize>)
    ensures
        r@.to_set() == set@,
        forall|i: int, j: int| 0 <= i < j < r@.len() ==> r@[i] < r@[j],
{
    broadcast use vstd::std_specs::btree::group_btree_axioms;
    broadcast use vstd::laws_cmp::group_laws_cmp;

    let ghost keys = vstd::std_specs::btree::spec_btree_keys_iter(set).remaining();
    let mut out: Vec<usize> = Vec::new();
    for x in it: set.iter()
        invariant
            it.seq() == keys,
            out@ == keys.unref().take(it.index()),
    {
        out.push(*x);
    }
    proof {
        assert(out@ =~= keys.unref());
        assert(vstd::std_specs::btree::increasing_seq(keys));
        assert forall|i: int, j: int| 0 <= i < j < out@.len() implies out@[i] < out@[j] by {
            lemma_increasing_seq_less(keys, i, j);
        }
    }
    out
}

} // verus!
