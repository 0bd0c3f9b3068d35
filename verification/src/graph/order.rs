//! Ordering the nodes of a graph: sorted sets of indices, and the topological sort.
use std::collections::{BTreeSet, VecDeque};
use vstd::prelude::*;
use vstd::std_specs::cmp::OrdSpec;
use vstd::std_specs::iter::IteratorSpec;

use crate::graph::{Edge, Graph};

verus! {

broadcast use vstd::std_specs::btree::group_btree_axioms, vstd::laws_cmp::group_laws_cmp;

proof fn lemma_set_iter_sorted(s: &BTreeSet<usize>)
    ensures
        forall|i: int, j: int|
            0 <= i < j < s.iter().remaining().len() ==> *s.iter().remaining()[i]
                < *s.iter().remaining()[j],
        s.iter().remaining().unref().to_set() == s@,
{
    let rem = s.iter().remaining();
    assert(vstd::laws_cmp::obeys_cmp::<usize>());
    assert(vstd::laws_cmp::obeys_cmp::<&usize>());
    assert(vstd::std_specs::btree::increasing_seq(rem));
    vstd::std_specs::btree::axiom_increasing_seq_meaning::<&usize>(rem);
    assert(forall|i: int, j: int|
        0 <= i < j < rem.len() ==> (&rem[i]).cmp_spec(&&rem[j]) is Less);
    assert forall|i: int, j: int| 0 <= i < j < rem.len() implies *rem[i] < *rem[j] by {
        assert((&rem[i]).cmp_spec(&&rem[j]) is Less);
    }
}

/// The elements of a set of indices, in increasing order.
pub fn sorted_elements(s: &BTreeSet<usize>) -> (r: Vec<usize>)
    ensures
        r@.to_set() == s@,
        r@.no_duplicates(),
        forall|i: int, j: int| 0 <= i < j < r@.len() ==> r@[i] < r@[j],
{
    let mut r: Vec<usize> = Vec::new();
    let ghost items = s.iter().remaining().map_values(|p: &usize| *p);
    for x in it: s.iter()
        invariant
            items == it.seq().map_values(|p: &usize| *p),
            r@ == items.take(it.index() as int),
    {
        r.push(*x);
    }
    assert(r@ =~= items);
    proof {
        lemma_set_iter_sorted(s);
        assert(items =~= s.iter().remaining().unref());
    }
    r
}

} // verus!
