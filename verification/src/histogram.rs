//! The sum of the counts of a degree distribution.

use vstd::prelude::*;
use vstd::set_lib::*;
use crate::model::{degree, nodes_of_degree, Adjacency, NodeId};

verus! {

/// The sum of the counts that a distribution holds.
pub open spec fn total_count(h: Map<usize, usize>) -> nat
    decreases h.dom().len(),
    when h.dom().finite()
{
    if h.dom().len() == 0 {
        0
    } else {
        let d = h.dom().choose();
        h[d] as nat + total_count(h.remove(d))
    }
}

/// The nodes whose degree is one of `degrees`.
pub open spec fn nodes_with_degree_in(m: Adjacency, degrees: Set<usize>) -> Set<NodeId> {
    Set::new(|a: NodeId| m.contains_key(a) && degree(m, a) <= usize::MAX && degrees.contains(degree(m, a) as usize))
}

/// Where each count of `h` is the number of nodes of that degree, the counts
/// add up to the number of nodes whose degree is a key of `h`.
pub proof fn lemma_total_count(m: Adjacency, h: Map<usize, usize>)
    requires
        m.dom().finite(),
        h.dom().finite(),
        forall|d: usize| #[trigger] h.dom().contains(d) ==> h[d] == nodes_of_degree(m, d as nat).len(),
    ensures
        nodes_with_degree_in(m, h.dom()).finite(),
        total_count(h) == nodes_with_degree_in(m, h.dom()).len(),
    decreases h.dom().len(),
{
    let all = nodes_with_degree_in(m, h.dom());
    assert(all.subset_of(m.dom()));
    lemma_len_subset(all, m.dom());
    if h.dom().len() == 0 {
        assert(all =~= Set::<NodeId>::empty()) by {
            assert forall|a: NodeId| !all.contains(a) by {
                if all.contains(a) {
                    assert(h.dom().contains(degree(m, a) as usize));
                }
            }
        }
    } else {
        let d = h.dom().choose();
        let rest = h.remove(d);
        assert(rest.dom() =~= h.dom().remove(d));
        lemma_total_count(m, rest);
        let here = nodes_of_degree(m, d as nat);
        let others = nodes_with_degree_in(m, rest.dom());
        assert(here.subset_of(m.dom()));
        lemma_len_subset(here, m.dom());
        assert(here.disjoint(others));
        assert(here + others =~= all);
        lemma_set_disjoint_lens(here, others);
    }
}

} // verus!
