//! The mathematical model of a graph: a map from each node's identifier to
//! the set of identifiers adjacent to it.

use vstd::prelude::*;

verus! {

/// A node identifier, as contracts see it.
pub type NodeId = Seq<char>;

/// The adjacency relation: every node that an edge touches is a key, and its
/// value is the set of its neighbours.
pub type Adjacency = Map<NodeId, Set<NodeId>>;

/// The neighbours of `a`; empty where `a` is not a node.
pub open spec fn neighbors_of(m: Adjacency, a: NodeId) -> Set<NodeId> {
    if m.contains_key(a) {
        m[a]
    } else {
        Set::empty()
    }
}

/// `m` with `b` put into the neighbour set of `a`, whose entry is made if absent.
pub open spec fn with_neighbor(m: Adjacency, a: NodeId, b: NodeId) -> Adjacency {
    m.insert(a, neighbors_of(m, a).insert(b))
}

/// `m` with the undirected edge between `a` and `b`.
pub open spec fn with_edge(m: Adjacency, a: NodeId, b: NodeId) -> Adjacency {
    with_neighbor(with_neighbor(m, a, b), b, a)
}

/// Whenever `b` is a neighbour of `a`, `a` is a neighbour of `b`.
pub open spec fn symmetric(m: Adjacency) -> bool {
    forall|a: NodeId, b: NodeId|
        m.contains_key(a) && #[trigger] m[a].contains(b) ==> m.contains_key(b) && m[b].contains(a)
}

/// The number of neighbours of the node `a`.
pub open spec fn degree(m: Adjacency, a: NodeId) -> nat {
    m[a].len()
}

/// The nodes of degree `d`.
pub open spec fn nodes_of_degree(m: Adjacency, d: nat) -> Set<NodeId> {
    Set::new(|a: NodeId| m.contains_key(a) && degree(m, a) == d)
}

/// The degree distribution: each degree that some node has, with the number
/// of nodes that have it.
pub open spec fn degree_histogram(m: Adjacency) -> Map<usize, usize> {
    Map::new(
        |d: usize| nodes_of_degree(m, d as nat).len() > 0,
        |d: usize| nodes_of_degree(m, d as nat).len() as usize,
    )
}

/// What is reached from `a` by one step to a neighbour and one step on from
/// there, `a` itself left out. A neighbour of `a` that is also two steps away
/// is a member.
pub open spec fn two_hop(m: Adjacency, a: NodeId) -> Set<NodeId> {
    Set::new(
        |c: NodeId|
            c != a && exists|b: NodeId|
                m.contains_key(a) && m[a].contains(b) && m.contains_key(b) && #[trigger] m[b].contains(c),
    )
}

/// `m` with `a` as a node, without neighbours if it was none before.
pub open spec fn with_node(m: Adjacency, a: NodeId) -> Adjacency {
    if m.contains_key(a) {
        m
    } else {
        m.insert(a, Set::empty())
    }
}

/// An edge is added by making both ends nodes and then each a neighbour of
/// the other.
pub proof fn lemma_with_edge_by_steps(m: Adjacency, a: NodeId, b: NodeId)
    ensures
        with_edge(m, a, b) == ({
            let both = with_node(with_node(m, a), b);
            let one = both.insert(a, both[a].insert(b));
            one.insert(b, one[b].insert(a))
        }),
{
    let both = with_node(with_node(m, a), b);
    let one = both.insert(a, both[a].insert(b));
    assert(with_edge(m, a, b) =~~= one.insert(b, one[b].insert(a)));
}

/// Adding an edge makes each end a neighbour of the other.
pub proof fn lemma_with_edge_links(m: Adjacency, a: NodeId, b: NodeId)
    ensures
        with_edge(m, a, b).contains_key(a),
        with_edge(m, a, b).contains_key(b),
        with_edge(m, a, b)[a].contains(b),
        with_edge(m, a, b)[b].contains(a),
{
}

/// Adding an edge a second time changes nothing.
pub proof fn lemma_with_edge_idempotent(m: Adjacency, a: NodeId, b: NodeId)
    ensures
        with_edge(with_edge(m, a, b), a, b) == with_edge(m, a, b),
{
    assert(with_edge(with_edge(m, a, b), a, b) =~~= with_edge(m, a, b));
}

/// The order of the two ends does not matter.
pub proof fn lemma_with_edge_commutes(m: Adjacency, a: NodeId, b: NodeId)
    ensures
        with_edge(m, a, b) == with_edge(m, b, a),
{
    assert(with_edge(m, a, b) =~~= with_edge(m, b, a));
}

/// Adding an edge to a symmetric relation leaves it symmetric.
pub proof fn lemma_with_edge_symmetric(m: Adjacency, a: NodeId, b: NodeId)
    requires
        symmetric(m),
    ensures
        symmetric(with_edge(m, a, b)),
{
    let r = with_edge(m, a, b);
    assert forall|x: NodeId, y: NodeId| r.contains_key(x) && #[trigger] r[x].contains(y) implies r.contains_key(y)
        && r[y].contains(x) by {
        if m.contains_key(x) && m[x].contains(y) {
            assert(m.contains_key(y) && m[y].contains(x));
        }
    }
}

} // verus!
