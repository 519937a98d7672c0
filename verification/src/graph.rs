//! The graph itself: nodes in the order in which they first appeared, each
//! with the positions of its neighbours.

use std::collections::HashMap;
use vstd::prelude::*;
use vstd::set_lib::lemma_len_subset;
use crate::histogram::{lemma_total_count, nodes_with_degree_in, total_count};
use crate::counting::{
    count_true, flagged, lemma_count_true_bound, lemma_count_true_step, lemma_flagged_len,
};
use crate::model::{
    lemma_with_edge_by_steps, lemma_with_edge_links, with_edge, with_node, Adjacency, NodeId,
    degree, degree_histogram, nodes_of_degree, symmetric, two_hop,
};

verus! {

/// An undirected graph over string-identified nodes.
pub struct Graph {
    names: Vec<String>,
    links: Vec<Vec<usize>>,
}

impl View for Graph {
    type V = Adjacency;

    closed spec fn view(&self) -> Adjacency {
        Map::new(
            |k: NodeId| self.name_seq().contains(k),
            |k: NodeId| self.neighbor_seq(self.position(k)).to_set(),
        )
    }
}

impl Graph {
    /// The identifiers of the nodes, by position.
    spec fn name_seq(self) -> Seq<NodeId> {
        self.names@.map_values(|s: String| s@)
    }

    /// The identifiers of the neighbours of the node at position `i`.
    spec fn neighbor_seq(self, i: int) -> Seq<NodeId> {
        self.links@[i]@.map_values(|j: usize| self.name_seq()[j as int])
    }

    /// The position of the node named `k`.
    spec fn position(self, k: NodeId) -> int {
        self.name_seq().index_of(k)
    }

    /// The representation is sound: no identifier is held twice, every
    /// neighbour position names a node, and no neighbour is listed twice.
    spec fn well_formed(self) -> bool {
        &&& self.names@.len() == self.links@.len()
        &&& self.name_seq().no_duplicates()
        &&& forall|i: int| 0 <= i < self.links@.len() ==> (#[trigger] self.links@[i])@.no_duplicates()
        &&& forall|i: int, p: int|
            0 <= i < self.links@.len() && 0 <= p < self.links@[i]@.len() ==> (#[trigger] self.links@[i]@[p])
                < self.names@.len()
    }

    /// Each node has a neighbour, and the neighbour lists are symmetric.
    spec fn linked(self) -> bool {
        &&& forall|i: int| 0 <= i < self.links@.len() ==> (#[trigger] self.links@[i])@.len() > 0
        &&& forall|i: int, p: int|
            0 <= i < self.links@.len() && 0 <= p < self.links@[i]@.len() ==> {
                let back = self.links@[#[trigger] self.links@[i]@[p] as int]@;
                back.contains(i as usize)
            }
    }

    /// The invariant of every graph that `new` and `add_edge` make.
    pub closed spec fn wf(self) -> bool {
        self.well_formed() && self.linked()
    }

    /// An empty graph.
    pub fn new() -> (g: Graph)
        ensures
            g.wf(),
            g@ == Map::<NodeId, Set<NodeId>>::empty(),
    {
        let g = Graph { names: Vec::new(), links: Vec::new() };
        assert(g@ =~= Map::<NodeId, Set<NodeId>>::empty());
        g
    }

    /// What the view holds for the node at position `i`.
    proof fn lemma_entry(self, i: int)
        requires
            self.well_formed(),
            0 <= i < self.names@.len(),
        ensures
            self@.contains_key(self.name_seq()[i]),
            self.position(self.name_seq()[i]) == i,
            self@[self.name_seq()[i]] == self.neighbor_seq(i).to_set(),
            self.neighbor_seq(i).no_duplicates(),
            self.neighbor_seq(i).len() == self.links@[i]@.len(),
            self@[self.name_seq()[i]].finite(),
            self@[self.name_seq()[i]].len() == self.links@[i]@.len(),
    {
        let names = self.name_seq();
        let k = names[i];
        assert(names.contains(k));
        names.index_of_first_ensures(k);
        let row = self.links@[i]@;
        let ns = self.neighbor_seq(i);
        assert forall|p: int, q: int| 0 <= p < ns.len() && 0 <= q < ns.len() && p != q implies ns[p] != ns[q] by {
            assert(row[p] != row[q]);
            assert(row[p] < names.len() && row[q] < names.len());
        }
        ns.unique_seq_to_set();
    }

    /// Every key of the view is the name of a node.
    proof fn lemma_key(self, k: NodeId)
        requires
            self.well_formed(),
            self@.contains_key(k),
        ensures
            0 <= self.position(k) < self.names@.len(),
            self.name_seq()[self.position(k)] == k,
    {
        self.name_seq().index_of_first_ensures(k);
    }

    /// The position of the node named `name`, if there is one.
    fn find(&self, name: &String) -> (r: Option<usize>)
        requires
            self.well_formed(),
        ensures
            match r {
                Some(i) => i < self.names@.len() && self.name_seq()[i as int] == name@,
                None => !self@.contains_key(name@),
            },
    {
        let mut i: usize = 0;
        while i < self.names.len()
            invariant
                i <= self.names@.len(),
                forall|p: int| 0 <= p < i ==> self.name_seq()[p] != name@,
            decreases self.names@.len() - i,
        {
            assert(self.name_seq()[i as int] == self.names@[i as int]@);
            if self.names[i] == *name {
                return Some(i);
            }
            i += 1;
        }
        None
    }

    /// The position of the node named `name`, which joins the graph with no
    /// neighbour if it is not yet a node.
    fn intern(&mut self, name: String) -> (i: usize)
        requires
            old(self).well_formed(),
        ensures
            final(self).well_formed(),
            i < final(self).names@.len(),
            final(self).name_seq()[i as int] == name@,
            old(self)@.contains_key(name@) ==> *final(self) == *old(self),
            !old(self)@.contains_key(name@) ==> {
                &&& final(self).names@ == old(self).names@.push(name)
                &&& final(self).links@.len() == old(self).links@.len() + 1
                &&& final(self).links@[i as int]@.len() == 0
                &&& forall|k: int|
                    0 <= k < old(self).links@.len() ==> final(self).links@[k] == old(self).links@[k]
                &&& final(self)@ == old(self)@.insert(name@, Set::empty())
            },
    {
        match self.find(&name) {
            Some(i) => {
                proof {
                    self.lemma_entry(i as int);
                }
                i
            },
            None => {
                let i = self.names.len();
                self.names.push(name);
                self.links.push(Vec::new());
                proof {
                    let before = *old(self);
                    let after = *self;
                    assert(after.name_seq() =~= before.name_seq().push(name@));
                    let names = after.name_seq();
                    assert forall|p: int, q: int|
                        0 <= p < names.len() && 0 <= q < names.len() && p != q implies names[p] != names[q] by {
                        if p < i {
                            assert(before.name_seq().contains(before.name_seq()[p]));
                        }
                        if q < i {
                            assert(before.name_seq().contains(before.name_seq()[q]));
                        }
                    }
                    assert(after.well_formed());
                    assert forall|k: NodeId| #[trigger]
                        after@.contains_key(k) && k != name@ implies before@.contains_key(k) && after@[k]
                        == before@[k] by {
                        after.lemma_key(k);
                        let p = after.position(k);
                        assert(p < i);
                        before.lemma_entry(p);
                        after.lemma_entry(p);
                        assert(after.neighbor_seq(p) =~= before.neighbor_seq(p));
                    }
                    assert forall|k: NodeId| #[trigger]
                        before@.contains_key(k) implies after@.contains_key(k) by {
                        before.lemma_key(k);
                        assert(after.name_seq()[before.position(k)] == k);
                    }
                    after.lemma_entry(i as int);
                    assert(after.neighbor_seq(i as int) =~= Seq::<NodeId>::empty());
                    assert(after@[name@] =~= Set::<NodeId>::empty());
                    assert(after@ =~= before@.insert(name@, Set::empty()));
                }
                i
            },
        }
    }

    /// Lists `j` among the neighbours of `i`, once.
    fn link(&mut self, i: usize, j: usize)
        requires
            old(self).well_formed(),
            i < old(self).names@.len(),
            j < old(self).names@.len(),
        ensures
            final(self).well_formed(),
            final(self).names@ == old(self).names@,
            final(self).links@.len() == old(self).links@.len(),
            forall|k: int|
                0 <= k < old(self).links@.len() && k != i ==> final(self).links@[k] == old(self).links@[k],
            final(self).links@[i as int]@.contains(j),
            old(self).links@[i as int]@.contains(j) ==> final(self).links@[i as int]@ == old(self).links@[i as int]@,
            !old(self).links@[i as int]@.contains(j) ==> final(self).links@[i as int]@ == old(
                self,
            ).links@[i as int]@.push(j),
            final(self)@ == old(self)@.insert(
                old(self).name_seq()[i as int],
                old(self)@[old(self).name_seq()[i as int]].insert(old(self).name_seq()[j as int]),
            ),
    {
        let mut p: usize = 0;
        let mut present = false;
        while p < self.links[i].len()
            invariant
                *self == *old(self),
                i < self.links@.len(),
                p <= self.links@[i as int]@.len(),
                present <==> exists|q: int| 0 <= q < p && self.links@[i as int]@[q] == j,
            decreases self.links@[i as int]@.len() - p,
        {
            if self.links[i][p] == j {
                present = true;
            }
            p += 1;
        }
        if !present {
            self.links[i].push(j);
        }
        proof {
            let before = *old(self);
            let after = *self;
            let a = before.name_seq()[i as int];
            let b = before.name_seq()[j as int];
            assert(after.name_seq() == before.name_seq());
            assert(after.links@[i as int]@.contains(j)) by {
                if present {
                    let q = choose|q: int| 0 <= q < p && before.links@[i as int]@[q] == j;
                    assert(before.links@[i as int]@[q] == j);
                } else {
                    assert(after.links@[i as int]@[before.links@[i as int]@.len() as int] == j);
                }
            }
            assert(after.well_formed());
            before.lemma_entry(i as int);
            after.lemma_entry(i as int);
            assert(after.neighbor_seq(i as int).to_set() =~= before.neighbor_seq(i as int).to_set().insert(
                b,
            )) by {
                let row = before.links@[i as int]@;
                let s0 = before.neighbor_seq(i as int);
                let s1 = after.neighbor_seq(i as int);
                if row.contains(j) {
                    let q = choose|q: int| 0 <= q < row.len() && row[q] == j;
                    assert(s0[q] == b);
                    assert(s0.contains(b));
                    assert(s1 =~= s0);
                } else {
                    assert(s1 =~= s0.push(b));
                    assert forall|x: NodeId| s1.contains(x) <==> (s0.contains(x) || x == b) by {
                        if s0.contains(x) {
                            let q = choose|q: int| 0 <= q < s0.len() && s0[q] == x;
                            assert(s1[q] == x);
                        }
                        if x == b {
                            assert(s1[s0.len() as int] == x);
                        }
                    }
                }
            }
            assert forall|k: NodeId| #[trigger] before@.contains_key(k) && k != a implies after@[k] == before@[k] by {
                before.lemma_key(k);
                let q = before.position(k);
                before.lemma_entry(q);
                after.lemma_entry(q);
                assert(after.neighbor_seq(q) =~= before.neighbor_seq(q));
            }
            assert(after@ =~= before@.insert(a, before@[a].insert(b)));
        }
    }

    /// The number of nodes.
    pub fn node_count(&self) -> (n: usize)
        requires
            self.wf(),
        ensures
            n == self@.dom().len(),
    {
        proof {
            self.lemma_nodes_finite();
            self.name_seq().unique_seq_to_set();
            assert(self@.dom() =~= self.name_seq().to_set());
        }
        self.names.len()
    }

    /// The degree of `node`: the number of its neighbours, or `None` where
    /// `node` is not in the graph.
    pub fn degree_of(&self, node: &String) -> (d: Option<usize>)
        requires
            self.wf(),
        ensures
            d.is_some() == self@.contains_key(node@),
            d.is_some() ==> d.unwrap() == degree(self@, node@),
    {
        match self.find(node) {
            Some(i) => {
                proof {
                    self.lemma_entry(i as int);
                }
                Some(self.links[i].len())
            },
            None => None,
        }
    }

    /// Whether `second` is a neighbour of `first`.
    pub fn are_neighbors(&self, first: &String, second: &String) -> (r: bool)
        requires
            self.wf(),
        ensures
            r == (self@.contains_key(first@) && self@[first@].contains(second@)),
    {
        let i = match self.find(first) {
            Some(i) => i,
            None => {
                return false;
            },
        };
        let j = match self.find(second) {
            Some(j) => j,
            None => {
                proof {
                    self.lemma_entry(i as int);
                    let near = self.neighbor_seq(i as int);
                    if near.contains(second@) {
                        let p = choose|p: int| 0 <= p < near.len() && near[p] == second@;
                        self.lemma_entry(self.links@[i as int]@[p] as int);
                    }
                }
                return false;
            },
        };
        let mut p: usize = 0;
        while p < self.links[i].len()
            invariant
                self.well_formed(),
                i < self.names@.len(),
                j < self.names@.len(),
                self.name_seq()[i as int] == first@,
                self.name_seq()[j as int] == second@,
                p <= self.links@[i as int]@.len(),
                forall|q: int| 0 <= q < p ==> self.links@[i as int]@[q] != j,
            decreases self.links@[i as int]@.len() - p,
        {
            if self.links[i][p] == j {
                proof {
                    self.lemma_entry(i as int);
                    assert(self.neighbor_seq(i as int)[p as int] == second@);
                    assert(self.neighbor_seq(i as int).contains(second@));
                }
                return true;
            }
            p += 1;
        }
        proof {
            self.lemma_entry(i as int);
            let near = self.neighbor_seq(i as int);
            if near.contains(second@) {
                let q = choose|q: int| 0 <= q < near.len() && near[q] == second@;
                let t = self.links@[i as int]@[q];
                assert(self.name_seq()[t as int] == self.name_seq()[j as int]);
                assert(t < self.names@.len());
                assert(t == j);
            }
        }
        false
    }

    /// Adds the undirected edge between `node1` and `node2`. Each becomes a
    /// node if it was none, and each a neighbour of the other. An edge that is
    /// there already changes nothing; an edge from a node to itself makes the
    /// node its own neighbour.
    pub fn add_edge(&mut self, node1: String, node2: String)
        requires
            old(self).wf(),
        ensures
            final(self).wf(),
            final(self)@ == with_edge(old(self)@, node1@, node2@),
            final(self)@.contains_key(node1@) && final(self)@[node1@].contains(node2@),
            final(self)@.contains_key(node2@) && final(self)@[node2@].contains(node1@),
    {
        let ghost a = node1@;
        let ghost b = node2@;
        let ghost g0 = *self;
        let i = self.intern(node1);
        let ghost g1 = *self;
        let j = self.intern(node2);
        let ghost g2 = *self;
        self.link(i, j);
        let ghost g3 = *self;
        self.link(j, i);
        proof {
            let g4 = *self;
            assert(g2.name_seq()[i as int] == a) by {
                if g1@.contains_key(b) {
                } else {
                    assert(g2.name_seq() =~= g1.name_seq().push(b));
                }
            }
            assert(g1@ == with_node(g0@, a));
            assert(g2@ == with_node(g1@, b));
            assert(g3@ == g2@.insert(a, g2@[a].insert(b)));
            assert(g4@ == g3@.insert(b, g3@[b].insert(a)));
            lemma_with_edge_by_steps(g0@, a, b);
            lemma_with_edge_links(g0@, a, b);
            Self::lemma_rows_grow(g0, g1, g2, g3, g4, i, j);
            Self::lemma_linked_after_edge(g0, g4, i, j);
        }
    }

    /// How the neighbour lists after an edge was added relate to those before.
    spec fn edge_added(before: Graph, after: Graph, i: usize, j: usize) -> bool {
        &&& before.links@.len() <= after.links@.len()
        &&& i < after.links@.len()
        &&& j < after.links@.len()
        &&& after.links@[i as int]@.contains(j)
        &&& after.links@[j as int]@.contains(i)
        &&& forall|k: int|
            0 <= k < before.links@.len() ==> (#[trigger] before.links@[k])@.is_prefix_of(after.links@[k]@)
        &&& forall|k: int|
            0 <= k < after.links@.len() ==> (#[trigger] after.links@[k])@.len() >= 0 && (k < before.links@.len() || k
                == i || k == j)
        &&& forall|k: int, p: int|
            0 <= k < after.links@.len() && 0 <= p < after.links@[k]@.len() ==> {
                ||| k < before.links@.len() && p < before.links@[k]@.len()
                ||| k == i && (#[trigger] after.links@[k]@[p]) == j
                ||| k == j && after.links@[k]@[p] == i
            }
    }

    proof fn lemma_rows_grow(g0: Graph, g1: Graph, g2: Graph, g3: Graph, g4: Graph, i: usize, j: usize)
        requires
            g1 == g0 || {
                &&& g1.links@.len() == g0.links@.len() + 1
                &&& i == g0.links@.len()
                &&& g1.links@[i as int]@.len() == 0
                &&& forall|k: int| 0 <= k < g0.links@.len() ==> g1.links@[k] == g0.links@[k]
            },
            g2 == g1 || {
                &&& g2.links@.len() == g1.links@.len() + 1
                &&& j == g1.links@.len()
                &&& g2.links@[j as int]@.len() == 0
                &&& forall|k: int| 0 <= k < g1.links@.len() ==> g2.links@[k] == g1.links@[k]
            },
            i < g2.links@.len(),
            j < g2.links@.len(),
            g3.links@.len() == g2.links@.len(),
            forall|k: int| 0 <= k < g2.links@.len() && k != i ==> g3.links@[k] == g2.links@[k],
            g3.links@[i as int]@ == g2.links@[i as int]@ || g3.links@[i as int]@ == g2.links@[i as int]@.push(j),
            g3.links@[i as int]@.contains(j),
            g4.links@.len() == g3.links@.len(),
            forall|k: int| 0 <= k < g3.links@.len() && k != j ==> g4.links@[k] == g3.links@[k],
            g4.links@[j as int]@ == g3.links@[j as int]@ || g4.links@[j as int]@ == g3.links@[j as int]@.push(i),
            g4.links@[j as int]@.contains(i),
        ensures
            Self::edge_added(g0, g4, i, j),
    {
        assert(g4.links@[i as int]@.contains(j)) by {
            let row = g3.links@[i as int]@;
            let q = choose|q: int| 0 <= q < row.len() && row[q] == j;
            assert(g4.links@[i as int]@[q] == j);
        }
        assert forall|k: int| 0 <= k < g0.links@.len() implies (#[trigger] g0.links@[k])@.is_prefix_of(
            g4.links@[k]@,
        ) by {
            assert(g1.links@[k] == g0.links@[k]);
            assert(g2.links@[k] == g1.links@[k]);
            assert(g2.links@[k]@.is_prefix_of(g3.links@[k]@));
            assert(g3.links@[k]@.is_prefix_of(g4.links@[k]@));
        }
        assert forall|k: int, p: int| 0 <= k < g4.links@.len() && 0 <= p < g4.links@[k]@.len() implies {
            ||| k < g0.links@.len() && p < g0.links@[k]@.len()
            ||| k == i && (#[trigger] g4.links@[k]@[p]) == j
            ||| k == j && g4.links@[k]@[p] == i
        } by {
            if k != i && k != j {
                assert(g4.links@[k] == g3.links@[k]);
                assert(g3.links@[k] == g2.links@[k]);
            }
        }
    }

    proof fn lemma_linked_after_edge(before: Graph, after: Graph, i: usize, j: usize)
        requires
            before.well_formed(),
            before.linked(),
            Self::edge_added(before, after, i, j),
        ensures
            after.linked(),
    {
        assert forall|k: int| 0 <= k < after.links@.len() implies (#[trigger] after.links@[k])@.len() > 0 by {
            if k != i && k != j {
                assert(before.links@[k]@.is_prefix_of(after.links@[k]@));
            }
        }
        assert forall|k: int, p: int| 0 <= k < after.links@.len() && 0 <= p < after.links@[k]@.len() implies {
            let back = after.links@[#[trigger] after.links@[k]@[p] as int]@;
            back.contains(k as usize)
        } by {
            let t = after.links@[k]@[p];
            if k < before.links@.len() && p < before.links@[k]@.len() {
                assert(before.links@[k]@.is_prefix_of(after.links@[k]@));
                assert(before.links@[k]@[p] == t);
                let row = before.links@[t as int]@;
                assert(row.contains(k as usize));
                let q = choose|q: int| 0 <= q < row.len() && row[q] == k as usize;
                assert(row.is_prefix_of(after.links@[t as int]@));
                assert(after.links@[t as int]@[q] == k as usize);
            }
        }
    }

    /// The adjacency relation of a graph is symmetric: whenever `b` is a
    /// neighbour of `a`, `a` is a neighbour of `b`.
    pub proof fn lemma_symmetric(self)
        requires
            self.wf(),
        ensures
            symmetric(self@),
    {
        let names = self.name_seq();
        assert forall|a: NodeId, b: NodeId|
            self@.contains_key(a) && #[trigger] self@[a].contains(b) implies self@.contains_key(b)
            && self@[b].contains(a) by {
            self.lemma_key(a);
            let i = self.position(a);
            self.lemma_entry(i);
            let near = self.neighbor_seq(i);
            assert(near.contains(b));
            let p = choose|p: int| 0 <= p < near.len() && near[p] == b;
            let j = self.links@[i]@[p] as int;
            self.lemma_entry(j);
            let back = self.links@[j]@;
            assert(self.names.len() == self.names@.len());
            assert(back.contains(i as usize));
            let q = choose|q: int| 0 <= q < back.len() && back[q] == i as usize;
            assert(self.neighbor_seq(j)[q] == a);
            assert(self.neighbor_seq(j).contains(a));
        }
    }

    /// Every node has a neighbour, and its neighbours are finitely many.
    pub proof fn lemma_degree_positive(self, a: NodeId)
        requires
            self.wf(),
            self@.contains_key(a),
        ensures
            self@[a].finite(),
            0 < degree(self@, a) <= usize::MAX,
    {
        self.lemma_key(a);
        self.lemma_entry(self.position(a));
        assert(self.links@[self.position(a)].len() == self.links@[self.position(a)]@.len());
    }

    /// The nodes are finitely many.
    pub proof fn lemma_nodes_finite(self)
        requires
            self.wf(),
        ensures
            self@.dom().finite(),
            self@.dom().len() <= usize::MAX,
    {
        self.name_seq().unique_seq_to_set();
        assert(self@.dom() =~= self.name_seq().to_set());
        assert(self.names.len() == self.names@.len());
    }
}

impl Graph {
    /// For each position, whether the node there has `d` neighbours.
    spec fn degree_flags(self, d: usize) -> Seq<bool> {
        Seq::new(self.links@.len(), |k: int| self.links@[k]@.len() == d)
    }

    /// The nodes that `degree_flags` marks are the nodes of degree `d`.
    proof fn lemma_degree_flags(self, d: usize)
        requires
            self.well_formed(),
        ensures
            nodes_of_degree(self@, d as nat).finite(),
            nodes_of_degree(self@, d as nat).len() == count_true(self.degree_flags(d)),
            count_true(self.degree_flags(d)) <= self.links@.len(),
    {
        let names = self.name_seq();
        let flags = self.degree_flags(d);
        lemma_flagged_len(names, flags);
        lemma_count_true_bound(flags);
        assert forall|k: NodeId| flagged(names, flags).contains(k) implies nodes_of_degree(self@, d as nat).contains(
            k,
        ) by {
            let i = choose|i: int| 0 <= i < names.len() && i < flags.len() && flags[i] && #[trigger] names[i] == k;
            self.lemma_entry(i);
        }
        assert forall|k: NodeId| nodes_of_degree(self@, d as nat).contains(k) implies flagged(names, flags).contains(
            k,
        ) by {
            self.lemma_key(k);
            let i = self.position(k);
            self.lemma_entry(i);
            assert(flags[i] && names[i] == k);
        }
        assert(flagged(names, flags) =~= nodes_of_degree(self@, d as nat));
    }

    /// The counts of the degree distribution add up to the number of nodes,
    /// and no node has degree 0.
    pub proof fn lemma_distribution_total(self)
        requires
            self.wf(),
        ensures
            degree_histogram(self@).dom().finite(),
            total_count(degree_histogram(self@)) == self@.dom().len(),
            !degree_histogram(self@).contains_key(0),
    {
        let m = self@;
        let h = degree_histogram(m);
        let as_degree = |a: NodeId| degree(m, a) as usize;
        self.lemma_nodes_finite();
        m.dom().lemma_map_finite(as_degree);
        assert forall|d: usize| h.dom().contains(d) implies m.dom().map(as_degree).contains(d) by {
            self.lemma_degree_flags(d);
            let some = nodes_of_degree(m, d as nat);
            assert(some.len() > 0);
            let a = some.choose();
            assert(some.contains(a));
            assert(m.dom().contains(a) && as_degree(a) == d);
        }
        assert(h.dom().subset_of(m.dom().map(as_degree)));
        lemma_len_subset(h.dom(), m.dom().map(as_degree));
        assert forall|d: usize| #[trigger] h.dom().contains(d) implies h[d] == nodes_of_degree(m, d as nat).len() by {
            self.lemma_degree_flags(d);
            assert(self.links.len() == self.links@.len());
        }
        lemma_total_count(m, h);
        assert forall|a: NodeId| m.dom().contains(a) implies nodes_with_degree_in(m, h.dom()).contains(a) by {
            self.lemma_degree_positive(a);
            let d = degree(m, a) as usize;
            self.lemma_degree_flags(d);
            assert(nodes_of_degree(m, d as nat).contains(a));
        }
        assert(nodes_with_degree_in(m, h.dom()) =~= m.dom());
        assert(!h.contains_key(0)) by {
            self.lemma_degree_flags(0);
            let none = nodes_of_degree(m, 0);
            if none.len() > 0 {
                let a = none.choose();
                assert(none.contains(a));
                self.lemma_degree_positive(a);
            }
        }
    }

    /// The degree distribution: for each degree that some node has, the
    /// number of nodes that have it.
    pub fn degree_distribution(&self) -> (dist: HashMap<usize, usize>)
        requires
            self.wf(),
        ensures
            dist@ == degree_histogram(self@),
            total_count(dist@) == self@.dom().len(),
            !dist@.contains_key(0),
    {
        broadcast use vstd::std_specs::hash::group_hash_axioms;

        let mut dist: HashMap<usize, usize> = HashMap::new();
        let mut i: usize = 0;
        while i < self.links.len()
            invariant
                i <= self.links@.len(),
                forall|d: usize| #[trigger]
                    dist@.contains_key(d) <==> count_true(self.degree_flags(d).take(i as int)) > 0,
                forall|d: usize| #[trigger]
                    dist@.contains_key(d) ==> dist@[d] == count_true(self.degree_flags(d).take(i as int)),
            decreases self.links@.len() - i,
        {
            let degree = self.links[i].len();
            let seen: usize = match dist.get(&degree) {
                Some(c) => *c,
                None => 0,
            };
            proof {
                lemma_count_true_bound(self.degree_flags(degree).take(i as int));
                assert forall|d: usize|
                    count_true(#[trigger] self.degree_flags(d).take(i + 1)) == count_true(
                        self.degree_flags(d).take(i as int),
                    ) + if d == degree {
                        1nat
                    } else {
                        0nat
                    } by {
                    lemma_count_true_step(self.degree_flags(d), i as int);
                }
            }
            dist.insert(degree, seen + 1);
            i += 1;
        }
        proof {
            assert forall|d: usize| #[trigger]
                dist@.contains_key(d) <==> degree_histogram(self@).contains_key(d) by {
                self.lemma_degree_flags(d);
                assert(self.degree_flags(d).take(i as int) =~= self.degree_flags(d));
            }
            assert forall|d: usize| #[trigger] dist@.contains_key(d) implies dist@[d] == degree_histogram(self@)[d] by {
                self.lemma_degree_flags(d);
                assert(self.degree_flags(d).take(i as int) =~= self.degree_flags(d));
            }
            assert(dist@ =~= degree_histogram(self@));
            self.lemma_distribution_total();
        }
        dist
    }
}

impl Graph {
    /// The node at position `k` is among the first `q` neighbours of the
    /// `a`-th neighbour of the node at position `i`.
    spec fn via(self, i: int, a: int, q: int, k: int) -> bool {
        exists|b: int| 0 <= b < q && #[trigger] self.links@[self.links@[i]@[a] as int]@[b] == k
    }

    /// The node at position `k` is a neighbour of one of the first `p`
    /// neighbours of the node at position `i`.
    spec fn reached(self, i: int, p: int, k: int) -> bool {
        exists|a: int|
            0 <= a < p && #[trigger] self.via(i, a, self.links@[self.links@[i]@[a] as int]@.len() as int, k)
    }

    /// The marks that the search from position `i` ends with name the
    /// two-hop set of the node there.
    proof fn lemma_two_hop_marks(self, i: int, marks: Seq<bool>)
        requires
            self.well_formed(),
            0 <= i < self.names@.len(),
            marks.len() == self.names@.len(),
            forall|k: int|
                0 <= k < marks.len() ==> (#[trigger] marks[k] <==> k != i && self.reached(
                    i,
                    self.links@[i]@.len() as int,
                    k,
                )),
        ensures
            flagged(self.name_seq(), marks) == two_hop(self@, self.name_seq()[i]),
    {
        let names = self.name_seq();
        let origin = names[i];
        let row = self.links@[i]@;
        self.lemma_entry(i);
        assert forall|c: NodeId| flagged(names, marks).contains(c) implies two_hop(self@, origin).contains(c) by {
            let k = choose|k: int| 0 <= k < names.len() && k < marks.len() && marks[k] && #[trigger] names[k] == c;
            assert(self.reached(i, row.len() as int, k));
            let a = choose|a: int|
                0 <= a < row.len() && #[trigger] self.via(i, a, self.links@[row[a] as int]@.len() as int, k);
            let j = row[a] as int;
            let b = choose|b: int| 0 <= b < self.links@[j]@.len() && #[trigger] self.links@[j]@[b] == k;
            self.lemma_entry(j);
            assert(self.neighbor_seq(i)[a] == names[j]);
            assert(self.neighbor_seq(i).contains(names[j]));
            assert(self.neighbor_seq(j)[b] == names[k]);
            assert(self.neighbor_seq(j).contains(c));
            assert(self@[names[j]].contains(c));
        }
        assert forall|c: NodeId| two_hop(self@, origin).contains(c) implies flagged(names, marks).contains(c) by {
            let mid = choose|mid: NodeId|
                self@.contains_key(origin) && self@[origin].contains(mid) && self@.contains_key(mid)
                    && #[trigger] self@[mid].contains(c);
            let near = self.neighbor_seq(i);
            assert(near.contains(mid));
            let a = choose|a: int| 0 <= a < near.len() && near[a] == mid;
            let j = row[a] as int;
            self.lemma_entry(j);
            let far = self.neighbor_seq(j);
            assert(far.contains(c));
            let b = choose|b: int| 0 <= b < far.len() && far[b] == c;
            let k = self.links@[j]@[b] as int;
            assert(names[k] == c);
            assert(k != i);
            assert(self.via(i, a, self.links@[j]@.len() as int, k));
            assert(self.reached(i, row.len() as int, k));
            assert(marks[k]);
        }
        assert(flagged(names, marks) =~= two_hop(self@, origin));
    }

    /// The number of distinct nodes that are neighbours of a neighbour of
    /// `node`, `node` itself left out; 0 where `node` is not in the graph.
    /// A neighbour of `node` that is also a neighbour of another of its
    /// neighbours is counted.
    pub fn neighbors_at_distance_two(&self, node: &String) -> (count: usize)
        requires
            self.wf(),
        ensures
            count == two_hop(self@, node@).len(),
            !self@.contains_key(node@) ==> count == 0,
    {
        let i = match self.find(node) {
            Some(i) => i,
            None => {
                assert(two_hop(self@, node@) =~= Set::<NodeId>::empty());
                return 0;
            },
        };
        let n = self.names.len();
        let mut marks: Vec<bool> = Vec::new();
        while marks.len() < n
            invariant
                marks@.len() <= n,
                forall|k: int| 0 <= k < marks@.len() ==> !marks@[k],
            decreases n - marks@.len(),
        {
            marks.push(false);
        }
        let mut p: usize = 0;
        while p < self.links[i].len()
            invariant
                self.well_formed(),
                i < n,
                n == self.names@.len(),
                marks@.len() == n,
                p <= self.links@[i as int]@.len(),
                forall|k: int|
                    0 <= k < n ==> (#[trigger] marks@[k] <==> k != i && self.reached(i as int, p as int, k)),
            decreases self.links@[i as int]@.len() - p,
        {
            let j = self.links[i][p];
            let mut q: usize = 0;
            while q < self.links[j].len()
                invariant
                    self.well_formed(),
                    i < n,
                    j < n,
                    n == self.names@.len(),
                    marks@.len() == n,
                    p < self.links@[i as int]@.len(),
                    j == self.links@[i as int]@[p as int],
                    q <= self.links@[j as int]@.len(),
                    forall|k: int|
                        0 <= k < n ==> (#[trigger] marks@[k] <==> k != i && (self.reached(i as int, p as int, k)
                            || self.via(i as int, p as int, q as int, k))),
                decreases self.links@[j as int]@.len() - q,
            {
                let k = self.links[j][q];
                assert(self.via(i as int, p as int, q + 1, k as int));
                assert forall|x: int| self.via(i as int, p as int, q + 1, x) implies self.via(
                    i as int,
                    p as int,
                    q as int,
                    x,
                ) || x == k by {
                    let b = choose|b: int| 0 <= b < q + 1 && #[trigger] self.links@[j as int]@[b] == x;
                    if b < q {
                        assert(self.via(i as int, p as int, q as int, x));
                    }
                }
                assert forall|x: int| self.via(i as int, p as int, q as int, x) implies self.via(
                    i as int,
                    p as int,
                    q + 1,
                    x,
                ) by {
                    let b = choose|b: int| 0 <= b < q && #[trigger] self.links@[j as int]@[b] == x;
                    assert(0 <= b < q + 1);
                }
                if k != i {
                    marks.set(k, true);
                }
                q += 1;
            }
            proof {
                let full = self.links@[j as int]@.len() as int;
                assert forall|x: int| self.reached(i as int, p + 1, x) <==> self.reached(i as int, p as int, x)
                    || self.via(i as int, p as int, full, x) by {
                    if self.reached(i as int, p + 1, x) {
                        let a = choose|a: int|
                            0 <= a < p + 1 && #[trigger] self.via(
                                i as int,
                                a,
                                self.links@[self.links@[i as int]@[a] as int]@.len() as int,
                                x,
                            );
                        if a < p {
                            assert(self.reached(i as int, p as int, x));
                        }
                    }
                    if self.reached(i as int, p as int, x) {
                        let a = choose|a: int|
                            0 <= a < p && #[trigger] self.via(
                                i as int,
                                a,
                                self.links@[self.links@[i as int]@[a] as int]@.len() as int,
                                x,
                            );
                        assert(0 <= a < p + 1);
                    }
                }
            }
            p += 1;
        }
        let mut count: usize = 0;
        let mut k: usize = 0;
        while k < n
            invariant
                k <= n,
                marks@.len() == n,
                count == count_true(marks@.take(k as int)),
                count <= k,
            decreases n - k,
        {
            proof {
                lemma_count_true_step(marks@, k as int);
            }
            if marks[k] {
                count += 1;
            }
            k += 1;
        }
        proof {
            assert(marks@.take(n as int) =~= marks@);
            lemma_flagged_len(self.name_seq(), marks@);
            self.lemma_two_hop_marks(i as int, marks@);
        }
        count
    }
}

} // verus!
