use vstd::prelude::*;
use crate::graph::SimpleMapGraph;
use crate::keys::{EdgeIdx, NodeIdx};
use crate::vecmap::eq_is_identity;

verus! {

/// The operations every graph offers.
pub trait Graph<N, E>: Sized {
    /// The graph's internal invariant.
    spec fn inv(&self) -> bool;

    /// The nodes and their payloads.
    spec fn nodes_view(&self) -> Map<NodeIdx, N>;

    /// The edges, each with its source, target and payload.
    spec fn edges_view(&self) -> Map<EdgeIdx, (NodeIdx, NodeIdx, E)>;

    /// The number of nodes.
    spec fn node_total(&self) -> nat;

    /// The number of edges.
    spec fn edge_total(&self) -> nat;

    /// Whether edges have a direction.
    spec fn directed() -> bool;

    /// Whether two edges may join the same nodes in the same direction.
    spec fn multigraph() -> bool;

    /// Some edge runs from `a` to `b`, or, undirected, joins them.
    spec fn joins(&self, a: NodeIdx, b: NodeIdx) -> bool;

    /// The edges that touch `n`.
    spec fn touching(&self, n: NodeIdx) -> Set<EdgeIdx>;

    fn is_directed(&self) -> (r: bool)
        ensures
            r == Self::directed(),
    ;

    fn is_multigraph(&self) -> (r: bool)
        ensures
            r == Self::multigraph(),
    ;

    fn add_node(&mut self, payload: N) -> (n: NodeIdx)
        requires
            old(self).inv(),
        ensures
            final(self).inv(),
            !old(self).nodes_view().contains_key(n),
            final(self).nodes_view() == old(self).nodes_view().insert(n, payload),
            final(self).edges_view() == old(self).edges_view(),
            final(self).node_total() == old(self).node_total() + 1,
    ;

    fn remove_node(&mut self, n: NodeIdx) -> (r: Option<N>)
        requires
            old(self).inv(),
        ensures
            final(self).inv(),
            r.is_some() == old(self).nodes_view().contains_key(n),
            r.is_some() ==> r == Some(old(self).nodes_view()[n]),
            final(self).nodes_view() == old(self).nodes_view().remove(n),
            forall|e: EdgeIdx|
                #[trigger] final(self).edges_view().contains_key(e) <==> (old(self).edges_view().contains_key(e)
                    && !old(self).touching(n).contains(e)),
            r.is_some() ==> final(self).edge_total() + old(self).touching(n).len() == old(self).edge_total(),
    ;

    fn contains_node(&self, n: NodeIdx) -> (r: bool)
        requires
            self.inv(),
        ensures
            r == self.nodes_view().contains_key(n),
    ;

    fn find_node(&self, payload: &N) -> (r: Option<NodeIdx>)
        where N: PartialEq
        requires
            self.inv(),
            eq_is_identity::<N>(),
        ensures
            r matches Some(n) ==> self.nodes_view().contains_key(n) && self.nodes_view()[n] == *payload,
            r.is_none() ==> forall|n: NodeIdx| #[trigger] self.nodes_view().contains_key(n) ==> self.nodes_view()[n] != *payload,
    ;

    fn node_count(&self) -> (r: usize)
        requires
            self.inv(),
        ensures
            r == self.node_total(),
    ;

    fn node_indices(&self) -> (r: Vec<NodeIdx>)
        requires
            self.inv(),
        ensures
            r@.no_duplicates(),
            forall|n: NodeIdx| r@.contains(n) <==> self.nodes_view().contains_key(n),
    ;

    fn add_edge(&mut self, from: NodeIdx, to: NodeIdx, payload: E) -> (r: Option<EdgeIdx>)
        requires
            old(self).inv(),
        ensures
            final(self).inv(),
            final(self).nodes_view() == old(self).nodes_view(),
            r.is_none() ==> final(self).edges_view() == old(self).edges_view(),
            r matches Some(e) ==> {
                &&& !old(self).edges_view().contains_key(e)
                &&& final(self).edges_view() == old(self).edges_view().insert(e, (from, to, payload))
                &&& final(self).edge_total() == old(self).edge_total() + 1
            },
            old(self).nodes_view().contains_key(from) && old(self).nodes_view().contains_key(to) && from != to
                && !old(self).joins(from, to) ==> r.is_some(),
    ;

    fn remove_edge(&mut self, e: EdgeIdx) -> (r: Option<E>)
        requires
            old(self).inv(),
        ensures
            final(self).inv(),
            r.is_some() == old(self).edges_view().contains_key(e),
            final(self).nodes_view() == old(self).nodes_view(),
            final(self).edges_view() == old(self).edges_view().remove(e),
            r.is_some() ==> r == Some(old(self).edges_view()[e].2),
    ;

    fn contains_edge(&self, e: EdgeIdx) -> (r: bool)
        requires
            self.inv(),
        ensures
            r == self.edges_view().contains_key(e),
    ;

    fn find_edge(&self, payload: &E) -> (r: Option<EdgeIdx>)
        where E: PartialEq
        requires
            self.inv(),
            eq_is_identity::<E>(),
        ensures
            r matches Some(e) ==> self.edges_view().contains_key(e) && self.edges_view()[e].2 == *payload,
            r.is_none() ==> forall|e: EdgeIdx| #[trigger] self.edges_view().contains_key(e) ==> self.edges_view()[e].2 != *payload,
    ;

    fn edge_count(&self) -> (r: usize)
        requires
            self.inv(),
        ensures
            r == self.edge_total(),
    ;

    fn edge_indices(&self) -> (r: Vec<EdgeIdx>)
        requires
            self.inv(),
        ensures
            r@.no_duplicates(),
            forall|e: EdgeIdx| r@.contains(e) <==> self.edges_view().contains_key(e),
    ;

    fn contains_edge_between(&self, a: NodeIdx, b: NodeIdx) -> (r: bool)
        requires
            self.inv(),
        ensures
            r == self.joins(a, b),
    ;

    fn edges_of(&self, n: NodeIdx) -> (r: Vec<EdgeIdx>)
        requires
            self.inv(),
        ensures
            forall|e: EdgeIdx| r@.contains(e) <==> self.touching(n).contains(e),
    ;

    fn neighbors(&self, n: NodeIdx) -> (r: Vec<NodeIdx>)
        requires
            self.inv(),
        ensures
            forall|p: NodeIdx| r@.contains(p) <==> (self.joins(n, p) || self.joins(p, n)),
    ;

    fn degree(&self, n: NodeIdx) -> (r: usize)
        requires
            self.inv(),
        ensures
            self.nodes_view().contains_key(n) ==> r == self.touching(n).len(),
            !self.nodes_view().contains_key(n) ==> r == 0,
    ;

    fn isolated(&self) -> (r: Vec<NodeIdx>)
        requires
            self.inv(),
        ensures
            r@.no_duplicates(),
            forall|n: NodeIdx| r@.contains(n) <==> (self.nodes_view().contains_key(n) && self.touching(n).len() == 0),
    ;
}

impl<N, E, const DIRECTED: bool> Graph<N, E> for SimpleMapGraph<N, E, DIRECTED> {
    open spec fn inv(&self) -> bool {
        self.wf()
    }

    open spec fn nodes_view(&self) -> Map<NodeIdx, N> {
        self.node_map()
    }

    open spec fn edges_view(&self) -> Map<EdgeIdx, (NodeIdx, NodeIdx, E)> {
        self.edge_map()
    }

    open spec fn node_total(&self) -> nat {
        self.spec_node_count()
    }

    open spec fn edge_total(&self) -> nat {
        self.spec_edge_count()
    }

    open spec fn directed() -> bool {
        DIRECTED
    }

    open spec fn multigraph() -> bool {
        false
    }

    open spec fn joins(&self, a: NodeIdx, b: NodeIdx) -> bool {
        self.connects(a, b)
    }

    open spec fn touching(&self, n: NodeIdx) -> Set<EdgeIdx> {
        self.incident_edges(n)
    }

    fn is_directed(&self) -> (r: bool) {
        SimpleMapGraph::is_directed(self)
    }

    fn is_multigraph(&self) -> (r: bool) {
        SimpleMapGraph::is_multigraph(self)
    }

    fn add_node(&mut self, payload: N) -> (n: NodeIdx) {
        SimpleMapGraph::add_node(self, payload)
    }

    fn remove_node(&mut self, n: NodeIdx) -> (r: Option<N>) {
        let ghost g0 = *self;
        let r = SimpleMapGraph::remove_node(self, n);
        assert(self.node_map() =~= g0.node_map().remove(n));
        r
    }

    fn contains_node(&self, n: NodeIdx) -> (r: bool) {
        SimpleMapGraph::contains_node(self, n)
    }

    fn find_node(&self, payload: &N) -> (r: Option<NodeIdx>) where N: PartialEq {
        SimpleMapGraph::find_node(self, payload)
    }

    fn node_count(&self) -> (r: usize) {
        SimpleMapGraph::node_count(self)
    }

    fn node_indices(&self) -> (r: Vec<NodeIdx>) {
        SimpleMapGraph::node_indices(self)
    }

    fn add_edge(&mut self, from: NodeIdx, to: NodeIdx, payload: E) -> (r: Option<EdgeIdx>) {
        SimpleMapGraph::add_edge(self, from, to, payload)
    }

    fn remove_edge(&mut self, e: EdgeIdx) -> (r: Option<E>) {
        let r = SimpleMapGraph::remove_edge(self, e);
        proof {
            if r.is_none() {
                assert(self.edge_map() =~= self.edge_map().remove(e));
            }
        }
        r
    }

    fn contains_edge(&self, e: EdgeIdx) -> (r: bool) {
        SimpleMapGraph::contains_edge(self, e)
    }

    fn find_edge(&self, payload: &E) -> (r: Option<EdgeIdx>) where E: PartialEq {
        SimpleMapGraph::find_edge(self, payload)
    }

    fn edge_count(&self) -> (r: usize) {
        SimpleMapGraph::edge_count(self)
    }

    fn edge_indices(&self) -> (r: Vec<EdgeIdx>) {
        SimpleMapGraph::edge_indices(self)
    }

    fn contains_edge_between(&self, a: NodeIdx, b: NodeIdx) -> (r: bool) {
        SimpleMapGraph::contains_edge_between(self, a, b)
    }

    fn edges_of(&self, n: NodeIdx) -> (r: Vec<EdgeIdx>) {
        SimpleMapGraph::edges_of(self, n)
    }

    fn neighbors(&self, n: NodeIdx) -> (r: Vec<NodeIdx>) {
        SimpleMapGraph::neighbors(self, n)
    }

    fn degree(&self, n: NodeIdx) -> (r: usize) {
        proof {
            if self.node_map().contains_key(n) {
                self.lemma_degree_counts_edges(n);
            }
        }
        SimpleMapGraph::degree(self, n)
    }

    fn isolated(&self) -> (r: Vec<NodeIdx>) {
        proof {
            assert forall|n: NodeIdx| self.node_map().contains_key(n) implies self.spec_degree(n) == self.touching(n).len() by {
                self.lemma_degree_counts_edges(n);
            }
        }
        SimpleMapGraph::isolated(self)
    }
}

/// The operations of a graph whose edges have a direction.
pub trait DirectedGraph<N, E>: Graph<N, E> {
    /// The edges entering `n`.
    spec fn entering(&self, n: NodeIdx) -> Set<EdgeIdx>;

    /// The edges leaving `n`.
    spec fn leaving(&self, n: NodeIdx) -> Set<EdgeIdx>;

    fn in_degree(&self, n: NodeIdx) -> (r: usize)
        requires
            self.inv(),
        ensures
            self.nodes_view().contains_key(n) ==> r == self.entering(n).len(),
            !self.nodes_view().contains_key(n) ==> r == 0,
    ;

    fn out_degree(&self, n: NodeIdx) -> (r: usize)
        requires
            self.inv(),
        ensures
            self.nodes_view().contains_key(n) ==> r == self.leaving(n).len(),
            !self.nodes_view().contains_key(n) ==> r == 0,
    ;

    fn incoming_edges_of(&self, n: NodeIdx) -> (r: Vec<EdgeIdx>)
        requires
            self.inv(),
        ensures
            forall|e: EdgeIdx| r@.contains(e) <==> self.entering(n).contains(e),
    ;

    fn outgoing_edges_of(&self, n: NodeIdx) -> (r: Vec<EdgeIdx>)
        requires
            self.inv(),
        ensures
            forall|e: EdgeIdx| r@.contains(e) <==> self.leaving(n).contains(e),
    ;

    fn in_neighbors(&self, n: NodeIdx) -> (r: Vec<NodeIdx>)
        requires
            self.inv(),
        ensures
            forall|p: NodeIdx| r@.contains(p) <==> self.joins(p, n),
    ;

    fn out_neighbors(&self, n: NodeIdx) -> (r: Vec<NodeIdx>)
        requires
            self.inv(),
        ensures
            forall|p: NodeIdx| r@.contains(p) <==> self.joins(n, p),
    ;

    fn sources(&self) -> (r: Vec<NodeIdx>)
        requires
            self.inv(),
        ensures
            r@.no_duplicates(),
            forall|n: NodeIdx| r@.contains(n) <==> (self.nodes_view().contains_key(n) && self.entering(n).len() == 0),
    ;

    fn sinks(&self) -> (r: Vec<NodeIdx>)
        requires
            self.inv(),
        ensures
            r@.no_duplicates(),
            forall|n: NodeIdx| r@.contains(n) <==> (self.nodes_view().contains_key(n) && self.leaving(n).len() == 0),
    ;

    fn reverse(&mut self)
        requires
            old(self).inv(),
        ensures
            final(self).inv(),
            final(self).nodes_view() == old(self).nodes_view(),
            final(self).edges_view().dom() == old(self).edges_view().dom(),
            forall|e: EdgeIdx|
                #[trigger] final(self).edges_view().contains_key(e) ==> final(self).edges_view()[e] == (
                    old(self).edges_view()[e].1,
                    old(self).edges_view()[e].0,
                    old(self).edges_view()[e].2,
                ),
    ;

    fn reverse_edge(&mut self, e: EdgeIdx) -> (r: bool)
        requires
            old(self).inv(),
        ensures
            final(self).inv(),
            r == (old(self).edges_view().contains_key(e) && !old(self).joins(
                old(self).edges_view()[e].1,
                old(self).edges_view()[e].0,
            )),
            final(self).nodes_view() == old(self).nodes_view(),
            !r ==> final(self).edges_view() == old(self).edges_view(),
            r ==> final(self).edges_view() == old(self).edges_view().insert(
                e,
                (old(self).edges_view()[e].1, old(self).edges_view()[e].0, old(self).edges_view()[e].2),
            ),
    ;
}

impl<N, E> DirectedGraph<N, E> for SimpleMapGraph<N, E, true> {
    open spec fn entering(&self, n: NodeIdx) -> Set<EdgeIdx> {
        self.in_edges(n)
    }

    open spec fn leaving(&self, n: NodeIdx) -> Set<EdgeIdx> {
        self.out_edges(n)
    }

    fn in_degree(&self, n: NodeIdx) -> (r: usize) {
        proof {
            if self.node_map().contains_key(n) {
                self.lemma_degree_counts_edges(n);
            }
        }
        SimpleMapGraph::in_degree(self, n)
    }

    fn out_degree(&self, n: NodeIdx) -> (r: usize) {
        proof {
            if self.node_map().contains_key(n) {
                self.lemma_degree_counts_edges(n);
            }
        }
        SimpleMapGraph::out_degree(self, n)
    }

    fn incoming_edges_of(&self, n: NodeIdx) -> (r: Vec<EdgeIdx>) {
        SimpleMapGraph::incoming_edges_of(self, n)
    }

    fn outgoing_edges_of(&self, n: NodeIdx) -> (r: Vec<EdgeIdx>) {
        SimpleMapGraph::outgoing_edges_of(self, n)
    }

    fn in_neighbors(&self, n: NodeIdx) -> (r: Vec<NodeIdx>) {
        SimpleMapGraph::in_neighbors(self, n)
    }

    fn out_neighbors(&self, n: NodeIdx) -> (r: Vec<NodeIdx>) {
        SimpleMapGraph::out_neighbors(self, n)
    }

    fn sources(&self) -> (r: Vec<NodeIdx>) {
        proof {
            assert forall|n: NodeIdx| self.node_map().contains_key(n) implies self.spec_in_degree(n) == self.in_edges(
                n,
            ).len() by {
                self.lemma_degree_counts_edges(n);
            }
        }
        SimpleMapGraph::sources(self)
    }

    fn sinks(&self) -> (r: Vec<NodeIdx>) {
        proof {
            assert forall|n: NodeIdx| self.node_map().contains_key(n) implies self.spec_out_degree(n) == self.out_edges(
                n,
            ).len() by {
                self.lemma_degree_counts_edges(n);
            }
        }
        SimpleMapGraph::sinks(self)
    }

    fn reverse(&mut self) {
        SimpleMapGraph::reverse(self)
    }

    fn reverse_edge(&mut self, e: EdgeIdx) -> (r: bool) {
        SimpleMapGraph::reverse_edge(self, e)
    }
}

} // verus!
