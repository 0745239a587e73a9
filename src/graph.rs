use vstd::prelude::*;
use crate::arena::Arena;
use crate::keys::{EdgeIdx, NodeIdx};
use crate::vecmap::{eq_is_identity, has_key, is_first_key, keys_of, unique_keys, values_of, VecMap};

verus! {

/// The edges touching one node. In a directed graph `outgoing` holds the
/// edges leaving the node and `incoming` those entering it, each under the
/// peer node; in an undirected graph `outgoing` holds every incident edge and
/// `incoming` stays empty.
struct AdjacencyStorage {
    outgoing: Vec<(NodeIdx, EdgeIdx)>,
    incoming: Vec<(NodeIdx, EdgeIdx)>,
}

/// A node's payload and its adjacency record.
struct NodeRecord<N> {
    payload: N,
    adjacency: AdjacencyStorage,
}

/// An edge's payload and its endpoints as stored.
struct EdgeRecord<E> {
    from: NodeIdx,
    to: NodeIdx,
    payload: E,
}

/// The peers of a list of adjacency entries, in order.
fn peers_in(l: &Vec<(NodeIdx, EdgeIdx)>) -> (r: Vec<NodeIdx>)
    ensures
        r@ == keys_of(l@),
{
    let mut r: Vec<NodeIdx> = Vec::new();
    let mut i: usize = 0;
    while i < l.len()
        invariant
            i <= l@.len(),
            r@ == keys_of(l@.subrange(0, i as int)),
        decreases l@.len() - i,
    {
        r.push(l[i].0);
        i = i + 1;
        assert(keys_of(l@.subrange(0, i as int)) =~= keys_of(l@.subrange(0, i - 1 as int)).push(l@[i - 1].0));
    }
    assert(l@.subrange(0, i as int) =~= l@);
    r
}

/// The edges of a list of adjacency entries, in order.
fn edges_in(l: &Vec<(NodeIdx, EdgeIdx)>) -> (r: Vec<EdgeIdx>)
    ensures
        r@ == values_of(l@),
{
    let mut r: Vec<EdgeIdx> = Vec::new();
    let mut i: usize = 0;
    while i < l.len()
        invariant
            i <= l@.len(),
            r@ == values_of(l@.subrange(0, i as int)),
        decreases l@.len() - i,
    {
        r.push(l[i].1);
        i = i + 1;
        assert(values_of(l@.subrange(0, i as int)) =~= values_of(l@.subrange(0, i - 1 as int)).push(l@[i - 1].1));
    }
    assert(l@.subrange(0, i as int) =~= l@);
    r
}

/// A simple graph (no loops, at most one edge between two nodes in a given
/// direction) with stable node and edge indices. `DIRECTED` fixes at the type
/// level whether edges have a direction.
pub struct SimpleMapGraph<N, E, const DIRECTED: bool> {
    nodes: Arena<NodeRecord<N>>,
    edges: Arena<EdgeRecord<E>>,
    reversed: bool,
}

impl<N, E, const DIRECTED: bool> SimpleMapGraph<N, E, DIRECTED> {
    /// The nodes and their payloads.
    pub closed spec fn node_map(&self) -> Map<NodeIdx, N> {
        Map::new(|n: NodeIdx| self.nodes@.contains_key(n.key()), |n: NodeIdx| self.nodes@[n.key()].payload)
    }

    /// The edges, each with its source, target and payload.
    pub closed spec fn edge_map(&self) -> Map<EdgeIdx, (NodeIdx, NodeIdx, E)> {
        Map::new(
            |e: EdgeIdx| self.edges@.contains_key(e.key()),
            |e: EdgeIdx|
                {
                    let r = self.edges@[e.key()];
                    if self.reversed {
                        (r.to, r.from, r.payload)
                    } else {
                        (r.from, r.to, r.payload)
                    }
                },
        )
    }

    /// The number of nodes.
    pub closed spec fn spec_node_count(&self) -> nat {
        self.nodes.spec_len()
    }

    /// The number of edges.
    pub closed spec fn spec_edge_count(&self) -> nat {
        self.edges.spec_len()
    }

    /// `n` was removed and can never name a node again.
    pub closed spec fn node_retired(&self, n: NodeIdx) -> bool {
        self.nodes.retired(n.key())
    }

    /// `e` was removed and can never name an edge again.
    pub closed spec fn edge_retired(&self, e: EdgeIdx) -> bool {
        self.edges.retired(e.key())
    }

    /// Some edge runs from `a` to `b`, or, in an undirected graph, joins them.
    pub open spec fn connects(&self, a: NodeIdx, b: NodeIdx) -> bool {
        exists|e: EdgeIdx|
            #[trigger] self.edge_map().contains_key(e) && {
                ||| (self.edge_map()[e].0 == a && self.edge_map()[e].1 == b)
                ||| (!DIRECTED && self.edge_map()[e].0 == b && self.edge_map()[e].1 == a)
            }
    }

    /// The number of adjacency entries of `n`: its degree.
    pub closed spec fn spec_degree(&self, n: NodeIdx) -> nat {
        (self.out_list(n).len() + self.in_list(n).len()) as nat
    }

    /// The number of edges leaving `n`.
    pub closed spec fn spec_out_degree(&self, n: NodeIdx) -> nat {
        self.logical_out(n).len()
    }

    /// The number of edges entering `n`.
    pub closed spec fn spec_in_degree(&self, n: NodeIdx) -> nat {
        self.logical_in(n).len()
    }

    /// The degree (`kind` 0), in-degree (1) or out-degree (2) of `n`.
    pub open spec fn count_of(&self, n: NodeIdx, kind: u8) -> nat {
        if kind == 0 {
            self.spec_degree(n)
        } else if kind == 1 {
            self.spec_in_degree(n)
        } else {
            self.spec_out_degree(n)
        }
    }

    /// `self` is `g` with every edge turned around.
    pub open spec fn is_reverse_of(&self, g: &Self) -> bool {
        &&& self.node_map() == g.node_map()
        &&& self.edge_map().dom() == g.edge_map().dom()
        &&& forall|e: EdgeIdx|
            #[trigger] self.edge_map().contains_key(e) ==> self.edge_map()[e] == (
                g.edge_map()[e].1,
                g.edge_map()[e].0,
                g.edge_map()[e].2,
            )
        &&& forall|n: NodeIdx| #[trigger] self.spec_in_degree(n) == g.spec_out_degree(n)
        &&& forall|n: NodeIdx| #[trigger] self.spec_out_degree(n) == g.spec_in_degree(n)
        &&& self.spec_node_count() == g.spec_node_count()
        &&& self.spec_edge_count() == g.spec_edge_count()
    }

    /// The edges leaving `n`.
    pub open spec fn out_edges(&self, n: NodeIdx) -> Set<EdgeIdx> {
        Set::new(|e: EdgeIdx| self.edge_map().contains_key(e) && self.edge_map()[e].0 == n)
    }

    /// The edges entering `n`.
    pub open spec fn in_edges(&self, n: NodeIdx) -> Set<EdgeIdx> {
        Set::new(|e: EdgeIdx| self.edge_map().contains_key(e) && self.edge_map()[e].1 == n)
    }

    /// The edges touching `n`.
    pub open spec fn incident_edges(&self, n: NodeIdx) -> Set<EdgeIdx> {
        self.out_edges(n).union(self.in_edges(n))
    }

    /// The endpoint of edge `e` that is not `n`.
    pub open spec fn peer(&self, e: EdgeIdx, n: NodeIdx) -> NodeIdx {
        if self.edge_map()[e].0 == n {
            self.edge_map()[e].1
        } else {
            self.edge_map()[e].0
        }
    }

    /// The nodes joined to `n` by an edge, in either direction.
    pub open spec fn neighbor_set(&self, n: NodeIdx) -> Set<NodeIdx> {
        Set::new(|p: NodeIdx| self.connects(n, p) || self.connects(p, n))
    }

    spec fn out_list(&self, u: NodeIdx) -> Seq<(NodeIdx, EdgeIdx)> {
        self.nodes@[u.key()].adjacency.outgoing@
    }

    spec fn in_list(&self, u: NodeIdx) -> Seq<(NodeIdx, EdgeIdx)> {
        self.nodes@[u.key()].adjacency.incoming@
    }

    /// The list holding the edges that leave `u` as the graph is seen.
    spec fn logical_out(&self, u: NodeIdx) -> Seq<(NodeIdx, EdgeIdx)> {
        if self.reversed {
            self.in_list(u)
        } else {
            self.out_list(u)
        }
    }

    /// The list holding the edges that enter `u` as the graph is seen.
    spec fn logical_in(&self, u: NodeIdx) -> Seq<(NodeIdx, EdgeIdx)> {
        if self.reversed {
            self.out_list(u)
        } else {
            self.in_list(u)
        }
    }

    /// An entry `(p, e)` in the outgoing (or combined) list of `u` is a
    /// stored edge from `u` to `p` (or, undirected, from `p` to `u`).
    spec fn out_entry_ok(&self, u: NodeIdx, x: (NodeIdx, EdgeIdx)) -> bool {
        let r = self.edges@[x.1.key()];
        &&& self.edges@.contains_key(x.1.key())
        &&& {
            ||| (r.from == u && r.to == x.0)
            ||| (!DIRECTED && r.from == x.0 && r.to == u)
        }
    }

    spec fn in_entry_ok(&self, u: NodeIdx, x: (NodeIdx, EdgeIdx)) -> bool {
        let r = self.edges@[x.1.key()];
        &&& self.edges@.contains_key(x.1.key())
        &&& r.from == x.0
        &&& r.to == u
    }

    spec fn node_ok(&self, u: NodeIdx) -> bool {
        let a = self.nodes@[u.key()].adjacency;
        &&& unique_keys(a.outgoing@)
        &&& unique_keys(a.incoming@)
        &&& !DIRECTED ==> a.incoming@.len() == 0
        &&& forall|j: int| 0 <= j < a.outgoing@.len() ==> self.out_entry_ok(u, #[trigger] a.outgoing@[j])
        &&& forall|j: int| 0 <= j < a.incoming@.len() ==> self.in_entry_ok(u, #[trigger] a.incoming@[j])
    }

    spec fn edge_ok(&self, e: EdgeIdx) -> bool {
        let r = self.edges@[e.key()];
        &&& self.nodes@.contains_key(r.from.key())
        &&& self.nodes@.contains_key(r.to.key())
        &&& r.from != r.to
        &&& self.out_list(r.from).contains((r.to, e))
        &&& if DIRECTED {
            self.in_list(r.to).contains((r.from, e))
        } else {
            self.out_list(r.to).contains((r.from, e))
        }
    }

    /// The graph's internal invariant.
    pub closed spec fn wf(&self) -> bool {
        &&& self.nodes.wf()
        &&& self.edges.wf()
        &&& !DIRECTED ==> !self.reversed
        &&& forall|u: NodeIdx| #[trigger] self.nodes@.contains_key(u.key()) ==> self.node_ok(u)
        &&& forall|e: EdgeIdx| #[trigger] self.edges@.contains_key(e.key()) ==> self.edge_ok(e)
    }

    /// An empty graph.
    pub fn new() -> (r: Self)
        ensures
            r.wf(),
            r.node_map() == Map::<NodeIdx, N>::empty(),
            r.edge_map() == Map::<EdgeIdx, (NodeIdx, NodeIdx, E)>::empty(),
            r.spec_node_count() == 0,
            r.spec_edge_count() == 0,
    {
        let r = SimpleMapGraph { nodes: Arena::new(), edges: Arena::new(), reversed: false };
        assert(r.node_map() =~= Map::<NodeIdx, N>::empty());
        assert(r.edge_map() =~= Map::<EdgeIdx, (NodeIdx, NodeIdx, E)>::empty());
        r
    }

    /// Whether edges have a direction.
    pub fn is_directed(&self) -> (r: bool)
        ensures
            r == DIRECTED,
    {
        DIRECTED
    }

    /// Whether two edges may join the same nodes in the same direction:
    /// never, for this graph.
    pub fn is_multigraph(&self) -> (r: bool)
        ensures
            !r,
    {
        false
    }

    /// The number of nodes.
    pub fn node_count(&self) -> (r: usize)
        requires
            self.wf(),
        ensures
            r == self.spec_node_count(),
    {
        self.nodes.len()
    }

    /// The number of edges.
    pub fn edge_count(&self) -> (r: usize)
        requires
            self.wf(),
        ensures
            r == self.spec_edge_count(),
    {
        self.edges.len()
    }

    /// Whether `n` names a node of the graph.
    pub fn contains_node(&self, n: NodeIdx) -> (r: bool)
        requires
            self.wf(),
        ensures
            r == self.node_map().contains_key(n),
    {
        self.nodes.contains_key(n.to_key())
    }

    /// Whether `e` names an edge of the graph.
    pub fn contains_edge(&self, e: EdgeIdx) -> (r: bool)
        requires
            self.wf(),
        ensures
            r == self.edge_map().contains_key(e),
    {
        self.edges.contains_key(e.to_key())
    }

    /// The payload of node `n`, if it exists.
    pub fn node(&self, n: NodeIdx) -> (r: Option<&N>)
        requires
            self.wf(),
        ensures
            r.is_some() == self.node_map().contains_key(n),
            r matches Some(v) ==> *v == self.node_map()[n],
    {
        match self.nodes.get(n.to_key()) {
            Some(rec) => Some(&rec.payload),
            None => None,
        }
    }

    /// The payload of edge `e`, if it exists.
    pub fn edge(&self, e: EdgeIdx) -> (r: Option<&E>)
        requires
            self.wf(),
        ensures
            r.is_some() == self.edge_map().contains_key(e),
            r matches Some(v) ==> *v == self.edge_map()[e].2,
    {
        match self.edges.get(e.to_key()) {
            Some(rec) => Some(&rec.payload),
            None => None,
        }
    }

    proof fn lemma_connects(&self, a: NodeIdx, b: NodeIdx)
        requires
            self.wf(),
        ensures
            !self.nodes@.contains_key(a.key()) ==> !self.connects(a, b),
            self.nodes@.contains_key(a.key()) ==> (self.connects(a, b) <==> has_key(self.logical_out(a), b)),
    {
        if self.connects(a, b) {
            let e = choose|e: EdgeIdx|
                #[trigger] self.edge_map().contains_key(e) && {
                    ||| (self.edge_map()[e].0 == a && self.edge_map()[e].1 == b)
                    ||| (!DIRECTED && self.edge_map()[e].0 == b && self.edge_map()[e].1 == a)
                };
            assert(self.edges@.contains_key(e.key()));
            assert(self.edge_ok(e));
            let r = self.edges@[e.key()];
            if self.reversed {
                assert(self.in_list(a).contains((b, e)));
                let i = choose|i: int| 0 <= i < self.in_list(a).len() && self.in_list(a)[i] == (b, e);
                assert(self.logical_out(a)[i].0 == b);
            } else if r.from == a {
                assert(self.out_list(a).contains((b, e)));
                let i = choose|i: int| 0 <= i < self.out_list(a).len() && self.out_list(a)[i] == (b, e);
                assert(self.logical_out(a)[i].0 == b);
            } else {
                assert(self.out_list(a).contains((b, e)));
                let i = choose|i: int| 0 <= i < self.out_list(a).len() && self.out_list(a)[i] == (b, e);
                assert(self.logical_out(a)[i].0 == b);
            }
        }
        if self.nodes@.contains_key(a.key()) && has_key(self.logical_out(a), b) {
            let l = self.logical_out(a);
            let i = choose|i: int| 0 <= i < l.len() && l[i].0 == b;
            assert(self.node_ok(a));
            let e = l[i].1;
            if self.reversed {
                assert(self.in_entry_ok(a, l[i]));
            } else {
                assert(self.out_entry_ok(a, l[i]));
            }
            assert(self.edge_map().contains_key(e));
        }
    }

    /// Whether an edge runs from `a` to `b`; in an undirected graph, whether
    /// an edge joins them.
    pub fn contains_edge_between(&self, a: NodeIdx, b: NodeIdx) -> (r: bool)
        requires
            self.wf(),
        ensures
            r == self.connects(a, b),
    {
        proof {
            self.lemma_connects(a, b);
            crate::keys::lemma_node_eq_identity();
        }
        match self.nodes.get(a.to_key()) {
            Some(rec) => {
                if self.reversed {
                    rec.adjacency.incoming.contains_key(b)
                } else {
                    rec.adjacency.outgoing.contains_key(b)
                }
            },
            None => false,
        }
    }

    /// Appends `x` to the outgoing (or, with `outgoing` false, the incoming)
    /// list of the stored node `u`.
    fn push_entry(&mut self, u: NodeIdx, x: (NodeIdx, EdgeIdx), outgoing: bool)
        requires
            old(self).nodes.wf(),
            old(self).nodes@.contains_key(u.key()),
        ensures
            final(self).nodes.wf(),
            final(self).edges == old(self).edges,
            final(self).reversed == old(self).reversed,
            final(self).nodes.spec_len() == old(self).nodes.spec_len(),
            forall|q| #[trigger] final(self).nodes.retired(q) == old(self).nodes.retired(q),
            final(self).nodes@.dom() == old(self).nodes@.dom(),
            forall|v: NodeIdx| v != u ==> #[trigger] final(self).nodes@[v.key()] == old(self).nodes@[v.key()],
            final(self).nodes@[u.key()].payload == old(self).nodes@[u.key()].payload,
            outgoing ==> final(self).out_list(u) == old(self).out_list(u).push(x),
            outgoing ==> final(self).in_list(u) == old(self).in_list(u),
            !outgoing ==> final(self).in_list(u) == old(self).in_list(u).push(x),
            !outgoing ==> final(self).out_list(u) == old(self).out_list(u),
    {
        proof {
            broadcast use crate::keys::lemma_node_key_injective;
        }
        match self.nodes.get_mut(u.to_key()) {
            Some(rec) => {
                if outgoing {
                    rec.adjacency.outgoing.push(x);
                } else {
                    rec.adjacency.incoming.push(x);
                }
            },
            None => {},
        }
        assert(self.nodes@.dom() =~= old(self).nodes@.dom());
    }

    /// Adds an edge from `from` to `to` carrying `payload`. Nothing is added,
    /// and `None` returned, when an endpoint is not in the graph, when the two
    /// are the same node, or when an edge already connects them.
    pub fn add_edge(&mut self, from: NodeIdx, to: NodeIdx, payload: E) -> (r: Option<EdgeIdx>)
        requires
            old(self).wf(),
        ensures
            final(self).wf(),
            r.is_none() <==> (!old(self).node_map().contains_key(from) || !old(self).node_map().contains_key(to)
                || from == to || old(self).connects(from, to)),
            final(self).node_map() == old(self).node_map(),
            final(self).spec_node_count() == old(self).spec_node_count(),
            forall|m: NodeIdx| final(self).node_retired(m) == old(self).node_retired(m),
            forall|q: EdgeIdx| old(self).edge_retired(q) ==> final(self).edge_retired(q),
            r.is_none() ==> final(self).edge_map() == old(self).edge_map(),
            r.is_none() ==> final(self).spec_edge_count() == old(self).spec_edge_count(),
            r matches Some(e) ==> {
                &&& !old(self).edge_map().contains_key(e)
                &&& !old(self).edge_retired(e)
                &&& final(self).edge_map() == old(self).edge_map().insert(e, (from, to, payload))
                &&& final(self).spec_edge_count() == old(self).spec_edge_count() + 1
            },
    {
        proof {
            broadcast use crate::keys::lemma_node_key_injective, crate::keys::lemma_edge_key_injective;
        }
        if !self.contains_node(from) || !self.contains_node(to) || from == to || self.contains_edge_between(from, to) {
            return None;
        }
        let (pf, pt) = if self.reversed { (to, from) } else { (from, to) };
        proof {
            old(self).lemma_connects(pf, pt);
            old(self).lemma_connects(pt, pf);
            old(self).lemma_connects(from, to);
            if !DIRECTED {
                old(self).lemma_connects(to, from);
            }
        }
        let k = self.edges.insert(EdgeRecord { from: pf, to: pt, payload });
        let e = EdgeIdx::from_key(k);
        self.push_entry(pf, (pt, e), true);
        self.push_entry(pt, (pf, e), !DIRECTED);
        proof {
            assert(old(self).nodes@.contains_key(pf.key()));
            assert(old(self).node_ok(pf));
            assert(old(self).node_ok(pt));
            // every old entry still names a stored edge, unchanged
            assert forall|u: NodeIdx, x: (NodeIdx, EdgeIdx)| old(self).out_entry_ok(u, x) implies #[trigger] self.out_entry_ok(u, x) by {}
            assert forall|u: NodeIdx, x: (NodeIdx, EdgeIdx)| old(self).in_entry_ok(u, x) implies #[trigger] self.in_entry_ok(u, x) by {}
            assert forall|u: NodeIdx| #[trigger] self.nodes@.contains_key(u.key()) implies self.node_ok(u) by {
                assert(old(self).nodes@.contains_key(u.key()));
                assert(old(self).node_ok(u));
                let a = self.nodes@[u.key()].adjacency;
                let oa = old(self).nodes@[u.key()].adjacency;
                if u == pf {
                    assert(a.outgoing@ == oa.outgoing@.push((pt, e)));
                    assert(!has_key(oa.outgoing@, pt));
                    assert forall|j: int| 0 <= j < a.outgoing@.len() implies self.out_entry_ok(u, #[trigger] a.outgoing@[j]) by {
                        if j < oa.outgoing@.len() {
                            assert(old(self).out_entry_ok(u, oa.outgoing@[j]));
                        }
                    }
                    assert forall|j: int| 0 <= j < a.incoming@.len() implies self.in_entry_ok(u, #[trigger] a.incoming@[j]) by {
                        assert(old(self).in_entry_ok(u, oa.incoming@[j]));
                    }
                } else if u == pt {
                    if DIRECTED {
                        assert(a.incoming@ == oa.incoming@.push((pf, e)));
                        assert(!has_key(oa.incoming@, pf)) by {
                            if has_key(oa.incoming@, pf) {
                                let i = choose|i: int| 0 <= i < oa.incoming@.len() && oa.incoming@[i].0 == pf;
                                assert(old(self).in_entry_ok(pt, oa.incoming@[i]));
                                let f = oa.incoming@[i].1;
                                assert(old(self).edge_ok(f));
                                assert(old(self).out_list(pf).contains((pt, f)));
                                let i2 = choose|i2: int| 0 <= i2 < old(self).out_list(pf).len() && old(self).out_list(pf)[i2] == (pt, f);
                                assert(old(self).out_list(pf)[i2].0 == pt);
                            }
                        }
                        assert forall|j: int| 0 <= j < a.incoming@.len() implies self.in_entry_ok(u, #[trigger] a.incoming@[j]) by {
                            if j < oa.incoming@.len() {
                                assert(old(self).in_entry_ok(u, oa.incoming@[j]));
                            }
                        }
                        assert forall|j: int| 0 <= j < a.outgoing@.len() implies self.out_entry_ok(u, #[trigger] a.outgoing@[j]) by {
                            assert(old(self).out_entry_ok(u, oa.outgoing@[j]));
                        }
                    } else {
                        assert(a.outgoing@ == oa.outgoing@.push((pf, e)));
                        assert(!has_key(oa.outgoing@, pf));
                        assert forall|j: int| 0 <= j < a.outgoing@.len() implies self.out_entry_ok(u, #[trigger] a.outgoing@[j]) by {
                            if j < oa.outgoing@.len() {
                                assert(old(self).out_entry_ok(u, oa.outgoing@[j]));
                            }
                        }
                    }
                } else {
                    assert forall|j: int| 0 <= j < a.outgoing@.len() implies self.out_entry_ok(u, #[trigger] a.outgoing@[j]) by {
                        assert(old(self).out_entry_ok(u, oa.outgoing@[j]));
                    }
                    assert forall|j: int| 0 <= j < a.incoming@.len() implies self.in_entry_ok(u, #[trigger] a.incoming@[j]) by {
                        assert(old(self).in_entry_ok(u, oa.incoming@[j]));
                    }
                }
            }
            assert forall|f: EdgeIdx| #[trigger] self.edges@.contains_key(f.key()) implies self.edge_ok(f) by {
                if f == e {
                    assert(self.out_list(pf)[self.out_list(pf).len() - 1] == (pt, e));
                    if DIRECTED {
                        assert(self.in_list(pt)[self.in_list(pt).len() - 1] == (pf, e));
                    } else {
                        assert(self.out_list(pt)[self.out_list(pt).len() - 1] == (pf, e));
                    }
                } else {
                    assert(old(self).edges@.contains_key(f.key()));
                    assert(old(self).edge_ok(f));
                    let r = self.edges@[f.key()];
                    assert(old(self).out_list(r.from).contains((r.to, f)));
                    let i = choose|i: int| 0 <= i < old(self).out_list(r.from).len() && old(self).out_list(r.from)[i] == (r.to, f);
                    assert(self.out_list(r.from)[i] == (r.to, f));
                    if DIRECTED {
                        assert(old(self).in_list(r.to).contains((r.from, f)));
                        let i = choose|i: int| 0 <= i < old(self).in_list(r.to).len() && old(self).in_list(r.to)[i] == (r.from, f);
                        assert(self.in_list(r.to)[i] == (r.from, f));
                    } else {
                        assert(old(self).out_list(r.to).contains((r.from, f)));
                        let i = choose|i: int| 0 <= i < old(self).out_list(r.to).len() && old(self).out_list(r.to)[i] == (r.from, f);
                        assert(self.out_list(r.to)[i] == (r.from, f));
                    }
                }
            }
        }
        assert(self.node_map() =~= old(self).node_map());
        assert(self.edge_map() =~= old(self).edge_map().insert(e, (from, to, payload)));
        Some(e)
    }

    /// Removes the first entry with key `p` from the outgoing (or, with
    /// `outgoing` false, the incoming) list of the stored node `u`.
    fn remove_entry(&mut self, u: NodeIdx, p: NodeIdx, outgoing: bool)
        requires
            old(self).nodes.wf(),
            old(self).nodes@.contains_key(u.key()),
        ensures
            final(self).nodes.wf(),
            final(self).edges == old(self).edges,
            final(self).reversed == old(self).reversed,
            final(self).nodes.spec_len() == old(self).nodes.spec_len(),
            forall|q| #[trigger] final(self).nodes.retired(q) == old(self).nodes.retired(q),
            final(self).nodes@.dom() == old(self).nodes@.dom(),
            forall|v: NodeIdx| v != u ==> #[trigger] final(self).nodes@[v.key()] == old(self).nodes@[v.key()],
            final(self).nodes@[u.key()].payload == old(self).nodes@[u.key()].payload,
            outgoing ==> final(self).in_list(u) == old(self).in_list(u),
            !outgoing ==> final(self).out_list(u) == old(self).out_list(u),
            forall|i: int|
                outgoing && is_first_key(old(self).out_list(u), p, i) ==> final(self).out_list(u) == old(self).out_list(
                    u,
                ).remove(i),
            forall|i: int|
                !outgoing && is_first_key(old(self).in_list(u), p, i) ==> final(self).in_list(u) == old(self).in_list(
                    u,
                ).remove(i),
            outgoing && !has_key(old(self).out_list(u), p) ==> final(self).out_list(u) == old(self).out_list(u),
            !outgoing && !has_key(old(self).in_list(u), p) ==> final(self).in_list(u) == old(self).in_list(u),
    {
        proof {
            broadcast use crate::keys::lemma_node_key_injective;
            crate::keys::lemma_node_eq_identity();
        }
        match self.nodes.get_mut(u.to_key()) {
            Some(rec) => {
                if outgoing {
                    rec.adjacency.outgoing.remove_by_key(p);
                } else {
                    rec.adjacency.incoming.remove_by_key(p);
                }
            },
            None => {},
        }
        assert(self.nodes@.dom() =~= old(self).nodes@.dom());
    }

    /// In a well-formed graph, an entry of a list that names edge `e` sits at
    /// the first position of its key, and names `e`'s other endpoint.
    proof fn lemma_entry_of_edge(&self, u: NodeIdx, e: EdgeIdx, j: int, outgoing: bool)
        requires
            self.wf(),
            self.nodes@.contains_key(u.key()),
            outgoing ==> 0 <= j < self.out_list(u).len() && self.out_list(u)[j].1 == e,
            !outgoing ==> 0 <= j < self.in_list(u).len() && self.in_list(u)[j].1 == e,
        ensures
            self.edges@.contains_key(e.key()),
            outgoing && DIRECTED ==> u == self.edges@[e.key()].from && self.out_list(u)[j].0 == self.edges@[e.key()].to,
            outgoing && !DIRECTED ==> {
                ||| (u == self.edges@[e.key()].from && self.out_list(u)[j].0 == self.edges@[e.key()].to)
                ||| (u == self.edges@[e.key()].to && self.out_list(u)[j].0 == self.edges@[e.key()].from)
            },
            !outgoing ==> u == self.edges@[e.key()].to && self.in_list(u)[j].0 == self.edges@[e.key()].from,
            outgoing ==> is_first_key(self.out_list(u), self.out_list(u)[j].0, j),
            !outgoing ==> is_first_key(self.in_list(u), self.in_list(u)[j].0, j),
    {
        assert(self.node_ok(u));
        if outgoing {
            assert(self.out_entry_ok(u, self.out_list(u)[j]));
        } else {
            assert(self.in_entry_ok(u, self.in_list(u)[j]));
        }
    }

    /// Removes edge `e` and returns its payload; `None` when `e` names no
    /// edge of the graph.
    pub fn remove_edge(&mut self, e: EdgeIdx) -> (r: Option<E>)
        requires
            old(self).wf(),
        ensures
            final(self).wf(),
            r.is_some() == old(self).edge_map().contains_key(e),
            final(self).node_map() == old(self).node_map(),
            final(self).spec_node_count() == old(self).spec_node_count(),
            forall|m: NodeIdx| final(self).node_retired(m) == old(self).node_retired(m),
            forall|q: EdgeIdx| old(self).edge_retired(q) ==> final(self).edge_retired(q),
            r.is_none() ==> final(self).edge_map() == old(self).edge_map(),
            r.is_none() ==> final(self).spec_edge_count() == old(self).spec_edge_count(),
            r.is_some() ==> {
                &&& r == Some(old(self).edge_map()[e].2)
                &&& final(self).edge_map() == old(self).edge_map().remove(e)
                &&& final(self).spec_edge_count() + 1 == old(self).spec_edge_count()
                &&& final(self).edge_retired(e)
                &&& forall|u: NodeIdx|
                    #[trigger] final(self).spec_degree(u) + (if u == old(self).edge_map()[e].0 || u
                        == old(self).edge_map()[e].1 {
                        1int
                    } else {
                        0int
                    }) == old(self).spec_degree(u)
            },
    {
        proof {
            broadcast use crate::keys::lemma_node_key_injective, crate::keys::lemma_edge_key_injective;
        }
        let (pf, pt) = match self.edges.get(e.to_key()) {
            Some(rec) => (rec.from, rec.to),
            None => {
                return None;
            },
        };
        proof {
            assert(self.edge_ok(e));
        }
        let ghost io = if DIRECTED { self.in_list(pt) } else { self.out_list(pt) };
        let ghost i1 = self.out_list(pf).index_of((pt, e));
        let ghost i2 = io.index_of((pf, e));
        proof {
            self.lemma_entry_of_edge(pf, e, i1, true);
            self.lemma_entry_of_edge(pt, e, i2, DIRECTED == false);
            if !DIRECTED {
                self.lemma_entry_of_edge(pt, e, i2, true);
            }
        }
        proof {
            assert(self.out_list(pf)[i1] == (pt, e));
            assert(io[i2] == (pf, e));
        }
        self.remove_entry(pf, pt, true);
        let ghost s1 = *self;
        proof {
            assert(s1.out_list(pt) == old(self).out_list(pt));
            assert(s1.in_list(pt) == old(self).in_list(pt));
        }
        self.remove_entry(pt, pf, !DIRECTED);
        let removed = self.edges.remove(e.to_key());
        proof {
            assert(self.out_list(pf) == old(self).out_list(pf).remove(i1));
            if DIRECTED {
                assert(self.in_list(pt) == old(self).in_list(pt).remove(i2));
                assert(self.out_list(pt) == old(self).out_list(pt));
            } else {
                assert(self.out_list(pt) == old(self).out_list(pt).remove(i2));
            }
            assert(self.in_list(pf) == old(self).in_list(pf));
            assert forall|u: NodeIdx| u != pf && u != pt implies #[trigger] self.out_list(u) == old(self).out_list(u)
                && self.in_list(u) == old(self).in_list(u) by {}

            assert forall|u: NodeIdx| #[trigger] self.nodes@.contains_key(u.key()) implies self.node_ok(u) by {
                assert(old(self).nodes@.contains_key(u.key()));
                assert(old(self).node_ok(u));
                let a = self.nodes@[u.key()].adjacency;
                let oa = old(self).nodes@[u.key()].adjacency;
                assert forall|j: int| 0 <= j < a.outgoing@.len() implies self.out_entry_ok(u, #[trigger] a.outgoing@[j]) by {
                    let x = a.outgoing@[j];
                    let jo = if (u == pf) || (!DIRECTED && u == pt) {
                        let ii = if u == pf { i1 } else { i2 };
                        if j < ii { j } else { j + 1 }
                    } else {
                        j
                    };
                    assert(oa.outgoing@[jo] == x);
                    assert(old(self).out_entry_ok(u, x));
                    if x.1 == e {
                        old(self).lemma_entry_of_edge(u, e, jo, true);
                    }
                }
                assert forall|j: int| 0 <= j < a.incoming@.len() implies self.in_entry_ok(u, #[trigger] a.incoming@[j]) by {
                    let x = a.incoming@[j];
                    let jo = if DIRECTED && u == pt {
                        if j < i2 { j } else { j + 1 }
                    } else {
                        j
                    };
                    assert(oa.incoming@[jo] == x);
                    assert(old(self).in_entry_ok(u, x));
                    if x.1 == e {
                        old(self).lemma_entry_of_edge(u, e, jo, false);
                    }
                }
            }
            assert forall|f: EdgeIdx| #[trigger] self.edges@.contains_key(f.key()) implies self.edge_ok(f) by {
                assert(old(self).edges@.contains_key(f.key()));
                assert(old(self).edge_ok(f));
                let r = self.edges@[f.key()];
                let l = old(self).out_list(r.from);
                let i = l.index_of((r.to, f));
                let ni = if r.from == pf && i > i1 { i - 1 } else if !DIRECTED && r.from == pt && i > i2 { i - 1 } else { i };
                assert(self.out_list(r.from)[ni] == (r.to, f));
                let l2 = if DIRECTED { old(self).in_list(r.to) } else { old(self).out_list(r.to) };
                let k = l2.index_of((r.from, f));
                let nk = if DIRECTED && r.to == pt && k > i2 { k - 1 } else if !DIRECTED && r.to == pf && k > i1 { k - 1 }
                    else if !DIRECTED && r.to == pt && k > i2 { k - 1 } else { k };
                if DIRECTED {
                    assert(self.in_list(r.to)[nk] == (r.from, f));
                } else {
                    assert(self.out_list(r.to)[nk] == (r.from, f));
                }
            }
        }
        assert(self.node_map() =~= old(self).node_map());
        assert(self.edge_map() =~= old(self).edge_map().remove(e));
        match removed {
            Some(rec) => Some(rec.payload),
            None => None,
        }
    }

    /// Some edge of `n`, which must have one.
    fn first_incident(&self, n: NodeIdx) -> (e: EdgeIdx)
        requires
            self.wf(),
            self.node_map().contains_key(n),
            self.spec_degree(n) > 0,
        ensures
            self.edge_map().contains_key(e),
            self.edge_map()[e].0 == n || self.edge_map()[e].1 == n,
    {
        proof {
            assert(self.nodes@.contains_key(n.key()));
        }
        match self.nodes.get(n.to_key()) {
            Some(rec) => {
                if rec.adjacency.outgoing.len() > 0 {
                    proof {
                        self.lemma_entry_of_edge(n, rec.adjacency.outgoing@[0].1, 0, true);
                    }
                    rec.adjacency.outgoing[0].1
                } else {
                    proof {
                        self.lemma_entry_of_edge(n, rec.adjacency.incoming@[0].1, 0, false);
                    }
                    rec.adjacency.incoming[0].1
                }
            },
            None => EdgeIdx { slot: 0, generation: 0 },
        }
    }

    /// Removes node `n` together with every edge touching it, and returns
    /// its payload; `None` when `n` names no node of the graph.
    pub fn remove_node(&mut self, n: NodeIdx) -> (r: Option<N>)
        requires
            old(self).wf(),
        ensures
            final(self).wf(),
            r.is_some() == old(self).node_map().contains_key(n),
            r.is_none() ==> final(self).node_map() == old(self).node_map(),
            r.is_none() ==> final(self).edge_map() == old(self).edge_map(),
            r.is_none() ==> final(self).spec_node_count() == old(self).spec_node_count(),
            r.is_none() ==> final(self).spec_edge_count() == old(self).spec_edge_count(),
            r.is_some() ==> {
                &&& r == Some(old(self).node_map()[n])
                &&& final(self).node_map() == old(self).node_map().remove(n)
                &&& final(self).spec_node_count() + 1 == old(self).spec_node_count()
                &&& final(self).spec_edge_count() + old(self).spec_degree(n) == old(self).spec_edge_count()
                &&& final(self).spec_edge_count() + old(self).incident_edges(n).len() == old(self).spec_edge_count()
                &&& final(self).node_retired(n)
            },
            forall|e: EdgeIdx|
                #[trigger] final(self).edge_map().contains_key(e) <==> (old(self).edge_map().contains_key(e)
                    && old(self).edge_map()[e].0 != n && old(self).edge_map()[e].1 != n),
            forall|e: EdgeIdx|
                #[trigger] final(self).edge_map().contains_key(e) ==> final(self).edge_map()[e] == old(
                    self,
                ).edge_map()[e],
            forall|m: NodeIdx| old(self).node_retired(m) ==> final(self).node_retired(m),
            forall|q: EdgeIdx| old(self).edge_retired(q) ==> final(self).edge_retired(q),
    {
        proof {
            broadcast use crate::keys::lemma_node_key_injective, crate::keys::lemma_edge_key_injective;
        }
        if !self.contains_node(n) {
            proof {
                assert forall|e: EdgeIdx| #[trigger] self.edge_map().contains_key(e) implies self.edge_map()[e].0 != n
                    && self.edge_map()[e].1 != n by {
                    assert(self.edge_ok(e));
                }
            }
            return None;
        }
        proof {
            self.lemma_degree_counts_edges(n);
        }
        let mut deg: usize = self.degree(n);
        while deg > 0
            invariant
                self.wf(),
                self.node_map() == old(self).node_map(),
                self.node_map().contains_key(n),
                deg == self.spec_degree(n),
                self.spec_edge_count() + old(self).spec_degree(n) == old(self).spec_edge_count() + self.spec_degree(n),
                self.spec_node_count() == old(self).spec_node_count(),
                forall|e: EdgeIdx|
                    #[trigger] self.edge_map().contains_key(e) ==> old(self).edge_map().contains_key(e)
                        && self.edge_map()[e] == old(self).edge_map()[e],
                forall|e: EdgeIdx|
                    #[trigger] old(self).edge_map().contains_key(e) && old(self).edge_map()[e].0 != n
                        && old(self).edge_map()[e].1 != n ==> self.edge_map().contains_key(e),
                forall|m: NodeIdx| #[trigger] self.node_retired(m) == old(self).node_retired(m),
                forall|q: EdgeIdx| old(self).edge_retired(q) ==> #[trigger] self.edge_retired(q),
            decreases deg,
        {
            let e = self.first_incident(n);
            self.remove_edge(e);
            deg = self.degree(n);
        }
        proof {
            assert forall|e: EdgeIdx| #[trigger] self.edges@.contains_key(e.key()) implies self.edges@[e.key()].from != n
                && self.edges@[e.key()].to != n by {
                assert(self.edge_ok(e));
                let r = self.edges@[e.key()];
                if r.from == n {
                    assert(self.out_list(n).contains((r.to, e)));
                }
                if r.to == n {
                    if DIRECTED {
                        assert(self.in_list(n).contains((r.from, e)));
                    } else {
                        assert(self.out_list(n).contains((r.from, e)));
                    }
                }
            }
        }
        let ghost s1 = *self;
        let removed = self.nodes.remove(n.to_key());
        proof {
            assert forall|u: NodeIdx| #[trigger] self.nodes@.contains_key(u.key()) implies self.node_ok(u) by {
                assert(s1.nodes@.contains_key(u.key()));
                assert(s1.node_ok(u));
                let a = self.nodes@[u.key()].adjacency;
                assert forall|j: int| 0 <= j < a.outgoing@.len() implies self.out_entry_ok(u, #[trigger] a.outgoing@[j]) by {
                    assert(s1.out_entry_ok(u, a.outgoing@[j]));
                }
                assert forall|j: int| 0 <= j < a.incoming@.len() implies self.in_entry_ok(u, #[trigger] a.incoming@[j]) by {
                    assert(s1.in_entry_ok(u, a.incoming@[j]));
                }
            }
            assert forall|e: EdgeIdx| #[trigger] self.edges@.contains_key(e.key()) implies self.edge_ok(e) by {
                assert(s1.edge_ok(e));
            }
        }
        assert(self.node_map() =~= old(self).node_map().remove(n));
        assert(self.edge_map() =~= s1.edge_map());
        assert forall|m: NodeIdx| old(self).node_retired(m) implies self.node_retired(m) by {
            assert(s1.node_retired(m));
            assert(s1.nodes.retired(m.key()));
        }
        assert forall|q: EdgeIdx| old(self).edge_retired(q) implies self.edge_retired(q) by {
            assert(s1.edge_retired(q));
        }
        assert forall|e: EdgeIdx| #[trigger] self.edge_map().contains_key(e) <==> (old(self).edge_map().contains_key(e)
            && old(self).edge_map()[e].0 != n && old(self).edge_map()[e].1 != n) by {
            if self.edge_map().contains_key(e) {
                assert(s1.edges@.contains_key(e.key()));
            }
        }
        match removed {
            Some(rec) => Some(rec.payload),
            None => None,
        }
    }

    /// The entries of a node name distinct stored edges, so they fit in a
    /// `usize`.
    proof fn lemma_degree_bound(&self, n: NodeIdx)
        requires
            self.wf(),
            self.nodes@.contains_key(n.key()),
        ensures
            self.spec_degree(n) <= usize::MAX,
            (values_of(self.out_list(n)) + values_of(self.in_list(n))).no_duplicates(),
    {
        broadcast use crate::keys::lemma_edge_key_injective;

        assert(self.node_ok(n));
        let o = self.out_list(n);
        let li = self.in_list(n);
        let ks = o.map_values(|x: (NodeIdx, EdgeIdx)| x.1.key()) + li.map_values(|x: (NodeIdx, EdgeIdx)| x.1.key());
        assert forall|a: int| 0 <= a < ks.len() implies self.edges@.contains_key(#[trigger] ks[a]) by {
            if a < o.len() {
                assert(self.out_entry_ok(n, o[a]));
            } else {
                assert(self.in_entry_ok(n, li[a - o.len()]));
            }
        }
        assert forall|a: int, b: int| 0 <= a < ks.len() && 0 <= b < ks.len() && a != b implies ks[a] != ks[b] by {
            if ks[a] == ks[b] {
                let x = if a < o.len() { o[a] } else { li[a - o.len()] };
                let y = if b < o.len() { o[b] } else { li[b - o.len()] };
                assert(x.1 == y.1);
                if a < o.len() {
                    assert(self.out_entry_ok(n, o[a]));
                } else {
                    assert(self.in_entry_ok(n, li[a - o.len()]));
                }
                if b < o.len() {
                    assert(self.out_entry_ok(n, o[b]));
                } else {
                    assert(self.in_entry_ok(n, li[b - o.len()]));
                }
                assert(self.edge_ok(x.1));
            }
        }
        self.edges.lemma_distinct_live_keys(ks);
        let l = values_of(o) + values_of(li);
        assert forall|a: int, b: int| 0 <= a < l.len() && 0 <= b < l.len() && a != b implies l[a] != l[b] by {
            assert(ks[a] == l[a].key());
            assert(ks[b] == l[b].key());
        }
    }

    /// The degree of a node is the number of its edges; in a directed graph
    /// its out-degree and in-degree are the numbers of edges leaving and
    /// entering it.
    pub proof fn lemma_degree_counts_edges(&self, n: NodeIdx)
        requires
            self.wf(),
            self.node_map().contains_key(n),
        ensures
            self.incident_edges(n).finite(),
            self.spec_degree(n) == self.incident_edges(n).len(),
            DIRECTED ==> self.out_edges(n).finite() && self.spec_out_degree(n) == self.out_edges(n).len(),
            DIRECTED ==> self.in_edges(n).finite() && self.spec_in_degree(n) == self.in_edges(n).len(),
            !DIRECTED ==> self.spec_out_degree(n) == self.spec_degree(n) && self.spec_in_degree(n) == 0,
    {
        assert(self.node_ok(n));
        self.lemma_degree_bound(n);
        self.lemma_edges_listed(n);
        let vo = values_of(self.out_list(n));
        let vi = values_of(self.in_list(n));
        let l = vo + vi;
        assert(l.to_set() =~= self.incident_edges(n));
        l.unique_seq_to_set();
        assert(vo.no_duplicates()) by {
            assert forall|a: int, b: int| 0 <= a < vo.len() && 0 <= b < vo.len() && a != b implies vo[a] != vo[b] by {
                assert(l[a] == vo[a] && l[b] == vo[b]);
            }
        }
        assert(vi.no_duplicates()) by {
            assert forall|a: int, b: int| 0 <= a < vi.len() && 0 <= b < vi.len() && a != b implies vi[a] != vi[b] by {
                assert(l[vo.len() + a] == vi[a] && l[vo.len() + b] == vi[b]);
            }
        }
        if DIRECTED {
            self.lemma_directed_lists(n);
            let lo = values_of(self.logical_out(n));
            let lin = values_of(self.logical_in(n));
            assert(lo.to_set() =~= self.out_edges(n));
            assert(lin.to_set() =~= self.in_edges(n));
            lo.unique_seq_to_set();
            lin.unique_seq_to_set();
        }
    }

    /// An entry is in a list of `n` exactly when it describes a stored edge
    /// of `n` as that list holds them.
    proof fn lemma_entries(&self, n: NodeIdx)
        requires
            self.wf(),
            self.nodes@.contains_key(n.key()),
        ensures
            forall|x: (NodeIdx, EdgeIdx)| #[trigger] self.out_list(n).contains(x) <==> self.out_entry_ok(n, x),
            forall|x: (NodeIdx, EdgeIdx)| #[trigger] self.in_list(n).contains(x) <==> (DIRECTED && self.in_entry_ok(n, x)),
    {
        assert(self.node_ok(n));
        assert forall|x: (NodeIdx, EdgeIdx)| #[trigger] self.out_list(n).contains(x) <==> self.out_entry_ok(n, x) by {
            if self.out_entry_ok(n, x) {
                assert(self.edge_ok(x.1));
            }
        }
        assert forall|x: (NodeIdx, EdgeIdx)| #[trigger] self.in_list(n).contains(x) <==> (DIRECTED && self.in_entry_ok(n, x)) by {
            if DIRECTED && self.in_entry_ok(n, x) {
                assert(self.edge_ok(x.1));
            }
        }
    }

    /// The edges named by the lists of `n` are exactly its edges.
    proof fn lemma_edges_listed(&self, n: NodeIdx)
        requires
            self.wf(),
            self.nodes@.contains_key(n.key()),
        ensures
            forall|e: EdgeIdx|
                #[trigger] (values_of(self.out_list(n)) + values_of(self.in_list(n))).contains(e)
                    <==> self.incident_edges(n).contains(e),
    {
        self.lemma_entries(n);
        let o = self.out_list(n);
        let li = self.in_list(n);
        let all = values_of(o) + values_of(li);
        assert forall|e: EdgeIdx| #[trigger] all.contains(e) <==> self.incident_edges(n).contains(e) by {
            if all.contains(e) {
                let j = choose|j: int| 0 <= j < all.len() && all[j] == e;
                if j < o.len() {
                    assert(o.contains(o[j]));
                } else {
                    assert(li.contains(li[j - o.len()]));
                }
                assert(self.edge_map().contains_key(e));
            }
            if self.incident_edges(n).contains(e) {
                assert(self.edge_map().contains_key(e));
                let r = self.edges@[e.key()];
                if r.from == n {
                    assert(o.contains((r.to, e)));
                    let j = choose|j: int| 0 <= j < o.len() && o[j] == (r.to, e);
                    assert(all[j] == e);
                } else if DIRECTED {
                    assert(li.contains((r.from, e)));
                    let j = choose|j: int| 0 <= j < li.len() && li[j] == (r.from, e);
                    assert(all[o.len() + j] == e);
                } else {
                    assert(o.contains((r.from, e)));
                    let j = choose|j: int| 0 <= j < o.len() && o[j] == (r.from, e);
                    assert(all[j] == e);
                }
            }
        }
    }

    /// The peers named by the lists of `n` are exactly its neighbours.
    proof fn lemma_peers_listed(&self, n: NodeIdx)
        requires
            self.wf(),
            self.nodes@.contains_key(n.key()),
        ensures
            forall|p: NodeIdx|
                #[trigger] (keys_of(self.out_list(n)) + keys_of(self.in_list(n))).contains(p)
                    <==> self.neighbor_set(n).contains(p),
    {
        self.lemma_entries(n);
        let o = self.out_list(n);
        let li = self.in_list(n);
        let all = keys_of(o) + keys_of(li);
        assert forall|p: NodeIdx| #[trigger] all.contains(p) <==> self.neighbor_set(n).contains(p) by {
            if all.contains(p) {
                let j = choose|j: int| 0 <= j < all.len() && all[j] == p;
                let x = if j < o.len() { o[j] } else { li[j - o.len()] };
                if j < o.len() {
                    assert(o.contains(o[j]));
                } else {
                    assert(li.contains(li[j - o.len()]));
                }
                assert(self.edge_map().contains_key(x.1));
            }
            if self.neighbor_set(n).contains(p) {
                let e = if self.connects(n, p) {
                    choose|e: EdgeIdx|
                        #[trigger] self.edge_map().contains_key(e) && {
                            ||| (self.edge_map()[e].0 == n && self.edge_map()[e].1 == p)
                            ||| (!DIRECTED && self.edge_map()[e].0 == p && self.edge_map()[e].1 == n)
                        }
                } else {
                    choose|e: EdgeIdx|
                        #[trigger] self.edge_map().contains_key(e) && {
                            ||| (self.edge_map()[e].0 == p && self.edge_map()[e].1 == n)
                            ||| (!DIRECTED && self.edge_map()[e].0 == n && self.edge_map()[e].1 == p)
                        }
                };
                assert(self.edge_map().contains_key(e));
                let r = self.edges@[e.key()];
                if r.from == n {
                    assert(o.contains((p, e)));
                    let j = choose|j: int| 0 <= j < o.len() && o[j] == (p, e);
                    assert(all[j] == p);
                } else if DIRECTED {
                    assert(li.contains((p, e)));
                    let j = choose|j: int| 0 <= j < li.len() && li[j] == (p, e);
                    assert(all[o.len() + j] == p);
                } else {
                    assert(o.contains((p, e)));
                    let j = choose|j: int| 0 <= j < o.len() && o[j] == (p, e);
                    assert(all[j] == p);
                }
            }
        }
    }

    /// In a directed graph the lists of `n`, as the graph is seen, name
    /// exactly its outgoing and incoming edges and its successors and
    /// predecessors; a node not in the graph has none.
    proof fn lemma_directed_lists(&self, n: NodeIdx)
        requires
            self.wf(),
            DIRECTED,
        ensures
            self.nodes@.contains_key(n.key()) ==> forall|e: EdgeIdx|
                #[trigger] values_of(self.logical_out(n)).contains(e) <==> self.out_edges(n).contains(e),
            self.nodes@.contains_key(n.key()) ==> forall|e: EdgeIdx|
                #[trigger] values_of(self.logical_in(n)).contains(e) <==> self.in_edges(n).contains(e),
            self.nodes@.contains_key(n.key()) ==> forall|p: NodeIdx|
                #[trigger] keys_of(self.logical_out(n)).contains(p) <==> self.connects(n, p),
            self.nodes@.contains_key(n.key()) ==> forall|p: NodeIdx|
                #[trigger] keys_of(self.logical_in(n)).contains(p) <==> self.connects(p, n),
            !self.nodes@.contains_key(n.key()) ==> forall|e: EdgeIdx|
                !self.out_edges(n).contains(e) && !self.in_edges(n).contains(e),
            !self.nodes@.contains_key(n.key()) ==> forall|p: NodeIdx| !self.connects(n, p) && !self.connects(p, n),
    {
        if self.nodes@.contains_key(n.key()) {
            self.lemma_entries(n);
            let lo = self.logical_out(n);
            let li = self.logical_in(n);
            assert forall|e: EdgeIdx| #[trigger] values_of(lo).contains(e) <==> self.out_edges(n).contains(e) by {
                if values_of(lo).contains(e) {
                    let j = choose|j: int| 0 <= j < lo.len() && values_of(lo)[j] == e;
                    assert(lo.contains(lo[j]));
                }
                if self.out_edges(n).contains(e) {
                    let r = self.edges@[e.key()];
                    let x = if self.reversed { (r.from, e) } else { (r.to, e) };
                    assert(lo.contains(x));
                    let j = choose|j: int| 0 <= j < lo.len() && lo[j] == x;
                    assert(values_of(lo)[j] == e);
                }
            }
            assert forall|e: EdgeIdx| #[trigger] values_of(li).contains(e) <==> self.in_edges(n).contains(e) by {
                if values_of(li).contains(e) {
                    let j = choose|j: int| 0 <= j < li.len() && values_of(li)[j] == e;
                    assert(li.contains(li[j]));
                }
                if self.in_edges(n).contains(e) {
                    let r = self.edges@[e.key()];
                    let x = if self.reversed { (r.to, e) } else { (r.from, e) };
                    assert(li.contains(x));
                    let j = choose|j: int| 0 <= j < li.len() && li[j] == x;
                    assert(values_of(li)[j] == e);
                }
            }
            assert forall|p: NodeIdx| #[trigger] keys_of(lo).contains(p) <==> self.connects(n, p) by {
                self.lemma_connects(n, p);
                if keys_of(lo).contains(p) {
                    let j = choose|j: int| 0 <= j < lo.len() && keys_of(lo)[j] == p;
                    assert(lo[j].0 == p);
                }
                if has_key(lo, p) {
                    let j = choose|j: int| 0 <= j < lo.len() && lo[j].0 == p;
                    assert(keys_of(lo)[j] == p);
                }
            }
            assert forall|p: NodeIdx| #[trigger] keys_of(li).contains(p) <==> self.connects(p, n) by {
                if keys_of(li).contains(p) {
                    let j = choose|j: int| 0 <= j < li.len() && keys_of(li)[j] == p;
                    assert(li.contains(li[j]));
                    assert(self.edge_map().contains_key(li[j].1));
                }
                if self.connects(p, n) {
                    let e = choose|e: EdgeIdx|
                        #[trigger] self.edge_map().contains_key(e) && {
                            ||| (self.edge_map()[e].0 == p && self.edge_map()[e].1 == n)
                            ||| (!DIRECTED && self.edge_map()[e].0 == n && self.edge_map()[e].1 == p)
                        };
                    assert(self.edges@.contains_key(e.key()));
                    assert(li.contains((p, e)));
                    let j = choose|j: int| 0 <= j < li.len() && li[j] == (p, e);
                    assert(keys_of(li)[j] == p);
                }
            }
        } else {
            assert forall|e: EdgeIdx| !self.out_edges(n).contains(e) && !self.in_edges(n).contains(e) by {
                if self.edges@.contains_key(e.key()) {
                    assert(self.edge_ok(e));
                }
            }
            assert forall|p: NodeIdx| !self.connects(n, p) && !self.connects(p, n) by {
                self.lemma_connects(n, p);
                if self.connects(p, n) {
                    let e = choose|e: EdgeIdx|
                        #[trigger] self.edge_map().contains_key(e) && {
                            ||| (self.edge_map()[e].0 == p && self.edge_map()[e].1 == n)
                            ||| (!DIRECTED && self.edge_map()[e].0 == n && self.edge_map()[e].1 == p)
                        };
                    assert(self.edge_ok(e));
                }
            }
        }
    }

    /// The edges touching `n`, in either direction, one entry per edge;
    /// empty when `n` names no node.
    pub fn edges_of(&self, n: NodeIdx) -> (r: Vec<EdgeIdx>)
        requires
            self.wf(),
        ensures
            !self.node_map().contains_key(n) ==> r@.len() == 0,
            self.node_map().contains_key(n) ==> r@.len() == self.spec_degree(n),
            forall|e: EdgeIdx| r@.contains(e) <==> self.incident_edges(n).contains(e),
    {
        match self.nodes.get(n.to_key()) {
            Some(rec) => {
                let mut r = edges_in(&rec.adjacency.outgoing);
                let mut rest = edges_in(&rec.adjacency.incoming);
                r.append(&mut rest);
                proof {
                    self.lemma_edges_listed(n);
                    assert(r@ == values_of(self.out_list(n)) + values_of(self.in_list(n)));
                }
                r
            },
            None => {
                proof {
                    assert forall|e: EdgeIdx| !self.incident_edges(n).contains(e) by {
                        if self.edge_map().contains_key(e) {
                            assert(self.edge_ok(e));
                        }
                    }
                }
                Vec::new()
            },
        }
    }

    /// The nodes joined to `n` by an edge, in either direction, one entry per
    /// edge; empty when `n` names no node.
    pub fn neighbors(&self, n: NodeIdx) -> (r: Vec<NodeIdx>)
        requires
            self.wf(),
        ensures
            !self.node_map().contains_key(n) ==> r@.len() == 0,
            self.node_map().contains_key(n) ==> r@.len() == self.spec_degree(n),
            forall|p: NodeIdx| r@.contains(p) <==> self.neighbor_set(n).contains(p),
            exists|es: Seq<EdgeIdx>|
                {
                    &&& es.len() == r@.len()
                    &&& es.no_duplicates()
                    &&& forall|e: EdgeIdx| #[trigger] es.contains(e) <==> self.incident_edges(n).contains(e)
                    &&& forall|j: int| 0 <= j < es.len() ==> r@[j] == self.peer(#[trigger] es[j], n)
                },
    {
        match self.nodes.get(n.to_key()) {
            Some(rec) => {
                let mut r = peers_in(&rec.adjacency.outgoing);
                let mut rest = peers_in(&rec.adjacency.incoming);
                r.append(&mut rest);
                proof {
                    self.lemma_peers_listed(n);
                    self.lemma_edges_listed(n);
                    self.lemma_degree_bound(n);
                    self.lemma_entries(n);
                    let o = self.out_list(n);
                    let li = self.in_list(n);
                    let es = values_of(o) + values_of(li);
                    assert(r@ == keys_of(o) + keys_of(li));
                    assert forall|j: int| 0 <= j < es.len() implies r@[j] == self.peer(#[trigger] es[j], n) by {
                        if j < o.len() {
                            assert(o.contains(o[j]));
                            assert(self.edge_ok(o[j].1));
                        } else {
                            assert(li.contains(li[j - o.len()]));
                            assert(self.edge_ok(li[j - o.len()].1));
                        }
                    }
                    assert(es.len() == r@.len());
                    assert({
                        &&& es.len() == r@.len()
                        &&& es.no_duplicates()
                        &&& forall|e: EdgeIdx| #[trigger] es.contains(e) <==> self.incident_edges(n).contains(e)
                        &&& forall|j: int| 0 <= j < es.len() ==> r@[j] == self.peer(#[trigger] es[j], n)
                    });
                }
                r
            },
            None => {
                proof {
                    assert forall|e: EdgeIdx| !self.incident_edges(n).contains(e) by {
                        if self.edge_map().contains_key(e) {
                            assert(self.edge_ok(e));
                        }
                    }
                    assert forall|p: NodeIdx| !self.neighbor_set(n).contains(p) by {
                        self.lemma_connects(n, p);
                        if self.connects(p, n) {
                            let e = choose|e: EdgeIdx|
                                #[trigger] self.edge_map().contains_key(e) && {
                                    ||| (self.edge_map()[e].0 == p && self.edge_map()[e].1 == n)
                                    ||| (!DIRECTED && self.edge_map()[e].0 == n && self.edge_map()[e].1 == p)
                                };
                            assert(self.edge_ok(e));
                        }
                    }
                }
                let r: Vec<NodeIdx> = Vec::new();
                proof {
                    let es = Seq::<EdgeIdx>::empty();
                    assert(r@.len() == 0);
                    assert({
                        &&& es.len() == r@.len()
                        &&& es.no_duplicates()
                        &&& forall|e: EdgeIdx| #[trigger] es.contains(e) <==> self.incident_edges(n).contains(e)
                        &&& forall|j: int| 0 <= j < es.len() ==> r@[j] == self.peer(#[trigger] es[j], n)
                    });
                }
                r
            },
        }
    }

    /// The nodes whose count of the given kind is zero.
    fn nodes_without(&self, kind: u8) -> (r: Vec<NodeIdx>)
        requires
            self.wf(),
        ensures
            r@.no_duplicates(),
            forall|n: NodeIdx| r@.contains(n) <==> (self.node_map().contains_key(n) && self.count_of(n, kind) == 0),
    {
        let ns = self.node_indices();
        let mut r: Vec<NodeIdx> = Vec::new();
        let mut i: usize = 0;
        while i < ns.len()
            invariant
                self.wf(),
                i <= ns@.len(),
                ns@.no_duplicates(),
                r@.no_duplicates(),
                forall|n: NodeIdx| ns@.contains(n) <==> self.node_map().contains_key(n),
                forall|n: NodeIdx|
                    r@.contains(n) <==> (exists|j: int| 0 <= j < i && ns@[j] == n) && self.count_of(n, kind) == 0,
            decreases ns@.len() - i,
        {
            let n = ns[i];
            proof {
                assert(ns@.contains(n));
            }
            let ghost r0 = r@;
            if self.count(n, kind) == 0 {
                proof {
                    if r0.contains(n) {
                        let j = choose|j: int| 0 <= j < i && ns@[j] == n;
                        assert(ns@[j] == ns@[i as int]);
                    }
                }
                r.push(n);
                proof {
                    assert forall|m: NodeIdx|
                        r@.contains(m) <==> (exists|j: int| 0 <= j < i + 1 && ns@[j] == m) && self.count_of(m, kind) == 0 by {
                        if r@.contains(m) && m != n {
                            let k = choose|k: int| 0 <= k < r@.len() && r@[k] == m;
                            assert(r0[k] == m);
                        }
                        if r0.contains(m) {
                            let j = choose|j: int| 0 <= j < i && ns@[j] == m;
                            assert(0 <= j < i + 1 && ns@[j] == m);
                        }
                        if m == n {
                            assert(0 <= i < i + 1 && ns@[i as int] == m);
                            assert(r@[r0.len() as int] == n);
                        } else if (exists|j: int| 0 <= j < i + 1 && ns@[j] == m) && self.count_of(m, kind) == 0 {
                            let j = choose|j: int| 0 <= j < i + 1 && ns@[j] == m;
                            assert(j < i);
                            assert(r0.contains(m));
                            let k = choose|k: int| 0 <= k < r0.len() && r0[k] == m;
                            assert(r@[k] == m);
                        }
                    }
                }
            } else {
                proof {
                    assert forall|m: NodeIdx|
                        r@.contains(m) <==> (exists|j: int| 0 <= j < i + 1 && ns@[j] == m) && self.count_of(m, kind) == 0 by {
                        if (exists|j: int| 0 <= j < i + 1 && ns@[j] == m) && self.count_of(m, kind) == 0 {
                            let j = choose|j: int| 0 <= j < i + 1 && ns@[j] == m;
                            assert(j < i);
                        }
                        if r@.contains(m) {
                            let j = choose|j: int| 0 <= j < i && ns@[j] == m;
                            assert(0 <= j < i + 1 && ns@[j] == m);
                        }
                    }
                }
            }
            i = i + 1;
        }
        proof {
            assert forall|n: NodeIdx| r@.contains(n) <==> (self.node_map().contains_key(n) && self.count_of(n, kind) == 0) by {
                if r@.contains(n) {
                    let j = choose|j: int| 0 <= j < i && ns@[j] == n;
                    assert(ns@.contains(n));
                }
                if self.node_map().contains_key(n) && self.count_of(n, kind) == 0 {
                    assert(ns@.contains(n));
                    let j = choose|j: int| 0 <= j < ns@.len() && ns@[j] == n;
                    assert(0 <= j < i && ns@[j] == n);
                }
            }
        }
        r
    }

    /// The nodes that no edge touches.
    pub fn isolated(&self) -> (r: Vec<NodeIdx>)
        requires
            self.wf(),
        ensures
            r@.no_duplicates(),
            forall|n: NodeIdx| r@.contains(n) <==> (self.node_map().contains_key(n) && self.spec_degree(n) == 0),
    {
        self.nodes_without(0)
    }

    /// The indices of all nodes.
    pub fn node_indices(&self) -> (r: Vec<NodeIdx>)
        requires
            self.wf(),
        ensures
            r@.no_duplicates(),
            forall|n: NodeIdx| r@.contains(n) <==> self.node_map().contains_key(n),
    {
        let ks = self.nodes.keys();
        let mut r: Vec<NodeIdx> = Vec::new();
        let mut i: usize = 0;
        while i < ks.len()
            invariant
                i <= ks@.len(),
                r@.len() == i,
                forall|j: int| 0 <= j < i ==> (#[trigger] r@[j]).key() == ks@[j],
            decreases ks@.len() - i,
        {
            r.push(NodeIdx::from_key(ks[i]));
            i = i + 1;
        }
        proof {
            broadcast use crate::keys::lemma_node_key_injective;
            assert forall|a: int, b: int| 0 <= a < r@.len() && 0 <= b < r@.len() && a != b implies r@[a] != r@[b] by {
                assert(ks@[a] != ks@[b]);
            }
            assert forall|n: NodeIdx| r@.contains(n) <==> self.node_map().contains_key(n) by {
                if r@.contains(n) {
                    let j = choose|j: int| 0 <= j < r@.len() && r@[j] == n;
                    assert(ks@[j] == n.key());
                    assert(ks@.contains(n.key()));
                }
                if self.node_map().contains_key(n) {
                    assert(ks@.contains(n.key()));
                    let j = choose|j: int| 0 <= j < ks@.len() && ks@[j] == n.key();
                    assert(r@[j] == n);
                }
            }
        }
        r
    }

    /// The indices of all edges.
    pub fn edge_indices(&self) -> (r: Vec<EdgeIdx>)
        requires
            self.wf(),
        ensures
            r@.no_duplicates(),
            forall|e: EdgeIdx| r@.contains(e) <==> self.edge_map().contains_key(e),
    {
        let ks = self.edges.keys();
        let mut r: Vec<EdgeIdx> = Vec::new();
        let mut i: usize = 0;
        while i < ks.len()
            invariant
                i <= ks@.len(),
                r@.len() == i,
                forall|j: int| 0 <= j < i ==> (#[trigger] r@[j]).key() == ks@[j],
            decreases ks@.len() - i,
        {
            r.push(EdgeIdx::from_key(ks[i]));
            i = i + 1;
        }
        proof {
            broadcast use crate::keys::lemma_edge_key_injective;
            assert forall|a: int, b: int| 0 <= a < r@.len() && 0 <= b < r@.len() && a != b implies r@[a] != r@[b] by {
                assert(ks@[a] != ks@[b]);
            }
            assert forall|e: EdgeIdx| r@.contains(e) <==> self.edge_map().contains_key(e) by {
                if r@.contains(e) {
                    let j = choose|j: int| 0 <= j < r@.len() && r@[j] == e;
                    assert(ks@[j] == e.key());
                    assert(ks@.contains(e.key()));
                }
                if self.edge_map().contains_key(e) {
                    assert(ks@.contains(e.key()));
                    let j = choose|j: int| 0 <= j < ks@.len() && ks@[j] == e.key();
                    assert(r@[j] == e);
                }
            }
        }
        r
    }

    /// Some node whose payload equals `payload`, found by a linear scan.
    pub fn find_node(&self, payload: &N) -> (r: Option<NodeIdx>)
        where N: PartialEq
        requires
            self.wf(),
            eq_is_identity::<N>(),
        ensures
            r matches Some(n) ==> self.node_map().contains_key(n) && self.node_map()[n] == *payload,
            r.is_none() ==> forall|n: NodeIdx| #[trigger] self.node_map().contains_key(n) ==> self.node_map()[n] != *payload,
    {
        let ns = self.node_indices();
        let mut i: usize = 0;
        while i < ns.len()
            invariant
                self.wf(),
                eq_is_identity::<N>(),
                i <= ns@.len(),
                forall|n: NodeIdx| ns@.contains(n) <==> self.node_map().contains_key(n),
                forall|j: int| 0 <= j < i ==> self.node_map()[#[trigger] ns@[j]] != *payload,
            decreases ns@.len() - i,
        {
            let n = ns[i];
            proof {
                assert(ns@.contains(n));
            }
            match self.node(n) {
                Some(v) => {
                    if v.eq(payload) {
                        return Some(n);
                    }
                },
                None => {},
            }
            i = i + 1;
        }
        proof {
            assert forall|n: NodeIdx| #[trigger] self.node_map().contains_key(n) implies self.node_map()[n] != *payload by {
                assert(ns@.contains(n));
            }
        }
        None
    }

    /// Some edge whose payload equals `payload`, found by a linear scan.
    pub fn find_edge(&self, payload: &E) -> (r: Option<EdgeIdx>)
        where E: PartialEq
        requires
            self.wf(),
            eq_is_identity::<E>(),
        ensures
            r matches Some(e) ==> self.edge_map().contains_key(e) && self.edge_map()[e].2 == *payload,
            r.is_none() ==> forall|e: EdgeIdx| #[trigger] self.edge_map().contains_key(e) ==> self.edge_map()[e].2 != *payload,
    {
        let es = self.edge_indices();
        let mut i: usize = 0;
        while i < es.len()
            invariant
                self.wf(),
                eq_is_identity::<E>(),
                i <= es@.len(),
                forall|e: EdgeIdx| es@.contains(e) <==> self.edge_map().contains_key(e),
                forall|j: int| 0 <= j < i ==> self.edge_map()[#[trigger] es@[j]].2 != *payload,
            decreases es@.len() - i,
        {
            let e = es[i];
            proof {
                assert(es@.contains(e));
            }
            match self.edge(e) {
                Some(v) => {
                    if v.eq(payload) {
                        return Some(e);
                    }
                },
                None => {},
            }
            i = i + 1;
        }
        proof {
            assert forall|e: EdgeIdx| #[trigger] self.edge_map().contains_key(e) implies self.edge_map()[e].2 != *payload by {
                assert(es@.contains(e));
            }
        }
        None
    }

    /// The degree (`kind` 0), in-degree (1) or out-degree (2) of `n`; 0
    /// when `n` names no node.
    pub(crate) fn count(&self, n: NodeIdx, kind: u8) -> (r: usize)
        requires
            self.wf(),
        ensures
            self.node_map().contains_key(n) ==> r == self.count_of(n, kind),
            !self.node_map().contains_key(n) ==> r == 0,
    {
        match self.nodes.get(n.to_key()) {
            Some(rec) => {
                proof {
                    self.lemma_degree_bound(n);
                }
                if kind == 0 {
                    rec.adjacency.outgoing.len() + rec.adjacency.incoming.len()
                } else if (kind == 1) != self.reversed {
                    rec.adjacency.incoming.len()
                } else {
                    rec.adjacency.outgoing.len()
                }
            },
            None => 0,
        }
    }

    /// The number of edges touching `n`; 0 when `n` names no node.
    pub fn degree(&self, n: NodeIdx) -> (r: usize)
        requires
            self.wf(),
        ensures
            self.node_map().contains_key(n) ==> r == self.spec_degree(n),
            !self.node_map().contains_key(n) ==> r == 0,
    {
        self.count(n, 0)
    }

    /// Adds a node carrying `payload`; its index is fresh and was never
    /// handed out before.
    pub fn add_node(&mut self, payload: N) -> (n: NodeIdx)
        requires
            old(self).wf(),
        ensures
            final(self).wf(),
            !old(self).node_map().contains_key(n),
            !old(self).node_retired(n),
            final(self).node_map() == old(self).node_map().insert(n, payload),
            final(self).edge_map() == old(self).edge_map(),
            final(self).spec_node_count() == old(self).spec_node_count() + 1,
            final(self).spec_edge_count() == old(self).spec_edge_count(),
            forall|m: NodeIdx| old(self).node_retired(m) ==> final(self).node_retired(m),
            forall|e: EdgeIdx| final(self).edge_retired(e) == old(self).edge_retired(e),
    {
        let rec = NodeRecord {
            payload,
            adjacency: AdjacencyStorage { outgoing: Vec::new(), incoming: Vec::new() },
        };
        let k = self.nodes.insert(rec);
        let n = NodeIdx::from_key(k);
        proof {
            broadcast use crate::keys::lemma_node_key_injective;
            assert forall|u: NodeIdx| #[trigger] self.nodes@.contains_key(u.key()) implies self.node_ok(u) by {
                if u != n {
                    assert(old(self).nodes@.contains_key(u.key()));
                    assert(old(self).node_ok(u));
                    let a = self.nodes@[u.key()].adjacency;
                    assert forall|j: int| 0 <= j < a.outgoing@.len() implies self.out_entry_ok(u, #[trigger] a.outgoing@[j]) by {
                        assert(old(self).out_entry_ok(u, a.outgoing@[j]));
                    }
                    assert forall|j: int| 0 <= j < a.incoming@.len() implies self.in_entry_ok(u, #[trigger] a.incoming@[j]) by {
                        assert(old(self).in_entry_ok(u, a.incoming@[j]));
                    }
                }
            }
            assert forall|e: EdgeIdx| #[trigger] self.edges@.contains_key(e.key()) implies self.edge_ok(e) by {
                assert(old(self).edge_ok(e));
                let r = self.edges@[e.key()];
                assert(r.from.key() != k);
                assert(r.to.key() != k);
            }
        }
        assert(self.node_map() =~= old(self).node_map().insert(n, payload));
        assert(self.edge_map() =~= old(self).edge_map());
        n
    }

    /// An index that was removed never names a node again.
    pub proof fn lemma_retired_node_absent(&self, n: NodeIdx)
        requires
            self.wf(),
            self.node_retired(n),
        ensures
            !self.node_map().contains_key(n),
    {
        if self.nodes@.contains_key(n.key()) {
            self.nodes.lemma_live_not_retired(n.key());
        }
    }

    /// One call of `add_node`, or of `remove_node` on an index other than
    /// `n`, as seen in the node map: it adds a node under a fresh index, or
    /// removes some node other than `n`.
    pub open spec fn node_step_sparing(a: Map<NodeIdx, N>, b: Map<NodeIdx, N>, n: NodeIdx) -> bool {
        exists|k: NodeIdx, p: N|
            {
                ||| (!a.contains_key(k) && b == a.insert(k, p))
                ||| (k != n && b == a.remove(k))
            }
    }

    /// Through any sequence of node additions and of removals of other
    /// nodes, a node keeps its index and its payload.
    pub proof fn lemma_node_index_stable(maps: Seq<Map<NodeIdx, N>>, n: NodeIdx)
        requires
            maps.len() > 0,
            maps[0].contains_key(n),
            forall|i: int| 0 <= i < maps.len() - 1 ==> Self::node_step_sparing(#[trigger] maps[i], maps[i + 1], n),
        ensures
            maps.last().contains_key(n),
            maps.last()[n] == maps[0][n],
        decreases maps.len(),
    {
        if maps.len() > 1 {
            let front = maps.drop_last();
            assert forall|i: int| 0 <= i < front.len() - 1 implies Self::node_step_sparing(
                #[trigger] front[i],
                front[i + 1],
                n,
            ) by {
                assert(front[i] == maps[i] && front[i + 1] == maps[i + 1]);
            }
            Self::lemma_node_index_stable(front, n);
            let i = maps.len() - 2;
            assert(Self::node_step_sparing(maps[i], maps[i + 1], n));
            let (k, p) = choose|k: NodeIdx, p: N|
                {
                    ||| (!maps[i].contains_key(k) && maps[i + 1] == maps[i].insert(k, p))
                    ||| (k != n && maps[i + 1] == maps[i].remove(k))
                };
            assert(front.last() == maps[i]);
        }
    }

    /// An index that was removed never names an edge again.
    pub proof fn lemma_retired_edge_absent(&self, e: EdgeIdx)
        requires
            self.wf(),
            self.edge_retired(e),
        ensures
            !self.edge_map().contains_key(e),
    {
        if self.edges@.contains_key(e.key()) {
            self.edges.lemma_live_not_retired(e.key());
        }
    }

    /// The graph is simple: no edge is a loop, both endpoints of an edge are
    /// nodes, and no two edges run between the same nodes in the same
    /// direction.
    pub proof fn lemma_simple(&self)
        requires
            self.wf(),
        ensures
            forall|e: EdgeIdx|
                #[trigger] self.edge_map().contains_key(e) ==> {
                    &&& self.edge_map()[e].0 != self.edge_map()[e].1
                    &&& self.node_map().contains_key(self.edge_map()[e].0)
                    &&& self.node_map().contains_key(self.edge_map()[e].1)
                },
            forall|e1: EdgeIdx, e2: EdgeIdx|
                #[trigger] self.edge_map().contains_key(e1) && #[trigger] self.edge_map().contains_key(e2)
                    && self.edge_map()[e1].0 == self.edge_map()[e2].0 && self.edge_map()[e1].1 == self.edge_map()[e2].1
                    ==> e1 == e2,
    {
        assert forall|e: EdgeIdx| #[trigger] self.edge_map().contains_key(e) implies {
            &&& self.edge_map()[e].0 != self.edge_map()[e].1
            &&& self.node_map().contains_key(self.edge_map()[e].0)
            &&& self.node_map().contains_key(self.edge_map()[e].1)
        } by {
            assert(self.edge_ok(e));
        }
        assert forall|e1: EdgeIdx, e2: EdgeIdx|
            #[trigger] self.edge_map().contains_key(e1) && #[trigger] self.edge_map().contains_key(e2)
                && self.edge_map()[e1].0 == self.edge_map()[e2].0 && self.edge_map()[e1].1 == self.edge_map()[e2].1
                implies e1 == e2 by {
            assert(self.edge_ok(e1));
            assert(self.edge_ok(e2));
            let r1 = self.edges@[e1.key()];
            let r2 = self.edges@[e2.key()];
            assert(r1.from == r2.from && r1.to == r2.to);
            let l = self.out_list(r1.from);
            let i = l.index_of((r1.to, e1));
            let j = l.index_of((r2.to, e2));
            assert(self.node_ok(r1.from));
            assert(l[i].0 == l[j].0);
        }
    }

    /// After an edge from `u` to `v` is added, `u` is connected to `v`; in an
    /// undirected graph `v` is connected to `u` as well, and in a directed one
    /// `v` is connected to `u` only if it was before.
    pub proof fn lemma_added_edge_connects(old_g: &Self, new_g: &Self, u: NodeIdx, v: NodeIdx, e: EdgeIdx, w: E)
        requires
            u != v,
            !old_g.edge_map().contains_key(e),
            new_g.edge_map() == old_g.edge_map().insert(e, (u, v, w)),
        ensures
            new_g.connects(u, v),
            !DIRECTED ==> new_g.connects(v, u),
            DIRECTED ==> (new_g.connects(v, u) <==> old_g.connects(v, u)),
    {
        assert(new_g.edge_map().contains_key(e));
        if DIRECTED {
            if new_g.connects(v, u) {
                let f = choose|f: EdgeIdx|
                    #[trigger] new_g.edge_map().contains_key(f) && {
                        ||| (new_g.edge_map()[f].0 == v && new_g.edge_map()[f].1 == u)
                        ||| (!DIRECTED && new_g.edge_map()[f].0 == u && new_g.edge_map()[f].1 == v)
                    };
                assert(f != e);
                assert(old_g.edge_map().contains_key(f));
            }
            if old_g.connects(v, u) {
                let f = choose|f: EdgeIdx|
                    #[trigger] old_g.edge_map().contains_key(f) && {
                        ||| (old_g.edge_map()[f].0 == v && old_g.edge_map()[f].1 == u)
                        ||| (!DIRECTED && old_g.edge_map()[f].0 == u && old_g.edge_map()[f].1 == v)
                    };
                assert(new_g.edge_map().contains_key(f));
            }
        }
    }

    /// Removing node `n` takes from every other node exactly the edges it
    /// shared with `n`, and leaves its other edges as they were.
    pub proof fn lemma_remove_node_keeps_others(old_g: &Self, new_g: &Self, n: NodeIdx, m: NodeIdx)
        requires
            forall|e: EdgeIdx|
                #[trigger] new_g.edge_map().contains_key(e) <==> (old_g.edge_map().contains_key(e)
                    && old_g.edge_map()[e].0 != n && old_g.edge_map()[e].1 != n),
            forall|e: EdgeIdx|
                #[trigger] new_g.edge_map().contains_key(e) ==> new_g.edge_map()[e] == old_g.edge_map()[e],
        ensures
            forall|e: EdgeIdx|
                #[trigger] new_g.incident_edges(m).contains(e) <==> (old_g.incident_edges(m).contains(e)
                    && !old_g.incident_edges(n).contains(e)),
    {
        assert forall|e: EdgeIdx|
            #[trigger] new_g.incident_edges(m).contains(e) <==> (old_g.incident_edges(m).contains(e)
                && !old_g.incident_edges(n).contains(e)) by {
            if old_g.edge_map().contains_key(e) {
                if new_g.edge_map().contains_key(e) {
                    assert(new_g.edge_map()[e] == old_g.edge_map()[e]);
                }
            }
        }
    }

    /// The degree of a node is its in-degree plus its out-degree.
    pub proof fn lemma_degree_sum(&self, n: NodeIdx)
        ensures
            self.spec_degree(n) == self.spec_in_degree(n) + self.spec_out_degree(n),
    {
    }

    /// Turning every edge around twice gives back the same edges, degrees,
    /// connections, sources and sinks.
    pub proof fn lemma_reverse_involution(a: &Self, b: &Self, c: &Self)
        requires
            b.is_reverse_of(a),
            c.is_reverse_of(b),
        ensures
            c.node_map() == a.node_map(),
            c.edge_map() == a.edge_map(),
            forall|n: NodeIdx| #[trigger] c.spec_in_degree(n) == a.spec_in_degree(n),
            forall|n: NodeIdx| #[trigger] c.spec_out_degree(n) == a.spec_out_degree(n),
            forall|x: NodeIdx, y: NodeIdx| #[trigger] c.connects(x, y) == a.connects(x, y),
    {
        assert forall|e: EdgeIdx| #[trigger] c.edge_map().contains_key(e) implies c.edge_map()[e] == a.edge_map()[e] by {
            assert(b.edge_map().contains_key(e));
        }
        assert(c.edge_map() =~= a.edge_map());
        assert forall|n: NodeIdx| #[trigger] c.spec_in_degree(n) == a.spec_in_degree(n) by {
            assert(c.spec_in_degree(n) == b.spec_out_degree(n));
            assert(b.spec_out_degree(n) == a.spec_in_degree(n));
        }
        assert forall|n: NodeIdx| #[trigger] c.spec_out_degree(n) == a.spec_out_degree(n) by {
            assert(c.spec_out_degree(n) == b.spec_in_degree(n));
            assert(b.spec_in_degree(n) == a.spec_out_degree(n));
        }
    }
}

impl<N, E> SimpleMapGraph<N, E, true> {
    /// The number of edges entering `n`; 0 when `n` names no node.
    pub fn in_degree(&self, n: NodeIdx) -> (r: usize)
        requires
            self.wf(),
        ensures
            self.node_map().contains_key(n) ==> r == self.spec_in_degree(n),
            !self.node_map().contains_key(n) ==> r == 0,
    {
        self.count(n, 1)
    }

    /// The number of edges leaving `n`; 0 when `n` names no node.
    pub fn out_degree(&self, n: NodeIdx) -> (r: usize)
        requires
            self.wf(),
        ensures
            self.node_map().contains_key(n) ==> r == self.spec_out_degree(n),
            !self.node_map().contains_key(n) ==> r == 0,
    {
        self.count(n, 2)
    }

    /// The edges entering `n`.
    pub fn incoming_edges_of(&self, n: NodeIdx) -> (r: Vec<EdgeIdx>)
        requires
            self.wf(),
        ensures
            self.node_map().contains_key(n) ==> r@.len() == self.spec_in_degree(n),
            forall|e: EdgeIdx| r@.contains(e) <==> self.in_edges(n).contains(e),
    {
        proof {
            self.lemma_directed_lists(n);
        }
        match self.nodes.get(n.to_key()) {
            Some(rec) => if self.reversed {
                edges_in(&rec.adjacency.outgoing)
            } else {
                edges_in(&rec.adjacency.incoming)
            },
            None => Vec::new(),
        }
    }

    /// The edges leaving `n`.
    pub fn outgoing_edges_of(&self, n: NodeIdx) -> (r: Vec<EdgeIdx>)
        requires
            self.wf(),
        ensures
            self.node_map().contains_key(n) ==> r@.len() == self.spec_out_degree(n),
            forall|e: EdgeIdx| r@.contains(e) <==> self.out_edges(n).contains(e),
    {
        proof {
            self.lemma_directed_lists(n);
        }
        match self.nodes.get(n.to_key()) {
            Some(rec) => if self.reversed {
                edges_in(&rec.adjacency.incoming)
            } else {
                edges_in(&rec.adjacency.outgoing)
            },
            None => Vec::new(),
        }
    }

    /// The nodes with an edge into `n`.
    pub fn in_neighbors(&self, n: NodeIdx) -> (r: Vec<NodeIdx>)
        requires
            self.wf(),
        ensures
            self.node_map().contains_key(n) ==> r@.len() == self.spec_in_degree(n),
            forall|p: NodeIdx| r@.contains(p) <==> self.connects(p, n),
    {
        proof {
            self.lemma_directed_lists(n);
        }
        match self.nodes.get(n.to_key()) {
            Some(rec) => if self.reversed {
                peers_in(&rec.adjacency.outgoing)
            } else {
                peers_in(&rec.adjacency.incoming)
            },
            None => Vec::new(),
        }
    }

    /// The nodes with an edge from `n`.
    pub fn out_neighbors(&self, n: NodeIdx) -> (r: Vec<NodeIdx>)
        requires
            self.wf(),
        ensures
            self.node_map().contains_key(n) ==> r@.len() == self.spec_out_degree(n),
            forall|p: NodeIdx| r@.contains(p) <==> self.connects(n, p),
    {
        proof {
            self.lemma_directed_lists(n);
        }
        match self.nodes.get(n.to_key()) {
            Some(rec) => if self.reversed {
                peers_in(&rec.adjacency.incoming)
            } else {
                peers_in(&rec.adjacency.outgoing)
            },
            None => Vec::new(),
        }
    }

    /// Turns every edge around.
    pub fn reverse(&mut self)
        requires
            old(self).wf(),
        ensures
            final(self).wf(),
            final(self).is_reverse_of(old(self)),
            forall|m: NodeIdx| final(self).node_retired(m) == old(self).node_retired(m),
            forall|q: EdgeIdx| final(self).edge_retired(q) == old(self).edge_retired(q),
    {
        self.reversed = !self.reversed;
        assert(self.node_map() =~= old(self).node_map());
        assert(self.edge_map().dom() =~= old(self).edge_map().dom());
        proof {
            assert forall|u: NodeIdx| #[trigger] self.nodes@.contains_key(u.key()) implies self.node_ok(u) by {
                assert(old(self).node_ok(u));
                let a = self.nodes@[u.key()].adjacency;
                assert forall|j: int| 0 <= j < a.outgoing@.len() implies self.out_entry_ok(u, #[trigger] a.outgoing@[j]) by {
                    assert(old(self).out_entry_ok(u, a.outgoing@[j]));
                }
                assert forall|j: int| 0 <= j < a.incoming@.len() implies self.in_entry_ok(u, #[trigger] a.incoming@[j]) by {
                    assert(old(self).in_entry_ok(u, a.incoming@[j]));
                }
            }
            assert forall|f: EdgeIdx| #[trigger] self.edges@.contains_key(f.key()) implies self.edge_ok(f) by {
                assert(old(self).edge_ok(f));
            }
        }
    }

    /// Turns edge `e` around, keeping its index and payload. Nothing changes,
    /// and `false` is returned, when `e` names no edge or an edge already
    /// runs the other way.
    pub fn reverse_edge(&mut self, e: EdgeIdx) -> (r: bool)
        requires
            old(self).wf(),
        ensures
            final(self).wf(),
            r == (old(self).edge_map().contains_key(e) && !old(self).connects(
                old(self).edge_map()[e].1,
                old(self).edge_map()[e].0,
            )),
            final(self).node_map() == old(self).node_map(),
            final(self).spec_node_count() == old(self).spec_node_count(),
            final(self).spec_edge_count() == old(self).spec_edge_count(),
            forall|m: NodeIdx| final(self).node_retired(m) == old(self).node_retired(m),
            forall|q: EdgeIdx| final(self).edge_retired(q) == old(self).edge_retired(q),
            !r ==> final(self).edge_map() == old(self).edge_map(),
            r ==> final(self).edge_map() == old(self).edge_map().insert(
                e,
                (old(self).edge_map()[e].1, old(self).edge_map()[e].0, old(self).edge_map()[e].2),
            ),
    {
        proof {
            broadcast use crate::keys::lemma_node_key_injective, crate::keys::lemma_edge_key_injective;
        }
        let (pf, pt) = match self.edges.get(e.to_key()) {
            Some(rec) => (rec.from, rec.to),
            None => {
                return false;
            },
        };
        let (a, b) = if self.reversed { (pt, pf) } else { (pf, pt) };
        if self.contains_edge_between(b, a) {
            return false;
        }
        proof {
            assert(self.edge_ok(e));
            self.lemma_connects(b, a);
            // no edge runs from pt to pf as stored
            assert(!has_key(self.out_list(pt), pf)) by {
                if has_key(self.out_list(pt), pf) {
                    let j = choose|j: int| 0 <= j < self.out_list(pt).len() && self.out_list(pt)[j].0 == pf;
                    self.lemma_entry_of_edge(pt, self.out_list(pt)[j].1, j, true);
                    let f = self.out_list(pt)[j].1;
                    assert(self.edge_ok(f));
                    assert(self.in_list(pf).contains((pt, f)));
                    let k = choose|k: int| 0 <= k < self.in_list(pf).len() && self.in_list(pf)[k] == (pt, f);
                    assert(self.in_list(pf)[k].0 == pt);
                }
            }
            assert(!has_key(self.in_list(pf), pt)) by {
                if has_key(self.in_list(pf), pt) {
                    let j = choose|j: int| 0 <= j < self.in_list(pf).len() && self.in_list(pf)[j].0 == pt;
                    self.lemma_entry_of_edge(pf, self.in_list(pf)[j].1, j, false);
                    let f = self.in_list(pf)[j].1;
                    assert(self.edge_ok(f));
                    assert(self.out_list(pt).contains((pf, f)));
                    let k = choose|k: int| 0 <= k < self.out_list(pt).len() && self.out_list(pt)[k] == (pf, f);
                    assert(self.out_list(pt)[k].0 == pf);
                }
            }
        }
        let ghost i1 = self.out_list(pf).index_of((pt, e));
        let ghost i2 = self.in_list(pt).index_of((pf, e));
        proof {
            self.lemma_entry_of_edge(pf, e, i1, true);
            self.lemma_entry_of_edge(pt, e, i2, false);
            assert(self.out_list(pf)[i1] == (pt, e));
            assert(self.in_list(pt)[i2] == (pf, e));
        }
        self.remove_entry(pf, pt, true);
        self.remove_entry(pt, pf, false);
        match self.edges.get_mut(e.to_key()) {
            Some(rec) => {
                rec.from = pt;
                rec.to = pf;
            },
            None => {},
        }
        self.push_entry(pt, (pf, e), true);
        self.push_entry(pf, (pt, e), false);
        proof {
            assert(self.out_list(pf) == old(self).out_list(pf).remove(i1));
            assert(self.in_list(pf) == old(self).in_list(pf).push((pt, e)));
            assert(self.in_list(pt) == old(self).in_list(pt).remove(i2));
            assert(self.out_list(pt) == old(self).out_list(pt).push((pf, e)));
            assert forall|u: NodeIdx| u != pf && u != pt implies #[trigger] self.out_list(u) == old(self).out_list(u)
                && self.in_list(u) == old(self).in_list(u) by {}
            assert forall|u: NodeIdx| #[trigger] self.nodes@.contains_key(u.key()) implies self.node_ok(u) by {
                assert(old(self).nodes@.contains_key(u.key()));
                assert(old(self).node_ok(u));
                let na = self.nodes@[u.key()].adjacency;
                let oa = old(self).nodes@[u.key()].adjacency;
                assert forall|j: int| 0 <= j < na.outgoing@.len() implies self.out_entry_ok(u, #[trigger] na.outgoing@[j]) by {
                    let x = na.outgoing@[j];
                    if u == pt && j == oa.outgoing@.len() {
                    } else {
                        let jo = if u == pf && j >= i1 { j + 1 } else { j };
                        assert(oa.outgoing@[jo] == x);
                        assert(old(self).out_entry_ok(u, x));
                        if x.1 == e {
                            old(self).lemma_entry_of_edge(u, e, jo, true);
                        }
                    }
                }
                assert forall|j: int| 0 <= j < na.incoming@.len() implies self.in_entry_ok(u, #[trigger] na.incoming@[j]) by {
                    let x = na.incoming@[j];
                    if u == pf && j == oa.incoming@.len() {
                    } else {
                        let jo = if u == pt && j >= i2 { j + 1 } else { j };
                        assert(oa.incoming@[jo] == x);
                        assert(old(self).in_entry_ok(u, x));
                        if x.1 == e {
                            old(self).lemma_entry_of_edge(u, e, jo, false);
                        }
                    }
                }
                if u == pf {
                    assert(unique_keys(na.incoming@)) by {
                        assert forall|x: int, y: int| 0 <= x < na.incoming@.len() && 0 <= y < na.incoming@.len() && x != y
                            implies na.incoming@[x].0 != na.incoming@[y].0 by {
                            if y == oa.incoming@.len() {
                                assert(oa.incoming@[x].0 != pt);
                            }
                            if x == oa.incoming@.len() {
                                assert(oa.incoming@[y].0 != pt);
                            }
                        }
                    }
                }
                if u == pt {
                    assert(unique_keys(na.outgoing@)) by {
                        assert forall|x: int, y: int| 0 <= x < na.outgoing@.len() && 0 <= y < na.outgoing@.len() && x != y
                            implies na.outgoing@[x].0 != na.outgoing@[y].0 by {
                            if y == oa.outgoing@.len() {
                                assert(oa.outgoing@[x].0 != pf);
                            }
                            if x == oa.outgoing@.len() {
                                assert(oa.outgoing@[y].0 != pf);
                            }
                        }
                    }
                }
            }
            assert forall|f: EdgeIdx| #[trigger] self.edges@.contains_key(f.key()) implies self.edge_ok(f) by {
                if f == e {
                    assert(self.out_list(pt)[self.out_list(pt).len() - 1] == (pf, e));
                    assert(self.in_list(pf)[self.in_list(pf).len() - 1] == (pt, e));
                } else {
                    assert(old(self).edges@.contains_key(f.key()));
                    assert(old(self).edge_ok(f));
                    let r = self.edges@[f.key()];
                    let l = old(self).out_list(r.from);
                    let i = l.index_of((r.to, f));
                    let ni = if r.from == pf && i > i1 { i - 1 } else { i };
                    assert(self.out_list(r.from)[ni] == (r.to, f));
                    let l2 = old(self).in_list(r.to);
                    let k = l2.index_of((r.from, f));
                    let nk = if r.to == pt && k > i2 { k - 1 } else { k };
                    assert(self.in_list(r.to)[nk] == (r.from, f));
                }
            }
            assert forall|m: NodeIdx| self.node_retired(m) == old(self).node_retired(m) by {}
            assert forall|q: EdgeIdx| self.edge_retired(q) == old(self).edge_retired(q) by {}
        }
        assert(self.node_map() =~= old(self).node_map());
        assert(self.edge_map() =~= old(self).edge_map().insert(
            e,
            (old(self).edge_map()[e].1, old(self).edge_map()[e].0, old(self).edge_map()[e].2),
        ));
        true
    }

    /// Turning an edge around succeeds again right after it succeeded, and
    /// then gives back the edges as they were.
    pub proof fn lemma_reverse_edge_twice(a: &Self, b: &Self, e: EdgeIdx)
        requires
            a.wf(),
            a.edge_map().contains_key(e),
            !a.connects(a.edge_map()[e].1, a.edge_map()[e].0),
            b.edge_map() == a.edge_map().insert(e, (a.edge_map()[e].1, a.edge_map()[e].0, a.edge_map()[e].2)),
        ensures
            b.edge_map().contains_key(e),
            !b.connects(b.edge_map()[e].1, b.edge_map()[e].0),
            b.edge_map().insert(e, (b.edge_map()[e].1, b.edge_map()[e].0, b.edge_map()[e].2)) == a.edge_map(),
    {
        a.lemma_simple();
        let (u, v) = (a.edge_map()[e].0, a.edge_map()[e].1);
        if b.connects(u, v) {
            let f = choose|f: EdgeIdx|
                #[trigger] b.edge_map().contains_key(f) && {
                    ||| (b.edge_map()[f].0 == u && b.edge_map()[f].1 == v)
                    ||| (!true && b.edge_map()[f].0 == v && b.edge_map()[f].1 == u)
                };
            if f != e {
                assert(a.edge_map().contains_key(f));
            }
        }
        assert(b.edge_map().insert(e, (b.edge_map()[e].1, b.edge_map()[e].0, b.edge_map()[e].2)) =~= a.edge_map());
    }

    /// The nodes no edge enters.
    pub fn sources(&self) -> (r: Vec<NodeIdx>)
        requires
            self.wf(),
        ensures
            r@.no_duplicates(),
            forall|n: NodeIdx| r@.contains(n) <==> (self.node_map().contains_key(n) && self.spec_in_degree(n) == 0),
    {
        self.nodes_without(1)
    }

    /// The nodes no edge leaves.
    pub fn sinks(&self) -> (r: Vec<NodeIdx>)
        requires
            self.wf(),
        ensures
            r@.no_duplicates(),
            forall|n: NodeIdx| r@.contains(n) <==> (self.node_map().contains_key(n) && self.spec_out_degree(n) == 0),
    {
        self.nodes_without(2)
    }
}

} // verus!
