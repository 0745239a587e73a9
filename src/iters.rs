use vstd::prelude::*;
use crate::graph::SimpleMapGraph;
use crate::keys::NodeIdx;

verus! {

/// Turns a sequence of node indices into the payloads of those nodes,
/// skipping indices that name no node of the graph.
pub struct NodesByIdx<'g, N, E, const DIRECTED: bool> {
    graph: &'g SimpleMapGraph<N, E, DIRECTED>,
    inner: Vec<NodeIdx>,
    pos: usize,
}

impl<'g, N, E, const DIRECTED: bool> NodesByIdx<'g, N, E, DIRECTED> {
    /// The graph whose payloads are handed out.
    pub closed spec fn graph(&self) -> SimpleMapGraph<N, E, DIRECTED> {
        *self.graph
    }

    /// The indices walked over.
    pub closed spec fn indices(&self) -> Seq<NodeIdx> {
        self.inner@
    }

    /// How many indices were consumed so far.
    pub closed spec fn position(&self) -> int {
        self.pos as int
    }

    /// A cursor over the payloads of the nodes `inner` names in `graph`.
    pub fn new(inner: Vec<NodeIdx>, graph: &'g SimpleMapGraph<N, E, DIRECTED>) -> (r: Self)
        ensures
            r.graph() == *graph,
            r.indices() == inner@,
            r.position() == 0,
    {
        NodesByIdx { graph, inner, pos: 0 }
    }

    /// The payload of the next index that names a node, or `None` once the
    /// indices are used up.
    pub fn next(&mut self) -> (r: Option<&'g N>)
        requires
            old(self).graph().wf(),
            old(self).position() <= old(self).indices().len(),
        ensures
            final(self).graph() == old(self).graph(),
            final(self).indices() == old(self).indices(),
            old(self).position() <= final(self).position() <= final(self).indices().len(),
            forall|j: int|
                old(self).position() <= j < final(self).position() - (if r.is_some() {
                    1int
                } else {
                    0int
                }) ==> !old(self).graph().node_map().contains_key(#[trigger] old(self).indices()[j]),
            r.is_none() ==> final(self).position() == old(self).indices().len(),
            r matches Some(v) ==> {
                let n = old(self).indices()[final(self).position() - 1];
                &&& final(self).position() > old(self).position()
                &&& old(self).graph().node_map().contains_key(n)
                &&& *v == old(self).graph().node_map()[n]
            },
    {
        while self.pos < self.inner.len()
            invariant
                self.graph == old(self).graph,
                self.inner == old(self).inner,
                self.graph.wf(),
                old(self).pos <= self.pos <= self.inner@.len(),
                forall|j: int|
                    old(self).pos <= j < self.pos ==> !self.graph.node_map().contains_key(#[trigger] self.inner@[j]),
            decreases self.inner@.len() - self.pos,
        {
            let n = self.inner[self.pos];
            self.pos = self.pos + 1;
            let graph: &'g SimpleMapGraph<N, E, DIRECTED> = self.graph;
            match graph.node(n) {
                Some(v) => {
                    return Some(v);
                },
                None => {},
            }
        }
        None
    }

    /// The indices not yet consumed.
    pub fn into_indices(self) -> (r: Vec<NodeIdx>)
        requires
            self.position() <= self.indices().len(),
        ensures
            r@ == self.indices().subrange(self.position(), self.indices().len() as int),
    {
        let mut r: Vec<NodeIdx> = Vec::new();
        let mut i: usize = self.pos;
        while i < self.inner.len()
            invariant
                self.pos <= i <= self.inner@.len(),
                r@ == self.inner@.subrange(self.pos as int, i as int),
            decreases self.inner@.len() - i,
        {
            r.push(self.inner[i]);
            i = i + 1;
            assert(r@ =~= self.inner@.subrange(self.pos as int, i as int));
        }
        r
    }
}

/// Pairs each item of a sequence of `(node index, value)` with the node's
/// current out-degree; in an undirected graph that is its degree.
pub struct ZipOutDegree<'g, N, E, T, const DIRECTED: bool> {
    graph: &'g SimpleMapGraph<N, E, DIRECTED>,
    inner: Vec<(NodeIdx, T)>,
    pos: usize,
}

impl<'g, N, E, T: Copy, const DIRECTED: bool> ZipOutDegree<'g, N, E, T, DIRECTED> {
    /// The graph whose degrees are read.
    pub closed spec fn graph(&self) -> SimpleMapGraph<N, E, DIRECTED> {
        *self.graph
    }

    /// The items walked over.
    pub closed spec fn items(&self) -> Seq<(NodeIdx, T)> {
        self.inner@
    }

    /// How many items were handed out so far.
    pub closed spec fn position(&self) -> int {
        self.pos as int
    }

    /// A cursor over `inner`, each item paired with its node's out-degree in
    /// `graph`.
    pub fn new(inner: Vec<(NodeIdx, T)>, graph: &'g SimpleMapGraph<N, E, DIRECTED>) -> (r: Self)
        ensures
            r.graph() == *graph,
            r.items() == inner@,
            r.position() == 0,
    {
        ZipOutDegree { graph, inner, pos: 0 }
    }

    /// The next item with the out-degree of its node (0 for an index that
    /// names no node), or `None` once the items are used up.
    pub fn next(&mut self) -> (r: Option<((NodeIdx, T), usize)>)
        requires
            old(self).graph().wf(),
        ensures
            final(self).graph() == old(self).graph(),
            final(self).items() == old(self).items(),
            old(self).position() < old(self).items().len() ==> {
                let x = old(self).items()[old(self).position()];
                &&& final(self).position() == old(self).position() + 1
                &&& r matches Some((y, d)) && y == x && d == (if old(self).graph().node_map().contains_key(x.0) {
                    old(self).graph().spec_out_degree(x.0)
                } else {
                    0
                })
            },
            old(self).position() >= old(self).items().len() ==> {
                &&& r.is_none()
                &&& final(self).position() == old(self).position()
            },
    {
        if self.pos < self.inner.len() {
            let x = self.inner[self.pos];
            self.pos = self.pos + 1;
            let d = self.graph.count(x.0, 2);
            Some((x, d))
        } else {
            None
        }
    }
}

} // verus!
