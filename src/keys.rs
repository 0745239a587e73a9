use vstd::prelude::*;
use crate::arena::SlotKey;
use crate::vecmap::eq_is_identity;

verus! {

/// Identity of a node: a slot position and the generation the slot had when
/// the node was stored there.
#[derive(Clone, Copy, Debug, Hash)]
pub struct NodeIdx {
    pub slot: usize,
    pub generation: u64,
}

/// Identity of an edge: a slot position and the generation the slot had when
/// the edge was stored there.
#[derive(Clone, Copy, Debug, Hash)]
pub struct EdgeIdx {
    pub slot: usize,
    pub generation: u64,
}

impl NodeIdx {
    /// The arena key this index stands for.
    pub open spec fn key(self) -> SlotKey {
        (self.slot, self.generation)
    }

    pub fn from_key(k: SlotKey) -> (r: NodeIdx)
        ensures
            r.key() == k,
    {
        NodeIdx { slot: k.0, generation: k.1 }
    }

    pub fn to_key(self) -> (r: SlotKey)
        ensures
            r == self.key(),
    {
        (self.slot, self.generation)
    }
}

impl EdgeIdx {
    /// The arena key this index stands for.
    pub open spec fn key(self) -> SlotKey {
        (self.slot, self.generation)
    }

    pub fn from_key(k: SlotKey) -> (r: EdgeIdx)
        ensures
            r.key() == k,
    {
        EdgeIdx { slot: k.0, generation: k.1 }
    }

    pub fn to_key(self) -> (r: SlotKey)
        ensures
            r == self.key(),
    {
        (self.slot, self.generation)
    }
}

/// Two node indices are equal exactly when their keys are.
pub broadcast proof fn lemma_node_key_injective(a: NodeIdx, b: NodeIdx)
    ensures
        #[trigger] a.key() == #[trigger] b.key() ==> a == b,
{
}

/// Two edge indices are equal exactly when their keys are.
pub broadcast proof fn lemma_edge_key_injective(a: EdgeIdx, b: EdgeIdx)
    ensures
        #[trigger] a.key() == #[trigger] b.key() ==> a == b,
{
}

/// `==` on node indices is equality of values.
pub proof fn lemma_node_eq_identity()
    ensures
        eq_is_identity::<NodeIdx>(),
{
}

impl PartialEq for NodeIdx {
    fn eq(&self, o: &NodeIdx) -> (r: bool) {
        self.slot == o.slot && self.generation == o.generation
    }
}

impl vstd::std_specs::cmp::PartialEqSpecImpl for NodeIdx {
    open spec fn obeys_eq_spec() -> bool {
        true
    }

    open spec fn eq_spec(&self, o: &NodeIdx) -> bool {
        self.slot == o.slot && self.generation == o.generation
    }
}

impl Eq for NodeIdx {
}

impl PartialEq for EdgeIdx {
    fn eq(&self, o: &EdgeIdx) -> (r: bool) {
        self.slot == o.slot && self.generation == o.generation
    }
}

impl vstd::std_specs::cmp::PartialEqSpecImpl for EdgeIdx {
    open spec fn obeys_eq_spec() -> bool {
        true
    }

    open spec fn eq_spec(&self, o: &EdgeIdx) -> bool {
        self.slot == o.slot && self.generation == o.generation
    }
}

impl Eq for EdgeIdx {
}

} // verus!
