//! Identity for nodes and edges.
//!
//! `NodeId` is a generational index into the graph's slot vector. The index is
//! reused when a slot is freed; the generation is not, so a stale id does not
//! resolve to the node that took its slot. `NodeId` orders by
//! `(index, generation)` ascending, which is the tie-break of every sort.

use vstd::prelude::*;

verus! {

/// A node's identity, stable for as long as that node exists.
#[derive(Clone, Copy, PartialEq, Eq, PartialOrd, Ord, Hash, Debug, Structural)]
pub struct NodeId {
    index: u32,
    generation: u32,
}

impl NodeId {
    /// The slot this id addresses.
    pub closed spec fn spec_index(self) -> u32 {
        self.index
    }

    /// How many times that slot had been reused when this id was minted.
    pub closed spec fn spec_generation(self) -> u32 {
        self.generation
    }

    /// The id with these two halves.
    pub closed spec fn mk(index: u32, generation: u32) -> NodeId {
        NodeId { index, generation }
    }

    /// The position of this id in the `(index, generation)` order, as one number.
    pub open spec fn key(self) -> int {
        self.spec_index() as int * 0x1_0000_0000 + self.spec_generation() as int
    }

    /// An id that never resolves in a graph of fewer than `u32::MAX` slots.
    pub fn placeholder() -> (id: NodeId)
        ensures
            id.spec_index() == u32::MAX,
            id.spec_generation() == u32::MAX,
    {
        NodeId { index: u32::MAX, generation: u32::MAX }
    }

    /// Builds an id directly from both halves.
    pub fn new(index: u32, generation: u32) -> (id: NodeId)
        ensures
            id == NodeId::mk(index, generation),
            id.spec_index() == index,
            id.spec_generation() == generation,
    {
        NodeId { index, generation }
    }

    /// The slot this id addresses.
    pub fn index(self) -> (r: u32)
        ensures
            r == self.spec_index(),
    {
        self.index
    }

    /// How many times that slot had been reused when this id was minted.
    pub fn generation(self) -> (r: u32)
        ensures
            r == self.spec_generation(),
    {
        self.generation
    }

    /// Whether `self` comes strictly before `other` in `(index, generation)` order.
    pub fn precedes(self, other: NodeId) -> (r: bool)
        ensures
            r == (self.key() < other.key()),
    {
        self.index < other.index || (self.index == other.index && self.generation < other.generation)
    }

    /// Whether the two ids are the same id.
    pub fn same(self, other: NodeId) -> (r: bool)
        ensures
            r == (self == other),
    {
        self.index == other.index && self.generation == other.generation
    }
}

/// Two ids are equal exactly when both halves are, which is exactly when
/// their keys are.
pub proof fn lemma_node_id_eq(a: NodeId, b: NodeId)
    ensures
        (a.spec_index() == b.spec_index() && a.spec_generation() == b.spec_generation()) == (a == b),
        (a.key() == b.key()) == (a == b),
{
}

/// The halves of a built id are the halves it was built from.
pub broadcast proof fn lemma_mk(index: u32, generation: u32)
    ensures
        #[trigger] NodeId::mk(index, generation).spec_index() == index,
        NodeId::mk(index, generation).spec_generation() == generation,
{
}

/// An edge's identity. Monotonic and never reused.
#[derive(Clone, Copy, PartialEq, Eq, PartialOrd, Ord, Hash, Debug, Structural)]
pub struct EdgeId(u64);

impl EdgeId {
    /// The underlying counter value.
    pub closed spec fn spec_get(self) -> u64 {
        self.0
    }

    /// Builds an id directly.
    pub fn new(raw: u64) -> (id: EdgeId)
        ensures
            id.spec_get() == raw,
    {
        EdgeId(raw)
    }

    /// The underlying counter value.
    pub fn get(self) -> (r: u64)
        ensures
            r == self.spec_get(),
    {
        self.0
    }

    /// Whether the two ids are the same id.
    pub fn same(self, other: EdgeId) -> (r: bool)
        ensures
            r == (self == other),
    {
        self.0 == other.0
    }
}

/// Two edge ids are equal exactly when their counters are.
pub proof fn lemma_edge_id_eq(a: EdgeId, b: EdgeId)
    ensures
        (a.spec_get() == b.spec_get()) == (a == b),
{
}

} // verus!
