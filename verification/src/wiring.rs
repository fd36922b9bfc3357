//! The entity-based graph's node and edge data.
//!
//! Nodes are addressed by a stable authored number and edges connect field
//! ordinals. An edge carries nothing but its two endpoints: what it does is
//! decided by the type of the inlet it lands on.

use vstd::prelude::*;

verus! {

/// A registered node type, by registration order.
#[derive(Clone, Copy, PartialEq, Eq, Debug, Hash, PartialOrd, Ord, Structural)]
pub struct NodeTypeId(pub u32);

/// Stable authored identity of a node.
#[derive(Clone, Copy, PartialEq, Eq, Debug, Hash, PartialOrd, Ord, Structural)]
pub struct NodeId(pub u32);

/// A node: its authored identity and its type.
#[derive(Clone, Copy, PartialEq, Eq, Debug, Structural)]
pub struct GraphNode {
    /// Stable authored identity.
    pub id: NodeId,
    /// Which registered node type this is.
    pub node_type: NodeTypeId,
}

/// One end of an edge: a field ordinal and, for a `Vec` field, which element.
///
/// Addressing by `(field, index)` rather than a flat ordinal is what makes a
/// `Vec` resize local: inserting a child renumbers nothing outside that field.
#[derive(Clone, Copy, PartialEq, Eq, Debug, Hash, Structural)]
pub struct Endpoint {
    /// Ordinal within the node's fields: inlets first, then outlets.
    pub field: u16,
    /// Element within a `Vec` field. Always 0 for a non-`Vec` field.
    pub index: u16,
}

impl Endpoint {
    /// The single slot of a non-`Vec` field.
    pub fn field(field: u16) -> (e: Endpoint)
        ensures
            e == (Endpoint { field, index: 0 }),
    {
        Endpoint { field, index: 0 }
    }
}

/// The one edge: its two endpoints.
#[derive(Clone, Copy, PartialEq, Eq, Debug, Structural)]
pub struct Edge {
    /// The producing end.
    pub from: Endpoint,
    /// The consuming end.
    pub to: Endpoint,
}

} // verus!
