//! Edges: `(src node, outlet path) -> (dst node, inlet path)` plus a slot.
//!
//! An edge's stored paths are relative to the part — `"frequency"`, not
//! `"inlets.frequency"`: an edge's source is always an outlet and its
//! destination always an inlet, so the prefix carries no information.

use vstd::prelude::*;
use crate::id::{EdgeId, NodeId};
use crate::legality::Compat;

verus! {

/// One end of an edge: a node and a path relative to that node's part.
#[derive(Clone, PartialEq, Eq, Hash, Debug)]
pub struct Port {
    /// The node this end names.
    pub node: NodeId,
    /// A path relative to the part. Empty addresses the whole part.
    pub path: String,
}

impl Port {
    /// Builds a port.
    pub fn new(node: NodeId, path: &str) -> (p: Port)
        ensures
            p.node == node,
            p.path@ == path@,
    {
        Port { node, path: path.to_owned() }
    }

    /// A copy of this port.
    pub fn duplicate(&self) -> (p: Port)
        ensures
            p == *self,
    {
        Port { node: self.node, path: self.path.clone() }
    }
}

/// A connection. Not a node, not a type — data in the graph.
#[derive(Clone, Debug)]
pub struct Edge {
    /// Stable identity, minted at connect and never reused.
    pub id: EdgeId,
    /// The producing node and a path within its `outlets`.
    pub src: Port,
    /// The consuming node and a path within its `inlets`.
    pub dst: Port,
    /// A sort key, not an index. Sparse keys are legal.
    pub slot: i32,
    /// How the destination accepts the source type.
    pub compat: Compat,
    /// `true` when the source value is zero-sized — a marker/protocol edge.
    pub valueless: bool,
}

impl Edge {
    /// Whether this edge produces a propagate step.
    pub fn carries_value(&self) -> (r: bool)
        ensures
            r == !self.valueless,
    {
        !self.valueless
    }

    /// The key the variadic sort uses: slot first, then the source node, then
    /// the edge id.
    pub fn sort_key(&self) -> (r: (i32, NodeId, EdgeId))
        ensures
            r == (self.slot, self.src.node, self.id),
    {
        (self.slot, self.src.node, self.id)
    }

    /// A copy of this edge.
    pub fn duplicate(&self) -> (e: Edge)
        ensures
            e == *self,
    {
        Edge {
            id: self.id,
            src: self.src.duplicate(),
            dst: self.dst.duplicate(),
            slot: self.slot,
            compat: self.compat,
            valueless: self.valueless,
        }
    }
}

/// Strict order of the variadic sort key `(slot, src node, edge id)`.
pub open spec fn sort_key_lt(a: Edge, b: Edge) -> bool {
    a.slot < b.slot || (a.slot == b.slot && (a.src.node.key() < b.src.node.key() || (a.src.node == b.src.node
        && a.id.spec_get() < b.id.spec_get())))
}

} // verus!
