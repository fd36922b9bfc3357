//! The graph command set: the only way anything outside the graph writes it.
//!
//! Commands are plain data. The editor produces them and the applier runs
//! them against the graph, one at a time, reporting what each did.

use vstd::prelude::*;
use crate::edge::Port;
use crate::id::{EdgeId, NodeId};
use crate::edge::Edge;
use crate::legality::Compat;
use crate::model::{connect_verdict, edges_off_port, edges_without, orphans_of, same_nodes, with_slot, ConnectError, Graph};
use crate::node::{with_value, FieldWrite, Part, Value};
use crate::path::resolved;

verus! {

/// One edit, from the editor to the graph.
///
/// Field paths are relative to the part, exactly as an edge's are.
#[derive(Debug)]
pub enum GraphCommand {
    /// Removes a node and every edge naming it.
    Delete {
        /// The node to remove.
        node: NodeId,
    },
    /// Writes one authored inlet field.
    SetField {
        /// The node to edit.
        node: NodeId,
        /// A path relative to the node's `inlets`.
        path: String,
        /// The new value.
        value: Value,
    },
    /// Connects an outlet to an inlet.
    Connect {
        /// The producing node and a path within its `outlets`.
        src: Port,
        /// The consuming node and a path within its `inlets`.
        dst: Port,
        /// The ordering key. `0` for a non-variadic inlet.
        slot: i32,
    },
    /// Removes one edge.
    Disconnect {
        /// The edge to remove.
        edge: EdgeId,
    },
    /// Changes one edge's ordering key, reordering a variadic inlet.
    SetSlot {
        /// The edge to reorder.
        edge: EdgeId,
        /// Its new ordering key.
        slot: i32,
    },
}

/// What applying a command did.
#[derive(Clone, Debug, PartialEq)]
pub enum CommandOutcome {
    /// The command changed the graph.
    Applied,
    /// The command was valid but changed nothing: an equal write, or a slot
    /// that was already current.
    NoChange,
    /// The command named something that does not exist.
    Unknown,
    /// A connection was refused by the invariants or the legality rule.
    Refused(ConnectError),
}

/// What a command reports, decided from the graph it is applied to.
pub open spec fn outcome(g: &Graph, command: GraphCommand) -> CommandOutcome {
    match command {
        GraphCommand::Delete { node } => if g.live(node) {
            CommandOutcome::Applied
        } else {
            CommandOutcome::Unknown
        },
        GraphCommand::SetField { node, path, value } => if !g.live(node) {
            CommandOutcome::Unknown
        } else {
            match resolved(g.node(node).spec_part(Part::Inlets), Part::Inlets, path@) {
                None => CommandOutcome::Unknown,
                Some(f) => if crate::node::same_value(f.value, value) {
                    CommandOutcome::NoChange
                } else if f.value.type_id != value.type_id {
                    CommandOutcome::Unknown
                } else {
                    CommandOutcome::Applied
                },
            }
        },
        GraphCommand::Connect { src, dst, slot } => match connect_verdict(g, src, dst) {
            Err(e) => CommandOutcome::Refused(e),
            Ok(_) => CommandOutcome::Applied,
        },
        GraphCommand::Disconnect { edge } => if exists|i: int|
            0 <= i < g.spec_edges().len() && #[trigger] g.spec_edges()[i].id == edge {
            CommandOutcome::Applied
        } else {
            CommandOutcome::Unknown
        },
        GraphCommand::SetSlot { edge, slot } => if !exists|i: int|
            0 <= i < g.spec_edges().len() && #[trigger] g.spec_edges()[i].id == edge {
            CommandOutcome::Unknown
        } else if exists|i: int|
            0 <= i < g.spec_edges().len() && #[trigger] g.spec_edges()[i].id == edge && g.spec_edges()[i].slot
                != slot {
            CommandOutcome::Applied
        } else {
            CommandOutcome::NoChange
        },
    }
}

/// `after` is `before` with `command` applied, as the graph operation the
/// command names does it when it changes the graph.
pub open spec fn applied(before: &Graph, after: &Graph, command: GraphCommand) -> bool {
    match command {
        GraphCommand::Delete { node } => {
            &&& after.spec_slots() == before.spec_slots().update(
                node.spec_index() as int,
                (if node.spec_generation() == u32::MAX { 0u32 } else { (node.spec_generation() + 1) as u32 }, None),
            )
            &&& after.spec_free() == before.spec_free().push(node.spec_index())
            &&& after.spec_edges() == edges_without(before.spec_edges(), node)
            &&& after.spec_next_edge() == before.spec_next_edge()
            &&& after.spec_dirty().to_set() == before.spec_dirty().to_set().union(
                orphans_of(before.spec_edges(), node),
            ).remove(node)
            &&& after.spec_removed() == before.spec_removed().push(node)
            &&& after.spec_topology_dirty()
            &&& after.spec_order() == before.spec_order()
        },
        GraphCommand::SetField { node, path, value } => {
            let b = before.node(node);
            let a = after.node(node);
            &&& forall|x: NodeId| #[trigger] after.live(x) == before.live(x)
            &&& forall|x: NodeId| x != node && after.live(x) ==> #[trigger] after.node(x) == before.node(x)
            &&& a.spec_kind() == b.spec_kind()
            &&& a.spec_part(Part::State) == b.spec_part(Part::State)
            &&& a.spec_part(Part::Outlets) == b.spec_part(Part::Outlets)
            &&& a.spec_part(Part::Inlets) == with_value(
                b.spec_part(Part::Inlets),
                resolved(b.spec_part(Part::Inlets), Part::Inlets, path@)->Some_0.path@,
                value,
            )
            &&& after.spec_dirty().to_set() == before.spec_dirty().to_set().insert(node)
            &&& after.spec_edges() == before.spec_edges()
            &&& after.spec_next_edge() == before.spec_next_edge()
            &&& after.spec_free() == before.spec_free()
            &&& after.spec_removed() == before.spec_removed()
            &&& after.spec_topology_dirty() == before.spec_topology_dirty()
            &&& after.spec_order() == before.spec_order()
        },
        GraphCommand::Connect { src, dst, slot } => match connect_verdict(before, src, dst) {
            Err(_) => false,
            Ok((compat, valueless)) => {
                &&& exists|id: EdgeId|
                    id.spec_get() == before.spec_next_edge() && after.spec_edges() == (if compat == Compat::Variadic {
                        before.spec_edges()
                    } else {
                        edges_off_port(before.spec_edges(), dst.node, dst.path@)
                    }).push(Edge { id, src, dst, slot, compat, valueless })
                &&& after.spec_next_edge() == before.spec_next_edge() + 1
                &&& after.spec_dirty().to_set() == before.spec_dirty().to_set().insert(dst.node)
                &&& after.spec_topology_dirty()
                &&& same_nodes(after, before)
            },
        },
        GraphCommand::Disconnect { edge } => {
            &&& exists|i: int|
                0 <= i < before.spec_edges().len() && #[trigger] before.spec_edges()[i].id == edge
                    && after.spec_edges() == before.spec_edges().remove(i) && after.spec_dirty().to_set()
                    == before.spec_dirty().to_set().insert(before.spec_edges()[i].dst.node)
            &&& after.spec_topology_dirty()
            &&& after.spec_next_edge() == before.spec_next_edge()
            &&& same_nodes(after, before)
        },
        GraphCommand::SetSlot { edge, slot } => {
            &&& after.spec_edges() == with_slot(before.spec_edges(), edge, slot)
            &&& exists|i: int|
                0 <= i < before.spec_edges().len() && #[trigger] before.spec_edges()[i].id == edge
                    && after.spec_dirty().to_set() == before.spec_dirty().to_set().insert(before.spec_edges()[i].dst.node)
            &&& after.spec_topology_dirty()
            &&& after.spec_next_edge() == before.spec_next_edge()
            &&& same_nodes(after, before)
        },
    }
}

/// Applies one command and reports what it did. A command that reports
/// anything but `Applied` leaves the graph as it was.
pub fn apply_graph_command(graph: &mut Graph, command: &GraphCommand) -> (r: CommandOutcome)
    requires
        old(graph).wf(),
        old(graph).spec_next_edge() < u64::MAX,
    ensures
        final(graph).wf(),
        r == outcome(old(graph), *command),
        r != CommandOutcome::Applied ==> *final(graph) == *old(graph),
        r == CommandOutcome::Applied ==> applied(old(graph), final(graph), *command),
        *command matches GraphCommand::Delete { node } ==> !final(graph).live(node) && (r == CommandOutcome::Applied
            ==> final(graph).spec_edges() == edges_without(old(graph).spec_edges(), node)),
{
    match command {
        GraphCommand::Delete { node } => match graph.remove(*node) {
            Some(_) => CommandOutcome::Applied,
            None => CommandOutcome::Unknown,
        },
        GraphCommand::SetField { node, path, value } => match graph.set_field(*node, path.as_str(), *value) {
            FieldWrite::Written => CommandOutcome::Applied,
            FieldWrite::Unchanged => CommandOutcome::NoChange,
            FieldWrite::Rejected => CommandOutcome::Unknown,
        },
        GraphCommand::Connect { src, dst, slot } => match graph.connect(src.duplicate(), dst.duplicate(), *slot) {
            Ok(_) => CommandOutcome::Applied,
            Err(error) => CommandOutcome::Refused(error),
        },
        GraphCommand::Disconnect { edge } => {
            if graph.disconnect(*edge) {
                CommandOutcome::Applied
            } else {
                CommandOutcome::Unknown
            }
        },
        GraphCommand::SetSlot { edge, slot } => {
            if graph.edge(*edge).is_none() {
                return CommandOutcome::Unknown;
            }
            if graph.set_slot(*edge, *slot) {
                CommandOutcome::Applied
            } else {
                CommandOutcome::NoChange
            }
        },
    }
}

} // verus!
