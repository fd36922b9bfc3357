//! The graph itself: nodes, edges, the dirty set and the invariants.
//!
//! Nodes live in a vector of slots addressed by generational index. Removing
//! a node bumps its slot's generation, so the removed id stops resolving even
//! after the slot is reused. Every mutation goes through the graph's own
//! operations, each of which keeps [`Graph::wf`].

use vstd::prelude::*;
use crate::edge::{sort_key_lt, Edge, Port};
use crate::id::{lemma_mk, EdgeId, NodeId};
use crate::idset::{ascending, insert_sorted, remove_sorted};
use crate::legality::{compatibility, spec_compatibility, Compat, TypeDesc};
use crate::node::{lookup, FieldWrite, Node, Part, Value};
use crate::order::{is_plan, rebuild, EvalOrder};
use crate::path::{find_resolved, resolve, resolved};
use vstd::pervasive::VecAdditionalExecFns;

verus! {

broadcast use lemma_mk;

/// Why a connection was refused.
///
/// Every variant is discovered without evaluating anything: the graph holds
/// the type at every path, so the types at both ends are known the moment the
/// connection is attempted.
#[derive(Clone, Debug, PartialEq, Eq)]
pub enum ConnectError {
    /// A node may not drive itself.
    SelfConnection,
    /// One of the two nodes does not exist (or the id is stale).
    MissingNode(NodeId),
    /// The source path does not resolve within the producer's `outlets`.
    MissingSourcePath,
    /// The destination path does not resolve within the consumer's `inlets`.
    MissingDestinationPath,
    /// Neither `D == S`, `D == Option<S>` nor `D == Vec<S>` holds.
    IncompatibleTypes {
        /// The type path at the source.
        src: String,
        /// The type path at the destination.
        dst: String,
    },
    /// A value at one of the paths has no static type.
    UntypedValue,
}

struct Slot {
    generation: u32,
    node: Option<Node>,
}

/// The authored model: nodes and edges and nothing else.
pub struct Graph {
    slots: Vec<Slot>,
    free: Vec<u32>,
    edges: Vec<Edge>,
    next_edge: u64,
    dirty: Vec<NodeId>,
    removed: Vec<NodeId>,
    topology_dirty: bool,
    order: EvalOrder,
}

/// Node `x` is left on the other end of edge `e` when `e`'s other end, `id`,
/// is deleted.
pub open spec fn orphaned_by(e: Edge, id: NodeId, x: NodeId) -> bool {
    (e.src.node == id && e.dst.node != id && e.dst.node == x) || (e.dst.node == id && e.src.node != id
        && e.src.node == x)
}

/// Every node left on the other end of an edge of `edges` that names `id`.
pub open spec fn orphans_of(edges: Seq<Edge>, id: NodeId) -> Set<NodeId> {
    Set::new(|x: NodeId| exists|i: int| 0 <= i < edges.len() && orphaned_by(#[trigger] edges[i], id, x))
}

/// The edges of `edges` that do not name `id` at either end.
pub open spec fn edges_without(edges: Seq<Edge>, id: NodeId) -> Seq<Edge> {
    edges.filter(|e: Edge| e.src.node != id && e.dst.node != id)
}

/// The edges of `edges` that do not land on the port `(node, path)`.
pub open spec fn edges_off_port(edges: Seq<Edge>, node: NodeId, path: Seq<char>) -> Seq<Edge> {
    edges.filter(|x: Edge| !on_port(x, node, path))
}

/// What `connect` decides from the two ports alone: the refusal, or the
/// compatibility and whether the source is valueless.
pub open spec fn connect_verdict(g: &Graph, src: Port, dst: Port) -> Result<(Compat, bool), ConnectError> {
    if src.node == dst.node {
        Err(ConnectError::SelfConnection)
    } else if !g.live(src.node) {
        Err(ConnectError::MissingNode(src.node))
    } else if !g.live(dst.node) {
        Err(ConnectError::MissingNode(dst.node))
    } else {
        match resolved(g.node(src.node).spec_part(Part::Outlets), Part::Outlets, src.path@) {
            None => Err(ConnectError::MissingSourcePath),
            Some(sf) => match sf.ty {
                None => Err(ConnectError::UntypedValue),
                Some(st) => match resolved(g.node(dst.node).spec_part(Part::Inlets), Part::Inlets, dst.path@) {
                    None => Err(ConnectError::MissingDestinationPath),
                    Some(df) => match df.ty {
                        None => Err(ConnectError::UntypedValue),
                        Some(dt) => match spec_compatibility(st, dt) {
                            None => Err(ConnectError::IncompatibleTypes { src: st.path, dst: dt.path }),
                            Some(c) => Ok((c, st.zero_sized)),
                        },
                    },
                },
            },
        }
    }
}

/// The graph's state apart from its edges, edge counter and dirty set is
/// the same in `a` and `b`.
pub open spec fn same_nodes(a: &Graph, b: &Graph) -> bool {
    &&& a.spec_slots() == b.spec_slots()
    &&& a.spec_free() == b.spec_free()
    &&& a.spec_removed() == b.spec_removed()
    &&& a.spec_order() == b.spec_order()
}

/// `edges` with the slot of edge `id` set to `slot`.
pub open spec fn with_slot(edges: Seq<Edge>, id: EdgeId, slot: i32) -> Seq<Edge> {
    edges.map_values(|e: Edge| if e.id == id { Edge { slot, ..e } } else { e })
}

impl Graph {
    /// The slots: per index, its generation and the node it holds, if any.
    pub closed spec fn spec_slots(&self) -> Seq<(u32, Option<Node>)> {
        self.slots@.map_values(|s: Slot| (s.generation, s.node))
    }

    /// Freed slot indices, the last one reused first.
    pub closed spec fn spec_free(&self) -> Seq<u32> {
        self.free@
    }

    /// Every edge, in creation order.
    pub closed spec fn spec_edges(&self) -> Seq<Edge> {
        self.edges@
    }

    /// The counter the next edge id is minted from.
    pub closed spec fn spec_next_edge(&self) -> u64 {
        self.next_edge
    }

    /// The counter the next edge id is minted from.
    pub fn next_edge(&self) -> (r: u64)
        ensures
            r == self.spec_next_edge(),
    {
        self.next_edge
    }

    /// Nodes changed since a consumer last drained, ascending.
    pub closed spec fn spec_dirty(&self) -> Seq<NodeId> {
        self.dirty@
    }

    /// Nodes deleted since a consumer last drained, in deletion order.
    pub closed spec fn spec_removed(&self) -> Seq<NodeId> {
        self.removed@
    }

    /// Whether the shape changed since the last rebuild.
    pub closed spec fn spec_topology_dirty(&self) -> bool {
        self.topology_dirty
    }

    /// The evaluation plan of the last rebuild.
    pub closed spec fn spec_order(&self) -> EvalOrder {
        self.order
    }

    /// Whether `id` names a live node.
    pub open spec fn live(&self, id: NodeId) -> bool {
        let s = self.spec_slots();
        let i = id.spec_index() as int;
        i < s.len() && s[i].0 == id.spec_generation() && s[i].1 is Some
    }

    /// The node `id` names (meaningful when it is live).
    pub open spec fn node(&self, id: NodeId) -> Node {
        self.spec_slots()[id.spec_index() as int].1->0
    }

    /// The id the next insertion mints: the last freed slot at its current
    /// generation, or a fresh slot at generation 0.
    pub open spec fn next_id(&self) -> NodeId {
        let f = self.spec_free();
        if f.len() > 0 {
            NodeId::mk(f.last(), self.spec_slots()[f.last() as int].0)
        } else {
            NodeId::mk(self.spec_slots().len() as u32, 0)
        }
    }

    /// Every live node's id, in ascending order.
    pub open spec fn live_ids(&self) -> Seq<NodeId> {
        Seq::new(self.spec_slots().len(), |i: int| NodeId::mk(i as u32, self.spec_slots()[i].0)).filter(
            |id: NodeId| self.live(id),
        )
    }

    /// Whether one more node has an index to take.
    pub open spec fn can_insert(&self) -> bool {
        self.spec_free().len() > 0 || self.spec_slots().len() <= u32::MAX
    }

    /// The slot bookkeeping is coherent: every freed index names an empty
    /// slot and is freed once, and every node is well formed.
    pub open spec fn slots_wf(&self) -> bool {
        let s = self.spec_slots();
        let f = self.spec_free();
        &&& s.len() <= u32::MAX + 1
        &&& forall|i: int| 0 <= i < f.len() ==> (f[i] as int) < s.len() && s[f[i] as int].1 is None
        &&& f.no_duplicates()
        &&& forall|i: int| 0 <= i < s.len() ==> (#[trigger] s[i].1 matches Some(n) ==> n.wf())
    }

    /// Every edge names two distinct live nodes, and edge ids ascend in
    /// creation order below the counter.
    pub open spec fn edges_wf(&self) -> bool {
        let es = self.spec_edges();
        &&& forall|i: int| 0 <= i < es.len() ==> self.live(#[trigger] es[i].src.node) && self.live(es[i].dst.node)
            && es[i].src.node != es[i].dst.node
        &&& forall|i: int, j: int| 0 <= i < j < es.len() ==> es[i].id.spec_get() < es[j].id.spec_get()
        &&& forall|i: int| 0 <= i < es.len() ==> #[trigger] es[i].id.spec_get() < self.spec_next_edge()
    }

    /// The dirty set ascends and names only live nodes.
    pub open spec fn dirty_wf(&self) -> bool {
        &&& ascending(self.spec_dirty())
        &&& forall|i: int| 0 <= i < self.spec_dirty().len() ==> self.live(#[trigger] self.spec_dirty()[i])
    }

    /// The graph's invariant.
    pub open spec fn wf(&self) -> bool {
        &&& self.slots_wf()
        &&& self.edges_wf()
        &&& self.dirty_wf()
    }

    /// An empty graph whose topology is marked for a first rebuild.
    pub fn new() -> (g: Graph)
        ensures
            g.wf(),
            g.spec_slots().len() == 0,
            g.spec_free().len() == 0,
            g.spec_edges().len() == 0,
            g.spec_next_edge() == 0,
            g.spec_dirty().len() == 0,
            g.spec_removed().len() == 0,
            g.spec_topology_dirty(),
            g.spec_order().steps@.len() == 0,
            g.spec_order().order@.len() == 0,
            g.spec_order().cycles@.len() == 0,
    {
        let g = Graph {
            slots: Vec::new(),
            free: Vec::new(),
            edges: Vec::new(),
            next_edge: 0,
            dirty: Vec::new(),
            removed: Vec::new(),
            topology_dirty: true,
            order: EvalOrder::empty(),
        };
        assert(g.spec_slots() =~= Seq::empty());
        g
    }

    /// Whether `id` names a live node.
    pub fn contains(&self, id: NodeId) -> (r: bool)
        ensures
            r == self.live(id),
    {
        let i = id.index() as usize;
        if i >= self.slots.len() {
            return false;
        }
        let slot = &self.slots[i];
        slot.generation == id.generation() && slot.node.is_some()
    }

    /// The node `id` names, if it is live.
    pub fn get(&self, id: NodeId) -> (r: Option<&Node>)
        ensures
            r is Some <==> self.live(id),
            r matches Some(n) ==> *n == self.node(id),
    {
        let i = id.index() as usize;
        if i >= self.slots.len() {
            return None;
        }
        let slot = &self.slots[i];
        if slot.generation != id.generation() {
            return None;
        }
        match &slot.node {
            Some(n) => Some(n),
            None => None,
        }
    }

    /// How many live nodes there are.
    pub fn len(&self) -> (r: usize)
        ensures
            r == self.spec_slots().filter(|s: (u32, Option<Node>)| s.1 is Some).len(),
    {
        let mut count: usize = 0;
        let mut i: usize = 0;
        while i < self.slots.len()
            invariant
                i <= self.slots@.len(),
                count <= i,
                count == self.spec_slots().subrange(0, i as int).filter(|s: (u32, Option<Node>)| s.1 is Some).len(),
            decreases self.slots@.len() - i,
        {
            proof {
                let pred = |s: (u32, Option<Node>)| s.1 is Some;
                assert(self.spec_slots().subrange(0, i + 1) =~= self.spec_slots().subrange(0, i as int).push(self.spec_slots()[i as int]));
                self.spec_slots().subrange(0, i as int).lemma_filter_push(self.spec_slots()[i as int], pred);
            }
            if self.slots[i].node.is_some() {
                count = count + 1;
            }
            i = i + 1;
        }
        assert(self.spec_slots().subrange(0, i as int) =~= self.spec_slots());
        count
    }

    /// Whether the graph holds no nodes.
    pub fn is_empty(&self) -> (r: bool)
        ensures
            r == (self.spec_slots().filter(|s: (u32, Option<Node>)| s.1 is Some).len() == 0),
    {
        self.len() == 0
    }

    /// Adds a node and mints its id. The node is dirty and the topology is
    /// marked for rebuild.
    pub fn insert(&mut self, node: Node) -> (id: NodeId)
        requires
            old(self).wf(),
            old(self).can_insert(),
            node.wf(),
        ensures
            final(self).wf(),
            id == old(self).next_id(),
            !old(self).live(id),
            final(self).live(id),
            final(self).node(id) == node,
            old(self).spec_free().len() > 0 ==> final(self).spec_slots() == old(self).spec_slots().update(
                id.spec_index() as int,
                (id.spec_generation(), Some(node)),
            ) && final(self).spec_free() == old(self).spec_free().drop_last(),
            old(self).spec_free().len() == 0 ==> final(self).spec_slots() == old(self).spec_slots().push(
                (0u32, Some(node)),
            ) && final(self).spec_free() == old(self).spec_free(),
            forall|x: NodeId| x != id ==> (#[trigger] final(self).live(x) == old(self).live(x)) && (old(self).live(x)
                ==> final(self).node(x) == old(self).node(x)),
            final(self).spec_edges() == old(self).spec_edges(),
            final(self).spec_next_edge() == old(self).spec_next_edge(),
            final(self).spec_dirty().to_set() == old(self).spec_dirty().to_set().insert(id),
            final(self).spec_removed() == old(self).spec_removed(),
            final(self).spec_topology_dirty(),
            final(self).spec_order() == old(self).spec_order(),
    {
        let ghost before = self.spec_slots();
        let id;
        if self.free.len() > 0 {
            let index = self.free.pop().unwrap();
            proof {
                assert(old(self).spec_free().last() == index);
                assert(before[index as int].1 is None);
            }
            let generation = self.slots[index as usize].generation;
            self.slots.set(index as usize, Slot { generation, node: Some(node) });
            id = NodeId::new(index, generation);
            proof {
                assert(self.spec_slots() =~= before.update(index as int, (generation, Some(node))));
                assert(self.free@ =~= old(self).free@.drop_last());
                assert forall|i: int| 0 <= i < self.free@.len() implies (self.free@[i] as int) < self.spec_slots().len()
                    && self.spec_slots()[self.free@[i] as int].1 is None by {
                    assert(old(self).free@[i] == self.free@[i]);
                    assert(self.free@[i] != index) by {
                        let j = old(self).free@.len() - 1;
                        assert(old(self).free@[j] == index);
                    }
                }
            }
        } else {
            let index = self.slots.len() as u32;
            self.slots.push(Slot { generation: 0, node: Some(node) });
            id = NodeId::new(index, 0);
            proof {
                assert(self.spec_slots() =~= before.push((0u32, Some(node))));
            }
        }
        insert_sorted(&mut self.dirty, id);
        self.topology_dirty = true;
        proof {
            assert forall|x: NodeId| x != id implies (#[trigger] self.live(x) == old(self).live(x)) && (old(self).live(x)
                ==> self.node(x) == old(self).node(x)) by {
                crate::id::lemma_node_id_eq(x, id);
                let s0 = old(self).spec_slots();
                let s1 = self.spec_slots();
                let i = x.spec_index() as int;
                if i == id.spec_index() as int {
                    assert(s1[i].0 == id.spec_generation());
                    assert(!old(self).live(x));
                    assert(!self.live(x));
                } else {
                    assert(i < s1.len() ==> s1[i] == s0[i]);
                    assert(i < s0.len() <==> i < s1.len());
                }
            }
        }
        proof {
            assert forall|i: int| 0 <= i < self.spec_dirty().len() implies self.live(#[trigger] self.spec_dirty()[i]) by {
                let x = self.spec_dirty()[i];
                assert(self.spec_dirty().to_set().contains(x));
                if x != id {
                    assert(old(self).spec_dirty().to_set().contains(x));
                    let k = choose|k: int| 0 <= k < old(self).spec_dirty().len() && old(self).spec_dirty()[k] == x;
                    assert(old(self).live(old(self).spec_dirty()[k]));
                }
            }
            assert forall|i: int| 0 <= i < self.spec_edges().len() implies self.live(#[trigger] self.spec_edges()[i].src.node)
                && self.live(self.spec_edges()[i].dst.node) by {
                assert(old(self).live(old(self).spec_edges()[i].src.node));
                assert(old(self).live(old(self).spec_edges()[i].dst.node));
            }
            assert(self.slots_wf());
            assert(self.edges_wf());
            assert(self.dirty_wf());
        }
        id
    }

    /// Removes a node and every edge naming it, in either direction, so the
    /// graph never holds an edge naming a node that does not exist.
    ///
    /// Every node left on the other end of a dropped edge is dirtied; the
    /// removed node leaves the dirty set and is recorded as removed. Bumping
    /// the slot's generation is what makes the removed id stop resolving.
    pub fn remove(&mut self, id: NodeId) -> (r: Option<Node>)
        requires
            old(self).wf(),
        ensures
            final(self).wf(),
            !old(self).live(id) ==> r is None && *final(self) == *old(self),
            old(self).live(id) ==> {
                &&& r == Some(old(self).node(id))
                &&& final(self).spec_slots() == old(self).spec_slots().update(
                    id.spec_index() as int,
                    (if id.spec_generation() == u32::MAX { 0u32 } else { (id.spec_generation() + 1) as u32 }, None),
                )
                &&& final(self).spec_free() == old(self).spec_free().push(id.spec_index())
                &&& final(self).spec_edges() == edges_without(old(self).spec_edges(), id)
                &&& final(self).spec_next_edge() == old(self).spec_next_edge()
                &&& final(self).spec_dirty().to_set() == old(self).spec_dirty().to_set().union(
                    orphans_of(old(self).spec_edges(), id),
                ).remove(id)
                &&& final(self).spec_removed() == old(self).spec_removed().push(id)
                &&& final(self).spec_topology_dirty()
                &&& final(self).spec_order() == old(self).spec_order()
            },
            forall|x: NodeId| #[trigger] final(self).live(x) == (old(self).live(x) && x != id),
            forall|x: NodeId| final(self).live(x) ==> #[trigger] final(self).node(x) == old(self).node(x),
    {
        if !self.contains(id) {
            return None;
        }
        let index = id.index() as usize;
        let ghost old_dirty = self.spec_dirty().to_set();
        let ghost es = self.spec_edges();

        // Every node on the other end of a dropped edge has changed.
        let mut i: usize = 0;
        while i < self.edges.len()
            invariant
                self.wf(),
                old(self).wf(),
                self.spec_edges() == es,
                es == old(self).spec_edges(),
                self.spec_slots() == old(self).spec_slots(),
                self.free@ == old(self).free@,
                self.removed@ == old(self).removed@,
                self.next_edge == old(self).next_edge,
                self.order == old(self).order,
                old_dirty == old(self).spec_dirty().to_set(),
                old(self).live(id),
                i <= es.len(),
                ascending(self.spec_dirty()),
                self.spec_dirty().to_set() == old_dirty.union(orphans_of(es.subrange(0, i as int), id)),
            decreases es.len() - i,
        {
            let e = &self.edges[i];
            let ghost before = self.spec_dirty().to_set();
            if e.src.node.same(id) && !e.dst.node.same(id) {
                let other = e.dst.node;
                insert_sorted(&mut self.dirty, other);
            } else if e.dst.node.same(id) && !e.src.node.same(id) {
                let other = e.src.node;
                insert_sorted(&mut self.dirty, other);
            }
            proof {
                let pre = es.subrange(0, i as int);
                let post = es.subrange(0, i + 1);
                assert forall|x: NodeId| #[trigger] orphans_of(post, id).contains(x) == (orphans_of(pre, id).contains(x)
                    || orphaned_by(es[i as int], id, x)) by {
                    if orphans_of(post, id).contains(x) {
                        let k = choose|k: int| 0 <= k < post.len() && orphaned_by(#[trigger] post[k], id, x);
                        if k < i {
                            assert(pre[k] == post[k]);
                        }
                    }
                    if orphans_of(pre, id).contains(x) {
                        let k = choose|k: int| 0 <= k < pre.len() && orphaned_by(#[trigger] pre[k], id, x);
                        assert(post[k] == pre[k]);
                    }
                    if orphaned_by(es[i as int], id, x) {
                        assert(post[i as int] == es[i as int]);
                    }
                }
                assert(self.spec_dirty().to_set() =~= old_dirty.union(orphans_of(post, id)));
                assert forall|k: int| 0 <= k < self.spec_dirty().len() implies self.live(#[trigger] self.spec_dirty()[k]) by {
                    let x = self.spec_dirty()[k];
                    assert(self.spec_dirty().to_set().contains(x));
                    if old_dirty.contains(x) {
                        let j = choose|j: int| 0 <= j < old(self).spec_dirty().len() && old(self).spec_dirty()[j] == x;
                        assert(old(self).live(old(self).spec_dirty()[j]));
                    } else {
                        let j = choose|j: int| 0 <= j < post.len() && orphaned_by(#[trigger] post[j], id, x);
                        assert(post[j] == es[j]);
                        assert(old(self).live(es[j].src.node));
                    }
                }
            }
            i = i + 1;
        }
        proof {
            assert(es.subrange(0, es.len() as int) =~= es);
        }

        // Drop every edge naming the node.
        let ghost pred = |e: Edge| e.src.node != id && e.dst.node != id;
        let mut kept: Vec<Edge> = Vec::new();
        let mut j: usize = 0;
        while j < self.edges.len()
            invariant
                self.spec_edges() == es,
                old(self).wf(),
                es == old(self).spec_edges(),
                j <= es.len(),
                pred == (|e: Edge| e.src.node != id && e.dst.node != id),
                kept@ == es.subrange(0, j as int).filter(pred),
                forall|a: int| #![trigger kept@[a]] 0 <= a < kept@.len() ==> exists|b: int| #![trigger es[b]] 0 <= b < j && kept@[a] == es[b],
                forall|a: int, b: int| 0 <= a < b < kept@.len() ==> kept@[a].id.spec_get() < kept@[b].id.spec_get(),
            decreases es.len() - j,
        {
            let e = &self.edges[j];
            proof {
                assert(es.subrange(0, j + 1) =~= es.subrange(0, j as int).push(es[j as int]));
                es.subrange(0, j as int).lemma_filter_push(es[j as int], pred);
            }
            if !e.src.node.same(id) && !e.dst.node.same(id) {
                let ghost before = kept@;
                kept.push(e.duplicate());
                proof {
                    assert forall|a: int| #![trigger kept@[a]] 0 <= a < kept@.len() implies exists|b: int| #![trigger es[b]] 0 <= b < j + 1 && kept@[a] == es[b] by {
                        if a < before.len() {
                            let b = choose|b: int| 0 <= b < j && before[a] == #[trigger] es[b];
                            assert(kept@[a] == es[b]);
                        } else {
                            assert(kept@[a] == es[j as int]);
                        }
                    }
                    assert forall|a: int, b: int| 0 <= a < b < kept@.len() implies kept@[a].id.spec_get() < kept@[b].id.spec_get() by {
                        if b == before.len() {
                            let c = choose|c: int| 0 <= c < j && before[a] == #[trigger] es[c];
                            assert(es[c].id.spec_get() < es[j as int].id.spec_get());
                        }
                    }
                }
            }
            j = j + 1;
        }
        proof {
            assert(es.subrange(0, es.len() as int) =~= es);
        }
        self.edges = kept;

        remove_sorted(&mut self.dirty, id);

        let generation = if id.generation() == u32::MAX { 0u32 } else { id.generation() + 1 };
        let ghost slots_before = self.spec_slots();
        let mut taken = Slot { generation, node: None };
        self.slots.set_and_swap(index, &mut taken);
        self.free.push(id.index());
        self.removed.push(id);
        self.topology_dirty = true;
        proof {
            assert(self.spec_slots() =~= slots_before.update(index as int, (generation, None)));
            assert(slots_before == old(self).spec_slots());
            assert forall|x: NodeId| #[trigger] self.live(x) == (old(self).live(x) && x != id) by {
                crate::id::lemma_node_id_eq(x, id);
            }
            assert forall|x: NodeId| self.live(x) implies #[trigger] self.node(x) == old(self).node(x) by {
                crate::id::lemma_node_id_eq(x, id);
            }
            // slots_wf
            assert forall|k: int| 0 <= k < self.free@.len() implies (self.free@[k] as int) < self.spec_slots().len()
                && self.spec_slots()[self.free@[k] as int].1 is None by {
                if k < old(self).free@.len() {
                    assert(self.free@[k] == old(self).free@[k]);
                }
            }
            assert(self.free@.no_duplicates()) by {
                assert forall|a: int, b: int| 0 <= a < b < self.free@.len() implies self.free@[a] != self.free@[b] by {
                    if b == self.free@.len() - 1 {
                        assert(old(self).spec_slots()[old(self).free@[a] as int].1 is None);
                    } else {
                        assert(old(self).free@[a] == self.free@[a]);
                        assert(old(self).free@[b] == self.free@[b]);
                    }
                }
            }
            assert(self.slots_wf());
            // edges_wf
            assert forall|k: int| 0 <= k < self.spec_edges().len() implies self.live(#[trigger] self.spec_edges()[k].src.node)
                && self.live(self.spec_edges()[k].dst.node) && self.spec_edges()[k].src.node != self.spec_edges()[k].dst.node by {
                let e = self.spec_edges()[k];
                es.lemma_filter_pred(pred, k);
                let b = choose|b: int| 0 <= b < es.len() && e == #[trigger] es[b];
                assert(old(self).live(es[b].src.node));
            }
            assert forall|k: int| 0 <= k < self.spec_edges().len() implies #[trigger] self.spec_edges()[k].id.spec_get() < self.spec_next_edge() by {
                let b = choose|b: int| 0 <= b < es.len() && self.spec_edges()[k] == #[trigger] es[b];
            }
            assert(self.edges_wf());
            // dirty_wf
            assert forall|k: int| 0 <= k < self.spec_dirty().len() implies self.live(#[trigger] self.spec_dirty()[k]) by {
                let x = self.spec_dirty()[k];
                assert(self.spec_dirty().to_set().contains(x));
                assert(x != id);
                if old_dirty.contains(x) {
                    let j = choose|j: int| 0 <= j < old(self).spec_dirty().len() && old(self).spec_dirty()[j] == x;
                    assert(old(self).live(old(self).spec_dirty()[j]));
                } else {
                    let j = choose|j: int| 0 <= j < es.len() && orphaned_by(#[trigger] es[j], id, x);
                    assert(old(self).live(es[j].src.node));
                }
            }
            assert(self.dirty_wf());
        }
        taken.node
    }

    /// Copies the edges of `self.edges` that satisfy `keep`: used by every
    /// operation that drops edges.
    fn edges_except_port(&self, node: NodeId, path: &String) -> (kept: Vec<Edge>)
        requires
            self.edges_wf(),
        ensures
            kept@ == edges_off_port(self.spec_edges(), node, path@),
            forall|a: int| 0 <= a < kept@.len() ==> self.spec_edges().contains(#[trigger] kept@[a]),
            forall|a: int, b: int| 0 <= a < b < kept@.len() ==> kept@[a].id.spec_get() < kept@[b].id.spec_get(),
    {
        let ghost es = self.spec_edges();
        let ghost pred = |x: Edge| !on_port(x, node, path@);
        let ghost mut origin: Seq<int> = Seq::empty();
        let mut kept: Vec<Edge> = Vec::new();
        let mut j: usize = 0;
        while j < self.edges.len()
            invariant
                self.edges_wf(),
                self.spec_edges() == es,
                j <= es.len(),
                pred == (|x: Edge| !on_port(x, node, path@)),
                kept@ == es.subrange(0, j as int).filter(pred),
                origin.len() == kept@.len(),
                forall|a: int| 0 <= a < kept@.len() ==> 0 <= #[trigger] origin[a] < j && kept@[a] == es[origin[a]],
                forall|a: int, b: int| 0 <= a < b < kept@.len() ==> origin[a] < origin[b],
            decreases es.len() - j,
        {
            let e = &self.edges[j];
            proof {
                assert(es.subrange(0, j + 1) =~= es.subrange(0, j as int).push(es[j as int]));
                es.subrange(0, j as int).lemma_filter_push(es[j as int], pred);
            }
            if !(e.dst.node.same(node) && e.dst.path == *path) {
                kept.push(e.duplicate());
                proof {
                    origin = origin.push(j as int);
                }
            }
            j = j + 1;
        }
        proof {
            assert(es.subrange(0, es.len() as int) =~= es);
            assert forall|a: int| 0 <= a < kept@.len() implies self.spec_edges().contains(#[trigger] kept@[a]) by {
                assert(kept@[a] == self.spec_edges()[origin[a]]);
            }
            assert forall|a: int, b: int| 0 <= a < b < kept@.len() implies kept@[a].id.spec_get() < kept@[b].id.spec_get() by {
                assert(kept@[a] == es[origin[a]]);
                assert(kept@[b] == es[origin[b]]);
            }
        }
        kept
    }

    /// Connects an outlet to an inlet, enforcing every invariant of the edge
    /// set.
    ///
    /// Legality is decided here, from the types at the two paths — nothing is
    /// evaluated to discover a refusal. A single-connection inlet is
    /// replaced, not doubled; a variadic inlet accumulates. The destination
    /// is dirtied and the topology marked for rebuild.
    #[verifier::spinoff_prover]
    #[verifier::rlimit(40)]
    pub fn connect(&mut self, src: Port, dst: Port, slot: i32) -> (r: Result<EdgeId, ConnectError>)
        requires
            old(self).wf(),
            old(self).spec_next_edge() < u64::MAX,
        ensures
            final(self).wf(),
            match connect_verdict(old(self), src, dst) {
                Err(e) => r == Err::<EdgeId, ConnectError>(e) && *final(self) == *old(self),
                Ok((compat, valueless)) => {
                    &&& r matches Ok(id) && id.spec_get() == old(self).spec_next_edge()
                    &&& final(self).spec_edges() == (if compat == Compat::Variadic {
                        old(self).spec_edges()
                    } else {
                        edges_off_port(old(self).spec_edges(), dst.node, dst.path@)
                    }).push(Edge { id: r->Ok_0, src, dst, slot, compat, valueless })
                    &&& final(self).spec_next_edge() == old(self).spec_next_edge() + 1
                    &&& final(self).spec_dirty().to_set() == old(self).spec_dirty().to_set().insert(dst.node)
                    &&& final(self).spec_topology_dirty()
                    &&& same_nodes(final(self), old(self))
                },
            },
    {
        if src.node.same(dst.node) {
            return Err(ConnectError::SelfConnection);
        }
        let src_node = match self.get(src.node) {
            None => return Err(ConnectError::MissingNode(src.node)),
            Some(n) => n,
        };
        let dst_node = match self.get(dst.node) {
            None => return Err(ConnectError::MissingNode(dst.node)),
            Some(n) => n,
        };
        let src_field = match resolve(src_node, Part::Outlets, src.path.as_str()) {
            None => return Err(ConnectError::MissingSourcePath),
            Some(f) => f,
        };
        let src_ty = match &src_field.ty {
            None => return Err(ConnectError::UntypedValue),
            Some(t) => t,
        };
        let valueless = crate::legality::is_valueless(src_ty);
        let dst_field = match resolve(dst_node, Part::Inlets, dst.path.as_str()) {
            None => return Err(ConnectError::MissingDestinationPath),
            Some(f) => f,
        };
        let dst_ty = match &dst_field.ty {
            None => return Err(ConnectError::UntypedValue),
            Some(t) => t,
        };
        let compat = match compatibility(src_ty, dst_ty) {
            None => {
                return Err(ConnectError::IncompatibleTypes { src: src_ty.path.clone(), dst: dst_ty.path.clone() });
            },
            Some(c) => c,
        };
        let ghost base = if compat == Compat::Variadic {
            old(self).spec_edges()
        } else {
            edges_off_port(old(self).spec_edges(), dst.node, dst.path@)
        };
        if compat != Compat::Variadic {
            let kept = self.edges_except_port(dst.node, &dst.path);
            self.edges = kept;
        }
        let id = EdgeId::new(self.next_edge);
        self.next_edge = self.next_edge + 1;
        let dst_node_id = dst.node;
        let ghost new_edge = Edge { id, src, dst, slot, compat, valueless };
        self.edges.push(Edge { id, src, dst, slot, compat, valueless });
        insert_sorted(&mut self.dirty, dst_node_id);
        self.topology_dirty = true;
        proof {
            assert(self.spec_edges() == base.push(new_edge));
            crate::id::lemma_edge_id_eq(id, id);
            assert forall|k: int| 0 <= k < self.spec_edges().len() implies self.live(#[trigger] self.spec_edges()[k].src.node)
                && self.live(self.spec_edges()[k].dst.node) && self.spec_edges()[k].src.node != self.spec_edges()[k].dst.node by {
                if k < base.len() {
                    if compat != Compat::Variadic {
                        assert(old(self).spec_edges().contains(base[k]));
                        let b = choose|b: int| 0 <= b < old(self).spec_edges().len() && old(self).spec_edges()[b] == base[k];
                        assert(old(self).live(old(self).spec_edges()[b].src.node));
                    } else {
                        assert(old(self).live(old(self).spec_edges()[k].src.node));
                    }
                }
            }
            assert forall|a: int, b: int| 0 <= a < b < self.spec_edges().len() implies self.spec_edges()[a].id.spec_get()
                < self.spec_edges()[b].id.spec_get() by {
                if b == base.len() {
                    if compat != Compat::Variadic {
                        assert(old(self).spec_edges().contains(base[a]));
                        let c = choose|c: int| 0 <= c < old(self).spec_edges().len() && old(self).spec_edges()[c] == base[a];
                        assert(old(self).spec_edges()[c].id.spec_get() < old(self).spec_next_edge());
                    } else {
                        assert(old(self).spec_edges()[a].id.spec_get() < old(self).spec_next_edge());
                    }
                }
            }
            assert forall|k: int| 0 <= k < self.spec_edges().len() implies #[trigger] self.spec_edges()[k].id.spec_get()
                < self.spec_next_edge() by {
                if k < base.len() {
                    if compat != Compat::Variadic {
                        assert(old(self).spec_edges().contains(base[k]));
                        let c = choose|c: int| 0 <= c < old(self).spec_edges().len() && old(self).spec_edges()[c] == base[k];
                        assert(old(self).spec_edges()[c].id.spec_get() < old(self).spec_next_edge());
                    } else {
                        assert(old(self).spec_edges()[k].id.spec_get() < old(self).spec_next_edge());
                    }
                }
            }
            assert forall|k: int| 0 <= k < self.spec_dirty().len() implies self.live(#[trigger] self.spec_dirty()[k]) by {
                let x = self.spec_dirty()[k];
                assert(self.spec_dirty().to_set().contains(x));
                if x != dst_node_id {
                    let j = choose|j: int| 0 <= j < old(self).spec_dirty().len() && old(self).spec_dirty()[j] == x;
                    assert(old(self).live(old(self).spec_dirty()[j]));
                }
            }
        }
        Ok(id)
    }

    /// The position of edge `id`, if it exists.
    fn edge_position(&self, id: EdgeId) -> (r: Option<usize>)
        ensures
            match r {
                None => forall|i: int| 0 <= i < self.spec_edges().len() ==> #[trigger] self.spec_edges()[i].id != id,
                Some(p) => p < self.spec_edges().len() && self.spec_edges()[p as int].id == id,
            },
    {
        let mut i: usize = 0;
        while i < self.edges.len()
            invariant
                i <= self.spec_edges().len(),
                forall|k: int| 0 <= k < i ==> #[trigger] self.spec_edges()[k].id != id,
            decreases self.spec_edges().len() - i,
        {
            if self.edges[i].id.same(id) {
                return Some(i);
            }
            i = i + 1;
        }
        None
    }

    /// Removes one edge. `true` when it existed; its destination is then
    /// dirtied and the topology marked for rebuild.
    pub fn disconnect(&mut self, id: EdgeId) -> (r: bool)
        requires
            old(self).wf(),
        ensures
            final(self).wf(),
            r == exists|i: int| 0 <= i < old(self).spec_edges().len() && #[trigger] old(self).spec_edges()[i].id == id,
            !r ==> *final(self) == *old(self),
            forall|i: int| 0 <= i < old(self).spec_edges().len() && #[trigger] old(self).spec_edges()[i].id == id ==> {
                &&& final(self).spec_edges() == old(self).spec_edges().remove(i)
                &&& final(self).spec_dirty().to_set() == old(self).spec_dirty().to_set().insert(old(self).spec_edges()[i].dst.node)
            },
            r ==> final(self).spec_topology_dirty(),
            final(self).spec_next_edge() == old(self).spec_next_edge(),
            same_nodes(final(self), old(self)),
    {
        let pos = match self.edge_position(id) {
            None => return false,
            Some(p) => p,
        };
        let edge = self.edges.remove(pos);
        let dst = edge.dst.node;
        insert_sorted(&mut self.dirty, dst);
        self.topology_dirty = true;
        proof {
            let es = old(self).spec_edges();
            assert forall|i: int| 0 <= i < es.len() && #[trigger] es[i].id == id implies i == pos by {
                if i < pos {
                    assert(es[i].id.spec_get() < es[pos as int].id.spec_get());
                } else if i > pos {
                    assert(es[pos as int].id.spec_get() < es[i].id.spec_get());
                }
            }
            assert forall|k: int| 0 <= k < self.spec_edges().len() implies self.live(#[trigger] self.spec_edges()[k].src.node)
                && self.live(self.spec_edges()[k].dst.node) && self.spec_edges()[k].src.node != self.spec_edges()[k].dst.node by {
                let k2 = if k < pos { k } else { k + 1 };
                assert(self.spec_edges()[k] == es[k2]);
                assert(old(self).live(es[k2].src.node));
                assert(old(self).live(es[k2].dst.node));
                assert(es[k2].src.node != es[k2].dst.node);
            }
            assert forall|a: int, b: int| 0 <= a < b < self.spec_edges().len() implies self.spec_edges()[a].id.spec_get()
                < self.spec_edges()[b].id.spec_get() by {
                let a2 = if a < pos { a } else { a + 1 };
                let b2 = if b < pos { b } else { b + 1 };
                assert(self.spec_edges()[a] == es[a2]);
                assert(self.spec_edges()[b] == es[b2]);
            }
            assert forall|k: int| 0 <= k < self.spec_edges().len() implies #[trigger] self.spec_edges()[k].id.spec_get()
                < self.spec_next_edge() by {
                let k2 = if k < pos { k } else { k + 1 };
                assert(self.spec_edges()[k] == es[k2]);
            }
            assert forall|k: int| 0 <= k < self.spec_dirty().len() implies self.live(#[trigger] self.spec_dirty()[k]) by {
                let x = self.spec_dirty()[k];
                assert(self.spec_dirty().to_set().contains(x));
                if x != dst {
                    let j = choose|j: int| 0 <= j < old(self).spec_dirty().len() && old(self).spec_dirty()[j] == x;
                    assert(old(self).live(old(self).spec_dirty()[j]));
                } else {
                    assert(old(self).live(es[pos as int].src.node));
                    assert(old(self).live(es[pos as int].dst.node));
                }
            }
        }
        true
    }

    /// Changes one edge's ordering key. `true` when the edge exists and its
    /// key changed; its destination is then dirtied and the topology marked
    /// for rebuild. Nothing else is touched.
    pub fn set_slot(&mut self, id: EdgeId, slot: i32) -> (r: bool)
        requires
            old(self).wf(),
        ensures
            final(self).wf(),
            r == exists|i: int| 0 <= i < old(self).spec_edges().len() && #[trigger] old(self).spec_edges()[i].id == id
                && old(self).spec_edges()[i].slot != slot,
            !r ==> *final(self) == *old(self),
            r ==> final(self).spec_edges() == with_slot(old(self).spec_edges(), id, slot),
            forall|i: int| #![trigger old(self).spec_edges()[i]] r && 0 <= i < old(self).spec_edges().len() && old(self).spec_edges()[i].id == id
                ==> final(self).spec_dirty().to_set() == old(self).spec_dirty().to_set().insert(old(self).spec_edges()[i].dst.node),
            r ==> final(self).spec_topology_dirty(),
            final(self).spec_next_edge() == old(self).spec_next_edge(),
            same_nodes(final(self), old(self)),
    {
        let pos = match self.edge_position(id) {
            None => return false,
            Some(p) => p,
        };
        let ghost es = old(self).spec_edges();
        proof {
            assert forall|i: int| 0 <= i < es.len() && #[trigger] es[i].id == id implies i == pos by {
                if i < pos {
                    assert(es[i].id.spec_get() < es[pos as int].id.spec_get());
                } else if i > pos {
                    assert(es[pos as int].id.spec_get() < es[i].id.spec_get());
                }
            }
        }
        if self.edges[pos].slot == slot {
            return false;
        }
        let mut edge = self.edges[pos].duplicate();
        edge.slot = slot;
        let dst = edge.dst.node;
        self.edges.set(pos, edge);
        insert_sorted(&mut self.dirty, dst);
        self.topology_dirty = true;
        proof {
            assert forall|k: int| 0 <= k < es.len() implies #[trigger] self.spec_edges()[k] == with_slot(es, id, slot)[k] by {
                if k != pos {
                    assert(es[k].id != id);
                }
            }
            assert(self.spec_edges() =~= with_slot(es, id, slot));
            assert forall|k: int| 0 <= k < self.spec_edges().len() implies self.live(#[trigger] self.spec_edges()[k].src.node)
                && self.live(self.spec_edges()[k].dst.node) && self.spec_edges()[k].src.node != self.spec_edges()[k].dst.node by {
                assert(old(self).live(es[k].src.node));
            }
            assert forall|a: int, b: int| 0 <= a < b < self.spec_edges().len() implies self.spec_edges()[a].id.spec_get()
                < self.spec_edges()[b].id.spec_get() by {
                assert(self.spec_edges()[a].id == es[a].id);
                assert(self.spec_edges()[b].id == es[b].id);
            }
            assert forall|k: int| 0 <= k < self.spec_edges().len() implies #[trigger] self.spec_edges()[k].id.spec_get()
                < self.spec_next_edge() by {
                assert(self.spec_edges()[k].id == es[k].id);
            }
            assert forall|k: int| 0 <= k < self.spec_dirty().len() implies self.live(#[trigger] self.spec_dirty()[k]) by {
                let x = self.spec_dirty()[k];
                assert(self.spec_dirty().to_set().contains(x));
                if x != dst {
                    let j = choose|j: int| 0 <= j < old(self).spec_dirty().len() && old(self).spec_dirty()[j] == x;
                    assert(old(self).live(old(self).spec_dirty()[j]));
                } else {
                    assert(old(self).live(es[pos as int].src.node));
                    assert(old(self).live(es[pos as int].dst.node));
                }
            }
        }
        true
    }

    /// Writes one of a node's authored inlet fields. `path` is relative to
    /// `inlets`. An equal write reports [`FieldWrite::Unchanged`] and does
    /// not dirty the node; a written one dirties it.
    pub fn set_field(&mut self, node: NodeId, path: &str, value: Value) -> (r: FieldWrite)
        requires
            old(self).wf(),
        ensures
            final(self).wf(),
            !old(self).live(node) ==> r == FieldWrite::Rejected && *final(self) == *old(self),
            old(self).live(node) ==> {
                let before = old(self).node(node);
                let after = final(self).node(node);
                &&& after.spec_kind() == before.spec_kind()
                &&& after.spec_part(Part::State) == before.spec_part(Part::State)
                &&& after.spec_part(Part::Outlets) == before.spec_part(Part::Outlets)
                &&& match resolved(before.spec_part(Part::Inlets), Part::Inlets, path@) {
                    None => r == FieldWrite::Rejected,
                    Some(f) => if crate::node::same_value(f.value, value) {
                        r == FieldWrite::Unchanged
                    } else if f.value.type_id != value.type_id {
                        r == FieldWrite::Rejected
                    } else {
                        r == FieldWrite::Written
                    },
                }
                &&& r == FieldWrite::Written ==> after.spec_part(Part::Inlets) == crate::node::with_value(
                    before.spec_part(Part::Inlets),
                    resolved(before.spec_part(Part::Inlets), Part::Inlets, path@)->Some_0.path@,
                    value,
                )
                &&& r != FieldWrite::Written ==> *final(self) == *old(self)
                &&& r == FieldWrite::Written ==> final(self).spec_dirty().to_set() == old(self).spec_dirty().to_set().insert(node)
            },
            forall|x: NodeId| #[trigger] final(self).live(x) == old(self).live(x),
            forall|x: NodeId| x != node && final(self).live(x) ==> #[trigger] final(self).node(x) == old(self).node(x),
            final(self).spec_edges() == old(self).spec_edges(),
            final(self).spec_next_edge() == old(self).spec_next_edge(),
            final(self).spec_free() == old(self).spec_free(),
            final(self).spec_removed() == old(self).spec_removed(),
            final(self).spec_topology_dirty() == old(self).spec_topology_dirty(),
            final(self).spec_order() == old(self).spec_order(),
    {
        let current = match self.get(node) {
            None => return FieldWrite::Rejected,
            Some(n) => n,
        };
        let fields = current.part(Part::Inlets);
        let target_path = match find_resolved(fields, Part::Inlets, path) {
            None => return FieldWrite::Rejected,
            Some(i) => {
                if crate::node::values_equal(fields[i].value, value) {
                    return FieldWrite::Unchanged;
                }
                if fields[i].value.type_id != value.type_id {
                    return FieldWrite::Rejected;
                }
                proof {
                    crate::node::lemma_lookup_path(fields@, fields@[i as int].path@);
                }
                fields[i].path.clone()
            },
        };
        let index = node.index() as usize;
        let ghost before_slots = self.spec_slots();
        proof {
            assert(before_slots[index as int].1 matches Some(n) ==> n.wf());
        }
        let mut taken = Slot { generation: 0, node: None };
        self.slots.set_and_swap(index, &mut taken);
        let generation = taken.generation;
        let mut target = match taken.node {
            Some(n) => n,
            None => {
                assert(false);
                return FieldWrite::Rejected;
            },
        };
        let r = target.write_inlet(target_path.as_str(), value);
        let ghost after_node = target;
        self.slots.set(index, Slot { generation, node: Some(target) });
        insert_sorted(&mut self.dirty, node);
        proof {
            assert(self.spec_slots() =~= before_slots.update(index as int, (generation, Some(after_node))));
            assert forall|x: NodeId| #[trigger] self.live(x) == old(self).live(x) by {}
            assert forall|x: NodeId| x != node && self.live(x) implies #[trigger] self.node(x) == old(self).node(x) by {
                crate::id::lemma_node_id_eq(x, node);
            }
            assert forall|k: int| 0 <= k < self.spec_slots().len() implies (#[trigger] self.spec_slots()[k].1 matches Some(n) ==> n.wf()) by {
                if k != index {
                    assert(self.spec_slots()[k] == before_slots[k]);
                }
            }
            assert forall|k: int| 0 <= k < self.spec_edges().len() implies self.live(#[trigger] self.spec_edges()[k].src.node)
                && self.live(self.spec_edges()[k].dst.node) by {
                assert(old(self).live(old(self).spec_edges()[k].src.node));
                assert(old(self).live(old(self).spec_edges()[k].dst.node));
            }
            assert forall|k: int| 0 <= k < self.spec_dirty().len() implies self.live(#[trigger] self.spec_dirty()[k]) by {
                let x = self.spec_dirty()[k];
                assert(self.spec_dirty().to_set().contains(x));
                if x != node {
                    let j = choose|j: int| 0 <= j < old(self).spec_dirty().len() && old(self).spec_dirty()[j] == x;
                    assert(old(self).live(old(self).spec_dirty()[j]));
                }
            }
        }
        r
    }

    /// Records `node` as changed. Ignored for a node that does not exist.
    pub fn mark_dirty(&mut self, node: NodeId)
        requires
            old(self).wf(),
        ensures
            final(self).wf(),
            old(self).live(node) ==> final(self).spec_dirty().to_set() == old(self).spec_dirty().to_set().insert(node),
            !old(self).live(node) ==> final(self).spec_dirty() == old(self).spec_dirty(),
            final(self).spec_edges() == old(self).spec_edges(),
            final(self).spec_next_edge() == old(self).spec_next_edge(),
            final(self).spec_topology_dirty() == old(self).spec_topology_dirty(),
            same_nodes(final(self), old(self)),
    {
        if self.contains(node) {
            insert_sorted(&mut self.dirty, node);
            proof {
                assert forall|k: int| 0 <= k < self.spec_dirty().len() implies self.live(#[trigger] self.spec_dirty()[k]) by {
                    let x = self.spec_dirty()[k];
                    assert(self.spec_dirty().to_set().contains(x));
                    if x != node {
                        let j = choose|j: int| 0 <= j < old(self).spec_dirty().len() && old(self).spec_dirty()[j] == x;
                        assert(old(self).live(old(self).spec_dirty()[j]));
                    }
                }
            }
        }
    }

    /// Whether `node` is currently recorded as changed.
    pub fn is_dirty(&self, node: NodeId) -> (r: bool)
        ensures
            r == self.spec_dirty().contains(node),
    {
        let mut i: usize = 0;
        while i < self.dirty.len()
            invariant
                i <= self.spec_dirty().len(),
                forall|k: int| 0 <= k < i ==> self.spec_dirty()[k] != node,
            decreases self.spec_dirty().len() - i,
        {
            if self.dirty[i].same(node) {
                assert(self.spec_dirty()[i as int] == node);
                return true;
            }
            i = i + 1;
        }
        false
    }

    /// The dirty set without clearing it, in ascending id order.
    pub fn dirty(&self) -> (r: &[NodeId])
        ensures
            r@ == self.spec_dirty(),
    {
        self.dirty.as_slice()
    }

    /// Takes the dirty set, in ascending id order, and clears it.
    pub fn drain_dirty(&mut self) -> (r: Vec<NodeId>)
        requires
            old(self).wf(),
        ensures
            final(self).wf(),
            r@ == old(self).spec_dirty(),
            final(self).spec_dirty().len() == 0,
            final(self).spec_edges() == old(self).spec_edges(),
            final(self).spec_next_edge() == old(self).spec_next_edge(),
            final(self).spec_topology_dirty() == old(self).spec_topology_dirty(),
            same_nodes(final(self), old(self)),
    {
        let mut taken = Vec::new();
        core::mem::swap(&mut self.dirty, &mut taken);
        taken
    }

    /// The removed set without clearing it, in deletion order.
    pub fn removed(&self) -> (r: &[NodeId])
        ensures
            r@ == self.spec_removed(),
    {
        self.removed.as_slice()
    }

    /// Takes the removed set and clears it.
    pub fn drain_removed(&mut self) -> (r: Vec<NodeId>)
        requires
            old(self).wf(),
        ensures
            final(self).wf(),
            r@ == old(self).spec_removed(),
            final(self).spec_removed().len() == 0,
            final(self).spec_slots() == old(self).spec_slots(),
            final(self).spec_free() == old(self).spec_free(),
            final(self).spec_edges() == old(self).spec_edges(),
            final(self).spec_next_edge() == old(self).spec_next_edge(),
            final(self).spec_dirty() == old(self).spec_dirty(),
            final(self).spec_topology_dirty() == old(self).spec_topology_dirty(),
            final(self).spec_order() == old(self).spec_order(),
    {
        let mut taken = Vec::new();
        core::mem::swap(&mut self.removed, &mut taken);
        taken
    }

    /// Whether the shape changed since the last rebuild.
    pub fn topology_dirty(&self) -> (r: bool)
        ensures
            r == self.spec_topology_dirty(),
    {
        self.topology_dirty
    }

    /// Marks the shape as changed, forcing a rebuild before the next tick.
    pub fn mark_topology_dirty(&mut self)
        requires
            old(self).wf(),
        ensures
            final(self).wf(),
            final(self).spec_topology_dirty(),
            final(self).spec_edges() == old(self).spec_edges(),
            final(self).spec_next_edge() == old(self).spec_next_edge(),
            final(self).spec_dirty() == old(self).spec_dirty(),
            same_nodes(final(self), old(self)),
    {
        self.topology_dirty = true;
    }

    /// Rebuilds the evaluation plan unconditionally.
    pub fn rebuild_order(&mut self)
        requires
            old(self).wf(),
        ensures
            final(self).wf(),
            !final(self).spec_topology_dirty(),
            is_plan(old(self), final(self).spec_order()),
            final(self).spec_slots() == old(self).spec_slots(),
            final(self).spec_free() == old(self).spec_free(),
            final(self).spec_removed() == old(self).spec_removed(),
            final(self).spec_edges() == old(self).spec_edges(),
            final(self).spec_next_edge() == old(self).spec_next_edge(),
            final(self).spec_dirty() == old(self).spec_dirty(),
    {
        let order = rebuild(self);
        self.order = order;
        self.topology_dirty = false;
    }

    /// Rebuilds the evaluation plan if the shape changed.
    pub fn rebuild_order_if_dirty(&mut self)
        requires
            old(self).wf(),
        ensures
            final(self).wf(),
            !final(self).spec_topology_dirty(),
            old(self).spec_topology_dirty() ==> is_plan(old(self), final(self).spec_order()),
            !old(self).spec_topology_dirty() ==> final(self).spec_order() == old(self).spec_order(),
            final(self).spec_slots() == old(self).spec_slots(),
            final(self).spec_free() == old(self).spec_free(),
            final(self).spec_removed() == old(self).spec_removed(),
            final(self).spec_edges() == old(self).spec_edges(),
            final(self).spec_next_edge() == old(self).spec_next_edge(),
            final(self).spec_dirty() == old(self).spec_dirty(),
    {
        if self.topology_dirty {
            self.rebuild_order();
        }
    }

    /// Every edge, in creation order.
    pub fn edges(&self) -> (r: &[Edge])
        ensures
            r@ == self.spec_edges(),
    {
        self.edges.as_slice()
    }

    /// One edge by id.
    pub fn edge(&self, id: EdgeId) -> (r: Option<&Edge>)
        ensures
            r is None ==> forall|i: int| 0 <= i < self.spec_edges().len() ==> #[trigger] self.spec_edges()[i].id != id,
            r matches Some(e) ==> e.id == id && self.spec_edges().contains(*e),
    {
        match self.edge_position(id) {
            None => None,
            Some(p) => Some(&self.edges[p]),
        }
    }

    /// Edges arriving at `node`, in creation order.
    pub fn edges_into(&self, node: NodeId) -> (r: Vec<Edge>)
        ensures
            r@ == self.spec_edges().filter(|e: Edge| e.dst.node == node),
    {
        let ghost es = self.spec_edges();
        let ghost pred = |e: Edge| e.dst.node == node;
        let mut r: Vec<Edge> = Vec::new();
        let mut j: usize = 0;
        while j < self.edges.len()
            invariant
                self.spec_edges() == es,
                j <= es.len(),
                pred == (|e: Edge| e.dst.node == node),
                r@ == es.subrange(0, j as int).filter(pred),
            decreases es.len() - j,
        {
            proof {
                assert(es.subrange(0, j + 1) =~= es.subrange(0, j as int).push(es[j as int]));
                es.subrange(0, j as int).lemma_filter_push(es[j as int], pred);
            }
            if self.edges[j].dst.node.same(node) {
                r.push(self.edges[j].duplicate());
            }
            j = j + 1;
        }
        assert(es.subrange(0, es.len() as int) =~= es);
        r
    }

    /// Edges leaving `node`, in creation order.
    pub fn edges_from(&self, node: NodeId) -> (r: Vec<Edge>)
        ensures
            r@ == self.spec_edges().filter(|e: Edge| e.src.node == node),
    {
        let ghost es = self.spec_edges();
        let ghost pred = |e: Edge| e.src.node == node;
        let mut r: Vec<Edge> = Vec::new();
        let mut j: usize = 0;
        while j < self.edges.len()
            invariant
                self.spec_edges() == es,
                j <= es.len(),
                pred == (|e: Edge| e.src.node == node),
                r@ == es.subrange(0, j as int).filter(pred),
            decreases es.len() - j,
        {
            proof {
                assert(es.subrange(0, j + 1) =~= es.subrange(0, j as int).push(es[j as int]));
                es.subrange(0, j as int).lemma_filter_push(es[j as int], pred);
            }
            if self.edges[j].src.node.same(node) {
                r.push(self.edges[j].duplicate());
            }
            j = j + 1;
        }
        assert(es.subrange(0, es.len() as int) =~= es);
        r
    }

    /// Every node, in the order the tick evaluates them.
    pub fn eval_order(&self) -> (r: &[NodeId])
        ensures
            r@ == self.spec_order().order@,
    {
        self.order.order.as_slice()
    }

    /// Nodes the last rebuild found in a cycle, ascending.
    pub fn cycles(&self) -> (r: &[NodeId])
        ensures
            r@ == self.spec_order().cycles@,
    {
        self.order.cycles.as_slice()
    }

    /// The whole evaluation plan of the last rebuild.
    pub fn order(&self) -> (r: &EvalOrder)
        ensures
            *r == self.spec_order(),
    {
        &self.order
    }

    /// Every live node's id, in ascending order.
    pub fn node_ids(&self) -> (r: Vec<NodeId>)
        requires
            self.wf(),
        ensures
            r@ == self.live_ids(),
            ascending(r@),
            forall|id: NodeId| r@.contains(id) <==> self.live(id),
    {
        let ghost all = Seq::new(self.spec_slots().len(), |i: int| NodeId::mk(i as u32, self.spec_slots()[i].0));
        let ghost pred = |id: NodeId| self.live(id);
        let mut r: Vec<NodeId> = Vec::new();
        let mut i: usize = 0;
        while i < self.slots.len()
            invariant
                all == Seq::new(self.spec_slots().len(), |i: int| NodeId::mk(i as u32, self.spec_slots()[i].0)),
                pred == (|id: NodeId| self.live(id)),
                r@ == all.subrange(0, i as int).filter(pred),
                i <= self.slots@.len(),
                self.slots@.len() <= u32::MAX + 1,
                self.wf(),
                ascending(r@),
                forall|k: int| 0 <= k < r@.len() ==> (#[trigger] r@[k]).spec_index() < i,
                forall|id: NodeId| r@.contains(id) <==> (self.live(id) && id.spec_index() < i),
            decreases self.slots@.len() - i,
        {
            let slot = &self.slots[i];
            proof {
                assert(all.subrange(0, i + 1) =~= all.subrange(0, i as int).push(all[i as int]));
                all.subrange(0, i as int).lemma_filter_push(all[i as int], pred);
                assert(all[i as int] == NodeId::mk(i as u32, slot.generation));
            }
            if slot.node.is_some() {
                let id = NodeId::new(i as u32, slot.generation);
                let ghost before = r@;
                r.push(id);
                proof {
                    assert forall|x: NodeId| r@.contains(x) <==> (self.live(x) && x.spec_index() < i + 1) by {
                        crate::id::lemma_node_id_eq(x, id);
                        if r@.contains(x) && x != id {
                            let k = choose|k: int| 0 <= k < r@.len() && r@[k] == x;
                            assert(before[k] == x);
                        }
                        if self.live(x) && x.spec_index() < i + 1 && x != id {
                            assert(before.contains(x));
                            let k = choose|k: int| 0 <= k < before.len() && before[k] == x;
                            assert(r@[k] == x);
                        }
                        if x == id {
                            assert(r@[before.len() as int] == x);
                        }
                    }
                }
            } else {
                proof {
                    assert forall|x: NodeId| r@.contains(x) <==> (self.live(x) && x.spec_index() < i + 1) by {
                        if self.live(x) && x.spec_index() == i {
                            assert(false);
                        }
                    }
                }
            }
            i = i + 1;
        }
        assert(all.subrange(0, all.len() as int) =~= all);
        r
    }
}

impl Default for Graph {
    /// An empty graph whose topology is marked for a first rebuild.
    fn default() -> (g: Graph)
        ensures
            g.wf(),
            g.spec_slots().len() == 0,
            g.spec_free().len() == 0,
            g.spec_edges().len() == 0,
            g.spec_next_edge() == 0,
            g.spec_dirty().len() == 0,
            g.spec_removed().len() == 0,
            g.spec_topology_dirty(),
            g.spec_order().steps@.len() == 0,
            g.spec_order().order@.len() == 0,
            g.spec_order().cycles@.len() == 0,
    {
        Graph::new()
    }
}

/// Whether edge `x` lands on the inlet `(node, path)`.
pub open spec fn on_port(x: Edge, node: NodeId, path: Seq<char>) -> bool {
    x.dst.node == node && x.dst.path@ == path
}

/// A single-connection inlet is replaced, not doubled: once `connect` has
/// dropped the edges on the destination inlet and appended the new one, the
/// new edge is the only one landing there, every other edge is kept in
/// order, and when every edge landed there the new edge is the whole list.
pub proof fn lemma_single_inlet_holds_one_edge(edges: Seq<Edge>, e: Edge)
    ensures
        edges_off_port(edges, e.dst.node, e.dst.path@).push(e).filter(
            |x: Edge| on_port(x, e.dst.node, e.dst.path@),
        ) == seq![e],
        edges_off_port(edges_off_port(edges, e.dst.node, e.dst.path@).push(e), e.dst.node, e.dst.path@)
            == edges_off_port(edges, e.dst.node, e.dst.path@),
        (forall|i: int| 0 <= i < edges.len() ==> on_port(#[trigger] edges[i], e.dst.node, e.dst.path@))
            ==> edges_off_port(edges, e.dst.node, e.dst.path@).push(e) == seq![e],
{
    let n = e.dst.node;
    let p = e.dst.path@;
    let keep = |x: Edge| !on_port(x, n, p);
    let on = |x: Edge| on_port(x, n, p);
    let kept = edges.filter(keep);
    kept.lemma_filter_push(e, on);
    kept.filter_lemma(on);
    edges.filter_lemma(keep);
    assert(kept.filter(on).len() == 0) by {
        if kept.filter(on).len() > 0 {
            let y = kept.filter(on)[0];
            assert(kept.filter(on).contains(y));
            kept.lemma_filter_contains_rev(on, y);
            let k = choose|k: int| 0 <= k < kept.len() && kept[k] == y;
            assert(keep(kept[k]));
        }
    }
    assert(kept.filter(on).push(e) =~= seq![e]);
    assert(edges_off_port(edges, n, p) == kept);
    assert(kept.push(e).filter(on) == seq![e]);
    kept.lemma_filter_push(e, keep);
    kept.filter_lemma(keep);
    assert(kept.filter(keep) =~= kept) by {
        lemma_filter_all(kept, keep);
    }
    assert(kept.push(e).filter(keep) == kept);
    if forall|i: int| 0 <= i < edges.len() ==> on_port(#[trigger] edges[i], n, p) {
        assert(kept.len() == 0) by {
            if kept.len() > 0 {
                let y = kept[0];
                assert(kept.contains(y));
                edges.lemma_filter_contains_rev(keep, y);
                let k = choose|k: int| 0 <= k < edges.len() && edges[k] == y;
                assert(keep(kept[0]));
            }
        }
        assert(kept.push(e) =~= seq![e]);
    }
}

/// Filtering a sequence all of whose elements pass leaves it as it was.
proof fn lemma_filter_all(s: Seq<Edge>, p: spec_fn(Edge) -> bool)
    requires
        forall|i: int| 0 <= i < s.len() ==> p(#[trigger] s[i]),
    ensures
        s.filter(p) == s,
    decreases s.len(),
{
    reveal(Seq::filter);
    if s.len() > 0 {
        lemma_filter_all(s.drop_last(), p);
        assert(p(s[s.len() - 1]));
        assert(s.drop_last().push(s.last()) =~= s);
    }
}

/// A single-connection inlet is replaced on re-connect, not doubled, while a
/// variadic inlet accumulates: after a successful `connect` the edges landing
/// on the destination inlet are the new edge alone, or, on a variadic inlet,
/// the ones there before followed by the new edge; every edge landing
/// elsewhere is kept, in order.
pub proof fn lemma_connect_replaces_single_inlet(
    before: &Graph,
    after: &Graph,
    src: Port,
    dst: Port,
    slot: i32,
    id: EdgeId,
    compat: Compat,
    valueless: bool,
)
    requires
        connect_verdict(before, src, dst) == Ok::<(Compat, bool), ConnectError>((compat, valueless)),
        after.spec_edges() == (if compat == Compat::Variadic {
            before.spec_edges()
        } else {
            edges_off_port(before.spec_edges(), dst.node, dst.path@)
        }).push(Edge { id, src, dst, slot, compat, valueless }),
    ensures
        after.spec_edges().filter(|x: Edge| on_port(x, dst.node, dst.path@)) == (if compat == Compat::Variadic {
            before.spec_edges().filter(|x: Edge| on_port(x, dst.node, dst.path@)).push(
                Edge { id, src, dst, slot, compat, valueless },
            )
        } else {
            seq![Edge { id, src, dst, slot, compat, valueless }]
        }),
        edges_off_port(after.spec_edges(), dst.node, dst.path@) == edges_off_port(
            before.spec_edges(),
            dst.node,
            dst.path@,
        ),
{
    let e = Edge { id, src, dst, slot, compat, valueless };
    let n = dst.node;
    let p = dst.path@;
    let on = |x: Edge| on_port(x, n, p);
    let keep = |x: Edge| !on_port(x, n, p);
    let es = before.spec_edges();
    if compat == Compat::Variadic {
        es.lemma_filter_push(e, on);
        es.lemma_filter_push(e, keep);
    } else {
        lemma_single_inlet_holds_one_edge(es, e);
    }
}

/// `connect` touches only the inlet it connects: every edge that lands
/// anywhere else (another node, or another path of the same node) is still
/// there afterwards, and on a single-connection inlet every edge landing on
/// that inlet afterwards is the new one.
pub proof fn lemma_connect_keeps_other_inlets(
    before: &Graph,
    after: &Graph,
    src: Port,
    dst: Port,
    slot: i32,
    id: EdgeId,
    compat: Compat,
    valueless: bool,
    x: Edge,
)
    requires
        connect_verdict(before, src, dst) == Ok::<(Compat, bool), ConnectError>((compat, valueless)),
        after.spec_edges() == (if compat == Compat::Variadic {
            before.spec_edges()
        } else {
            edges_off_port(before.spec_edges(), dst.node, dst.path@)
        }).push(Edge { id, src, dst, slot, compat, valueless }),
    ensures
        before.spec_edges().contains(x) && !(x.dst.node == dst.node && x.dst.path@ == dst.path@)
            ==> after.spec_edges().contains(x),
        compat != Compat::Variadic && after.spec_edges().contains(x) && x.dst.node == dst.node && x.dst.path@
            == dst.path@ ==> x == (Edge { id, src, dst, slot, compat, valueless }),
        after.spec_edges().contains(Edge { id, src, dst, slot, compat, valueless }),
{
    let e = Edge { id, src, dst, slot, compat, valueless };
    let es = before.spec_edges();
    let keep = |y: Edge| !on_port(y, dst.node, dst.path@);
    let kept = es.filter(keep);
    assert(after.spec_edges()[after.spec_edges().len() - 1] == e);
    if es.contains(x) && !(x.dst.node == dst.node && x.dst.path@ == dst.path@) {
        let k = choose|k: int| 0 <= k < es.len() && es[k] == x;
        if compat == Compat::Variadic {
            assert(after.spec_edges()[k] == x);
        } else {
            es.filter_lemma(keep);
            assert(keep(es[k]));
            assert(kept.contains(x));
            let j = choose|j: int| 0 <= j < kept.len() && kept[j] == x;
            assert(after.spec_edges()[j] == x);
        }
    }
    if compat != Compat::Variadic && after.spec_edges().contains(x) && x.dst.node == dst.node && x.dst.path@
        == dst.path@ {
        let j = choose|j: int| 0 <= j < after.spec_edges().len() && after.spec_edges()[j] == x;
        if j < kept.len() {
            assert(kept[j] == x);
            es.filter_lemma(keep);
            assert(keep(kept[j]));
        }
    }
}

/// Connecting and then disconnecting the new edge round-trips: when the
/// connection dropped nothing (a variadic inlet, or an inlet with no edge),
/// removing the edge it appended leaves exactly the edges there were before.
pub proof fn lemma_connect_then_disconnect(before: &Graph, connected: &Graph, after: &Graph, e: Edge)
    requires
        before.wf(),
        e.id.spec_get() == before.spec_next_edge(),
        connected.spec_edges() == before.spec_edges().push(e),
        forall|i: int|
            0 <= i < connected.spec_edges().len() && #[trigger] connected.spec_edges()[i].id == e.id
                ==> after.spec_edges() == connected.spec_edges().remove(i),
    ensures
        after.spec_edges() == before.spec_edges(),
{
    let es = before.spec_edges();
    let i = es.len() as int;
    assert(connected.spec_edges()[i].id == e.id);
    assert(es.push(e).remove(i) =~= es);
}

/// A removed id stays dead when its slot is reused: removal moves the slot
/// past the removed id's generation, and the next insertion mints the slot's
/// current generation, so it names the same slot under a different id.
pub proof fn lemma_reuse_mints_a_fresh_id(before: &Graph, after: &Graph, id: NodeId)
    requires
        before.wf(),
        before.live(id),
        after.spec_slots() == before.spec_slots().update(
            id.spec_index() as int,
            (if id.spec_generation() == u32::MAX { 0u32 } else { (id.spec_generation() + 1) as u32 }, None),
        ),
        after.spec_free() == before.spec_free().push(id.spec_index()),
    ensures
        !after.live(id),
        after.next_id() != id,
        after.next_id().spec_index() == id.spec_index(),
{
    crate::id::lemma_node_id_eq(after.next_id(), id);
}

} // verus!
