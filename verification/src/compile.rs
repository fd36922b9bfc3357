//! Compiling the entity-based graph into a flat slot plan.
//!
//! Every node's fields (inlets first, then outlets) are laid out in one slot
//! arena: a field takes one slot, or, for a variadic inlet, one per element
//! the instance holds. Every edge is validated against that layout, spatial
//! edges build the parent hierarchy, the others order the nodes, and each node
//! gets a plan of the slot copies that feed it.
//!
//! Entities are carried by their bits; a node's position in the input is its
//! index everywhere below.

use vstd::prelude::*;
use std::any::TypeId;
use crate::registry::same_type;
use crate::wiring::NodeTypeId;
use crate::text::str_eq;
use crate::display::{decimal, entities_joined, entity_text, push_decimal, push_entities, push_entity};
use vstd::string::*;
use crate::kahn::{fifo_order, kahn_outcome};
use crate::parents::{find_parent_cycle, first_cycle};

verus! {

/// What a field's slots hold.
#[derive(Clone, Copy, Debug, PartialEq, Eq, Structural)]
pub enum FieldKind {
    /// A plain value.
    Value,
    /// This tick's occurrences, emptied before every tick.
    Events,
    /// The producing entity of a capability; `spatial` for the one capability
    /// that builds the hierarchy.
    Product { spatial: bool },
}

/// One field of a node's inlets or outlets.
#[derive(Debug)]
pub struct FieldSpec {
    /// The field's name.
    pub name: &'static str,
    /// Index of the field in its own struct: which entry of the instance's
    /// lengths is its length, for a variadic inlet.
    pub field_index: usize,
    /// What the field's slots hold.
    pub kind: FieldKind,
    /// The type one slot holds; edge validation compares these directly.
    pub slot_type: TypeId,
    /// That type's path, for diagnostics.
    pub slot_type_path: &'static str,
}

/// One node as the compiler sees it.
pub struct CompileNode {
    /// The node's entity.
    pub entity: u64,
    /// Its registered node type.
    pub node_type: NodeTypeId,
    /// Its fields: inlets first, then outlets.
    pub fields: Vec<FieldSpec>,
    /// How many of `fields` are inlets.
    pub inlet_field_count: usize,
    /// Per inlet field index, how many slots the instance gives it; a field
    /// with no entry takes one.
    pub inlet_lens: Vec<usize>,
}

/// The number of slots field `o` of `node` takes.
pub open spec fn field_len(node: CompileNode, o: int) -> nat {
    if o < node.inlet_field_count && node.fields@[o].field_index < node.inlet_lens@.len() {
        node.inlet_lens@[node.fields@[o].field_index as int] as nat
    } else {
        1
    }
}

/// How many slots the first `o` fields of `node` take: where field `o`
/// starts, relative to the node's base.
pub open spec fn field_offset(node: CompileNode, o: int) -> nat
    decreases o,
{
    if o <= 0 {
        0
    } else {
        field_offset(node, o - 1) + field_len(node, o - 1)
    }
}

/// How many slots `node` takes.
pub open spec fn slot_count(node: CompileNode) -> nat {
    field_offset(node, node.fields@.len() as int)
}

/// Where node `i`'s slots start: after every earlier node's.
pub open spec fn node_base(nodes: Seq<CompileNode>, i: int) -> nat
    decreases i,
{
    if i <= 0 {
        0
    } else {
        node_base(nodes, i - 1) + slot_count(nodes[i - 1])
    }
}

/// One node's slot layout.
#[derive(Debug)]
pub struct Layout {
    /// Absolute base of the node's slots.
    pub base: usize,
    /// Per field ordinal: offset from `base` of that field's first slot.
    pub field_offsets: Vec<usize>,
    /// Per field ordinal: how many slots it has.
    pub field_lens: Vec<usize>,
    /// How many slots the node's inlets occupy.
    pub inlet_slots: usize,
    /// How many slots the node occupies.
    pub slot_count: usize,
}

/// `l` is the layout of `node` at `base`.
pub open spec fn is_layout(node: CompileNode, base: int, l: Layout) -> bool {
    &&& l.base == base
    &&& l.field_offsets@.len() == node.fields@.len()
    &&& l.field_lens@.len() == node.fields@.len()
    &&& forall|o: int| 0 <= o < node.fields@.len() ==> #[trigger] l.field_offsets@[o] == field_offset(node, o)
    &&& forall|o: int| 0 <= o < node.fields@.len() ==> #[trigger] l.field_lens@[o] == field_len(node, o)
    &&& l.inlet_slots == field_offset(node, node.inlet_field_count as int)
    &&& l.slot_count == slot_count(node)
}

/// Offsets grow with the ordinal.
proof fn lemma_offset_monotone(node: CompileNode, a: int, b: int)
    requires
        a <= b,
    ensures
        field_offset(node, a) <= field_offset(node, b),
    decreases b - a,
{
    if a < b {
        lemma_offset_monotone(node, a, b - 1);
    }
}

/// Lays out `node` starting at `base`.
fn layout_of(node: &CompileNode, base: usize) -> (l: Layout)
    requires
        node.inlet_field_count <= node.fields@.len(),
        base + slot_count(*node) <= usize::MAX,
    ensures
        is_layout(*node, base as int, l),
{
    let n = node.fields.len();
    let mut field_offsets: Vec<usize> = Vec::new();
    let mut field_lens: Vec<usize> = Vec::new();
    let mut offset: usize = 0;
    let mut inlet_slots: usize = 0;
    let mut o: usize = 0;
    while o < n
        invariant
            n == node.fields@.len(),
            node.inlet_field_count <= n,
            o <= n,
            base + slot_count(*node) <= usize::MAX,
            offset == field_offset(*node, o as int),
            field_offsets@.len() == o,
            field_lens@.len() == o,
            forall|p: int| 0 <= p < o ==> #[trigger] field_offsets@[p] == field_offset(*node, p),
            forall|p: int| 0 <= p < o ==> #[trigger] field_lens@[p] == field_len(*node, p),
            o <= node.inlet_field_count ==> inlet_slots == offset,
            o > node.inlet_field_count ==> inlet_slots == field_offset(*node, node.inlet_field_count as int),
        decreases n - o,
    {
        let spec_field = &node.fields[o];
        let len: usize = if o < node.inlet_field_count && spec_field.field_index < node.inlet_lens.len() {
            node.inlet_lens[spec_field.field_index]
        } else {
            1
        };
        proof {
            lemma_offset_monotone(*node, o + 1, n as int);
        }
        field_offsets.push(offset);
        field_lens.push(len);
        offset = offset + len;
        if o + 1 <= node.inlet_field_count {
            inlet_slots = offset;
        }
        o = o + 1;
    }
    Layout { base, field_offsets, field_lens, inlet_slots, slot_count: offset }
}

/// Node bases grow with the index.
proof fn lemma_base_monotone(nodes: Seq<CompileNode>, a: int, b: int)
    requires
        a <= b,
    ensures
        node_base(nodes, a) <= node_base(nodes, b),
    decreases b - a,
{
    if a < b {
        lemma_base_monotone(nodes, a, b - 1);
    }
}

/// Every node's fields list its inlets first.
pub open spec fn fields_ordered(nodes: Seq<CompileNode>) -> bool {
    forall|i: int| 0 <= i < nodes.len() ==> (#[trigger] nodes[i]).inlet_field_count <= nodes[i].fields@.len()
}

/// Lays out every node, one after the other.
fn layouts_of(nodes: &[CompileNode]) -> (r: Vec<Layout>)
    requires
        fields_ordered(nodes@),
        node_base(nodes@, nodes@.len() as int) <= usize::MAX,
    ensures
        r@.len() == nodes@.len(),
        forall|i: int| 0 <= i < nodes@.len() ==> is_layout(nodes@[i], node_base(nodes@, i) as int, #[trigger] r@[i]),
{
    let mut r: Vec<Layout> = Vec::new();
    let mut cursor: usize = 0;
    let mut i: usize = 0;
    while i < nodes.len()
        invariant
            i <= nodes@.len(),
            fields_ordered(nodes@),
            node_base(nodes@, nodes@.len() as int) <= usize::MAX,
            cursor == node_base(nodes@, i as int),
            r@.len() == i,
            forall|j: int| 0 <= j < i ==> is_layout(nodes@[j], node_base(nodes@, j) as int, #[trigger] r@[j]),
        decreases nodes@.len() - i,
    {
        proof {
            lemma_base_monotone(nodes@, i + 1, nodes@.len() as int);
            assert(nodes@[i as int].inlet_field_count <= nodes@[i as int].fields@.len());
        }
        let l = layout_of(&nodes[i], cursor);
        cursor = cursor + l.slot_count;
        r.push(l);
        i = i + 1;
    }
    r
}

/// An edge between two field elements, as the world holds it.
#[derive(Clone, Copy, Debug, PartialEq, Eq, Structural)]
pub struct RawEdge {
    /// The edge's entity.
    pub edge: u64,
    /// The producing node's entity.
    pub from: u64,
    /// The consuming node's entity.
    pub to: u64,
    /// The producing field's ordinal.
    pub from_field: u16,
    /// The element within the producing field.
    pub from_index: u16,
    /// The consuming field's ordinal.
    pub to_field: u16,
    /// The element within the consuming field.
    pub to_index: u16,
}

/// A validated edge, resolved to slots.
#[derive(Clone, Copy, Debug, PartialEq, Eq, Structural)]
pub struct ValidEdge {
    /// The producing node's index.
    pub source_idx: usize,
    /// The consuming node's index.
    pub target_idx: usize,
    /// The absolute slot read.
    pub source_slot: usize,
    /// The absolute slot written.
    pub target_slot: usize,
    /// The slot written, relative to the consuming node's base.
    pub target_local: usize,
    /// Whether the edge lands on a spatial product: a parent edge.
    pub spatial: bool,
}

/// Everything that can go wrong at compile time. Every variant names the
/// offending node or nodes.
#[derive(Debug, Clone, PartialEq)]
pub enum CompileError {
    /// An edge names an entity that is not a node.
    MissingEndpoint { edge: u64, missing: u64 },
    /// A field ordinal beyond the node's fields.
    FieldOutOfRange { node: u64, field: u16, arity: usize },
    /// An element beyond the field's slots.
    ElementOutOfRange { node: u64, field: &'static str, index: u16, len: usize },
    /// An edge from an inlet, or into an outlet.
    WrongDirection { node: u64, field: &'static str, expected: &'static str },
    /// The two ends hold different types.
    TypeMismatch {
        source: u64,
        source_field: &'static str,
        source_type: &'static str,
        target: u64,
        target_field: &'static str,
        target_type: &'static str,
    },
    /// A second edge into one inlet element.
    InletAlreadyConnected { target: u64, field: &'static str, index: u16, first: u64, second: u64 },
    /// A spatial outlet feeding a second inlet.
    SpatialFanOut { child: u64, first: u64, second: u64 },
    /// Spatial edges that form a parenting cycle, through these nodes.
    ParentCycle { nodes: Vec<u64> },
    /// Edges that form a cycle; the nodes that could not be ordered.
    Cycle { nodes: Vec<u64> },
}

/// `i` is the first node whose entity is `e`.
pub open spec fn first_node(nodes: Seq<CompileNode>, e: u64, i: int) -> bool {
    &&& 0 <= i < nodes.len()
    &&& nodes[i].entity == e
    &&& forall|j: int| 0 <= j < i ==> nodes[j].entity != e
}

/// The index of the first node whose entity is `e`.
#[verifier::opaque]
pub open spec fn node_index(nodes: Seq<CompileNode>, e: u64) -> Option<int> {
    if exists|i: int| first_node(nodes, e, i) {
        Some(choose|i: int| first_node(nodes, e, i))
    } else {
        None
    }
}

/// The index of the first node whose entity is `e`.
fn find_node(nodes: &[CompileNode], e: u64) -> (r: Option<usize>)
    ensures
        match r {
            None => node_index(nodes@, e) is None,
            Some(i) => node_index(nodes@, e) == Some(i as int),
        },
        r matches Some(i) ==> i < nodes@.len(),
{
    let mut i: usize = 0;
    while i < nodes.len()
        invariant
            i <= nodes@.len(),
            forall|j: int| 0 <= j < i ==> nodes@[j].entity != e,
        decreases nodes@.len() - i,
    {
        if nodes[i].entity == e {
            proof {
                assert(first_node(nodes@, e, i as int));
                let k = choose|k: int| first_node(nodes@, e, k);
                if k < i {
                    assert(nodes@[k].entity != e);
                } else if k > i {
                    assert(nodes@[i as int].entity != e);
                }
                reveal(node_index);
            }
            return Some(i);
        }
        i = i + 1;
    }
    proof {
        reveal(node_index);
        assert forall|k: int| !first_node(nodes@, e, k) by {
            if first_node(nodes@, e, k) {
                assert(nodes@[k].entity != e);
            }
        }
    }
    None
}

/// The entry recorded last for `key`.
pub open spec fn recorded(list: Seq<(usize, u64)>, key: int) -> Option<u64>
    decreases list.len(),
{
    if list.len() == 0 {
        None
    } else if list.last().0 == key {
        Some(list.last().1)
    } else {
        recorded(list.drop_last(), key)
    }
}

/// The entry recorded last for `key`.
fn find_recorded(list: &Vec<(usize, u64)>, key: usize) -> (r: Option<u64>)
    ensures
        r == recorded(list@, key as int),
{
    let mut i: usize = list.len();
    proof {
        assert(list@.subrange(0, i as int) =~= list@);
    }
    while i > 0
        invariant
            i <= list@.len(),
            recorded(list@, key as int) == recorded(list@.subrange(0, i as int), key as int),
        decreases i,
    {
        let (k, v) = list[i - 1];
        proof {
            assert(list@.subrange(0, i as int).drop_last() =~= list@.subrange(0, i - 1));
            assert(list@.subrange(0, i as int).last() == list@[i - 1]);
        }
        if k == key {
            return Some(v);
        }
        i = i - 1;
    }
    None
}

/// The edge pass's state: the inlet slots filled so far and by whom, the
/// spatial outlets used so far and by whom, each node's parent, and the
/// edges validated so far.
pub struct EdgeState {
    /// `(target slot, source entity)`, in validation order.
    pub filled: Seq<(usize, u64)>,
    /// `(source index, target entity)` for each spatial edge.
    pub spatial: Seq<(usize, u64)>,
    /// Per node index, its parent's index.
    pub parent_of: Seq<Option<usize>>,
    /// The validated edges, in order.
    pub valid: Seq<ValidEdge>,
}

/// One edge validated against the layout: the next state, or why the edge is
/// refused.
pub open spec fn edge_step(nodes: Seq<CompileNode>, st: EdgeState, raw: RawEdge) -> Result<EdgeState, CompileError> {
    match node_index(nodes, raw.from) {
        None => Err(CompileError::MissingEndpoint { edge: raw.edge, missing: raw.from }),
        Some(s) => match node_index(nodes, raw.to) {
            None => Err(CompileError::MissingEndpoint { edge: raw.edge, missing: raw.to }),
            Some(t) => {
                let source = nodes[s];
                let target = nodes[t];
                if raw.from_field >= source.fields@.len() {
                    Err(
                        CompileError::FieldOutOfRange {
                            node: source.entity,
                            field: raw.from_field,
                            arity: source.fields@.len() as usize,
                        },
                    )
                } else if raw.to_field >= target.fields@.len() {
                    Err(
                        CompileError::FieldOutOfRange {
                            node: target.entity,
                            field: raw.to_field,
                            arity: target.fields@.len() as usize,
                        },
                    )
                } else {
                    let source_spec = source.fields@[raw.from_field as int];
                    let target_spec = target.fields@[raw.to_field as int];
                    let source_len = field_len(source, raw.from_field as int);
                    let target_len = field_len(target, raw.to_field as int);
                    if raw.from_field < source.inlet_field_count {
                        Err(
                            CompileError::WrongDirection {
                                node: source.entity,
                                field: source_spec.name,
                                expected: "an outlet",
                            },
                        )
                    } else if raw.to_field >= target.inlet_field_count {
                        Err(
                            CompileError::WrongDirection {
                                node: target.entity,
                                field: target_spec.name,
                                expected: "an inlet",
                            },
                        )
                    } else if raw.from_index >= source_len {
                        Err(
                            CompileError::ElementOutOfRange {
                                node: source.entity,
                                field: source_spec.name,
                                index: raw.from_index,
                                len: source_len as usize,
                            },
                        )
                    } else if raw.to_index >= target_len {
                        Err(
                            CompileError::ElementOutOfRange {
                                node: target.entity,
                                field: target_spec.name,
                                index: raw.to_index,
                                len: target_len as usize,
                            },
                        )
                    } else if source_spec.slot_type != target_spec.slot_type {
                        Err(
                            CompileError::TypeMismatch {
                                source: source.entity,
                                source_field: source_spec.name,
                                source_type: source_spec.slot_type_path,
                                target: target.entity,
                                target_field: target_spec.name,
                                target_type: target_spec.slot_type_path,
                            },
                        )
                    } else {
                        let target_slot = node_base(nodes, t) + field_offset(target, raw.to_field as int)
                            + raw.to_index;
                        let source_slot = node_base(nodes, s) + field_offset(source, raw.from_field as int)
                            + raw.from_index;
                        let spatial = target_spec.kind == FieldKind::Product { spatial: true };
                        match recorded(st.filled, target_slot) {
                            Some(first) => Err(
                                CompileError::InletAlreadyConnected {
                                    target: target.entity,
                                    field: target_spec.name,
                                    index: raw.to_index,
                                    first,
                                    second: source.entity,
                                },
                            ),
                            None => if spatial && recorded(st.spatial, s) is Some {
                                Err(
                                    CompileError::SpatialFanOut {
                                        child: source.entity,
                                        first: recorded(st.spatial, s)->0,
                                        second: target.entity,
                                    },
                                )
                            } else {
                                let edge = ValidEdge {
                                    source_idx: s as usize,
                                    target_idx: t as usize,
                                    source_slot: source_slot as usize,
                                    target_slot: target_slot as usize,
                                    target_local: (target_slot - node_base(nodes, t)) as usize,
                                    spatial,
                                };
                                Ok(
                                    EdgeState {
                                        filled: st.filled.push((target_slot as usize, source.entity)),
                                        spatial: if spatial {
                                            st.spatial.push((s as usize, target.entity))
                                        } else {
                                            st.spatial
                                        },
                                        parent_of: if spatial {
                                            st.parent_of.update(s, Some(t as usize))
                                        } else {
                                            st.parent_of
                                        },
                                        valid: st.valid.push(edge),
                                    },
                                )
                            },
                        }
                    }
                }
            },
        },
    }
}

/// The edge pass's starting state: nothing filled, no parents.
pub open spec fn edge_start(nodes: Seq<CompileNode>) -> EdgeState {
    EdgeState {
        filled: Seq::empty(),
        spatial: Seq::empty(),
        parent_of: Seq::new(nodes.len(), |i: int| None),
        valid: Seq::empty(),
    }
}

/// Every edge validated in order: the final state, or the first refusal.
pub open spec fn edge_pass(nodes: Seq<CompileNode>, edges: Seq<RawEdge>) -> Result<EdgeState, CompileError>
    decreases edges.len(),
{
    if edges.len() == 0 {
        Ok(edge_start(nodes))
    } else {
        match edge_pass(nodes, edges.drop_last()) {
            Err(e) => Err(e),
            Ok(st) => edge_step(nodes, st, edges.last()),
        }
    }
}

/// The layouts are the nodes' layouts, one after the other, and all slots fit.
pub open spec fn laid_out(nodes: Seq<CompileNode>, layouts: Seq<Layout>) -> bool {
    &&& layouts.len() == nodes.len()
    &&& fields_ordered(nodes)
    &&& node_base(nodes, nodes.len() as int) <= usize::MAX
    &&& forall|i: int| 0 <= i < nodes.len() ==> is_layout(nodes[i], node_base(nodes, i) as int, #[trigger] layouts[i])
}

/// A slot of field `o` of node `i` lies inside the arena.
proof fn lemma_slot_in_arena(nodes: Seq<CompileNode>, i: int, o: int, k: int)
    requires
        0 <= i < nodes.len(),
        0 <= o < nodes[i].fields@.len(),
        0 <= k < field_len(nodes[i], o),
    ensures
        field_offset(nodes[i], o) + k < slot_count(nodes[i]),
        node_base(nodes, i) + field_offset(nodes[i], o) + k < node_base(nodes, nodes.len() as int),
{
    lemma_offset_monotone(nodes[i], o + 1, nodes[i].fields@.len() as int);
    lemma_base_monotone(nodes, i + 1, nodes.len() as int);
}

/// Validates one edge against the layout and records it.
fn validate_edge(
    nodes: &[CompileNode],
    layouts: &[Layout],
    filled: &mut Vec<(usize, u64)>,
    spatial_used: &mut Vec<(usize, u64)>,
    parent_of: &mut Vec<Option<usize>>,
    valid: &mut Vec<ValidEdge>,
    raw: RawEdge,
) -> (r: Result<(), CompileError>)
    requires
        laid_out(nodes@, layouts@),
        old(parent_of)@.len() == nodes@.len(),
    ensures
        final(parent_of)@.len() == nodes@.len(),
        (forall|j: int| 0 <= j < nodes@.len() ==> (#[trigger] old(parent_of)@[j] matches Some(p) ==> p < nodes@.len()))
            ==> (forall|j: int| 0 <= j < nodes@.len() ==> (#[trigger] final(parent_of)@[j] matches Some(p) ==> p
            < nodes@.len())),
        match edge_step(
            nodes@,
            EdgeState { filled: old(filled)@, spatial: old(spatial_used)@, parent_of: old(parent_of)@, valid: old(valid)@ },
            raw,
        ) {
            Err(e) => r == Err::<(), CompileError>(e),
            Ok(st) => r is Ok && final(filled)@ == st.filled && final(spatial_used)@ == st.spatial && final(parent_of)@
                == st.parent_of && final(valid)@ == st.valid,
        },
{
    let s = match find_node(nodes, raw.from) {
        None => return Err(CompileError::MissingEndpoint { edge: raw.edge, missing: raw.from }),
        Some(s) => s,
    };
    let t = match find_node(nodes, raw.to) {
        None => return Err(CompileError::MissingEndpoint { edge: raw.edge, missing: raw.to }),
        Some(t) => t,
    };
    let source = &nodes[s];
    let target = &nodes[t];
    let from_field = raw.from_field as usize;
    let to_field = raw.to_field as usize;
    if from_field >= source.fields.len() {
        return Err(
            CompileError::FieldOutOfRange { node: source.entity, field: raw.from_field, arity: source.fields.len() },
        );
    }
    if to_field >= target.fields.len() {
        return Err(
            CompileError::FieldOutOfRange { node: target.entity, field: raw.to_field, arity: target.fields.len() },
        );
    }
    let source_spec = &source.fields[from_field];
    let target_spec = &target.fields[to_field];
    if from_field < source.inlet_field_count {
        return Err(CompileError::WrongDirection { node: source.entity, field: source_spec.name, expected: "an outlet" });
    }
    if to_field >= target.inlet_field_count {
        return Err(CompileError::WrongDirection { node: target.entity, field: target_spec.name, expected: "an inlet" });
    }
    let source_layout = &layouts[s];
    let target_layout = &layouts[t];
    proof {
        assert(is_layout(nodes@[s as int], node_base(nodes@, s as int) as int, layouts@[s as int]));
        assert(is_layout(nodes@[t as int], node_base(nodes@, t as int) as int, layouts@[t as int]));
    }
    let source_len = source_layout.field_lens[from_field];
    if (raw.from_index as usize) >= source_len {
        return Err(
            CompileError::ElementOutOfRange {
                node: source.entity,
                field: source_spec.name,
                index: raw.from_index,
                len: source_len,
            },
        );
    }
    let target_len = target_layout.field_lens[to_field];
    if (raw.to_index as usize) >= target_len {
        return Err(
            CompileError::ElementOutOfRange {
                node: target.entity,
                field: target_spec.name,
                index: raw.to_index,
                len: target_len,
            },
        );
    }
    if !same_type(&source_spec.slot_type, &target_spec.slot_type) {
        return Err(
            CompileError::TypeMismatch {
                source: source.entity,
                source_field: source_spec.name,
                source_type: source_spec.slot_type_path,
                target: target.entity,
                target_field: target_spec.name,
                target_type: target_spec.slot_type_path,
            },
        );
    }
    proof {
        lemma_slot_in_arena(nodes@, t as int, to_field as int, raw.to_index as int);
        lemma_slot_in_arena(nodes@, s as int, from_field as int, raw.from_index as int);
    }
    let target_slot = target_layout.base + target_layout.field_offsets[to_field] + raw.to_index as usize;
    let source_slot = source_layout.base + source_layout.field_offsets[from_field] + raw.from_index as usize;
    match find_recorded(filled, target_slot) {
        Some(first) => {
            return Err(
                CompileError::InletAlreadyConnected {
                    target: target.entity,
                    field: target_spec.name,
                    index: raw.to_index,
                    first,
                    second: source.entity,
                },
            );
        },
        None => {},
    }
    let spatial = match target_spec.kind {
        FieldKind::Product { spatial } => spatial,
        _ => false,
    };
    if spatial {
        match find_recorded(spatial_used, s) {
            Some(first) => {
                return Err(CompileError::SpatialFanOut { child: source.entity, first, second: target.entity });
            },
            None => {},
        }
    }
    filled.push((target_slot, source.entity));
    if spatial {
        spatial_used.push((s, target.entity));
        parent_of.set(s, Some(t));
    }
    valid.push(
        ValidEdge {
            source_idx: s,
            target_idx: t,
            source_slot,
            target_slot,
            target_local: target_slot - target_layout.base,
            spatial,
        },
    );
    Ok(())
}

/// Validates every edge in order.
fn validate_edges(nodes: &[CompileNode], layouts: &[Layout], edges: &[RawEdge]) -> (r: Result<
    (Vec<Option<usize>>, Vec<ValidEdge>),
    CompileError,
>)
    requires
        laid_out(nodes@, layouts@),
    ensures
        match edge_pass(nodes@, edges@) {
            Err(e) => r == Err::<(Vec<Option<usize>>, Vec<ValidEdge>), CompileError>(e),
            Ok(st) => r matches Ok((parent_of, valid)) && parent_of@ == st.parent_of && valid@ == st.valid
                && parent_of@.len() == nodes@.len() && forall|j: int| 0 <= j < nodes@.len() ==> (
                #[trigger] parent_of@[j] matches Some(p) ==> p < nodes@.len()),
        },
{
    let mut filled: Vec<(usize, u64)> = Vec::new();
    let mut spatial_used: Vec<(usize, u64)> = Vec::new();
    let mut parent_of: Vec<Option<usize>> = Vec::new();
    let mut valid: Vec<ValidEdge> = Vec::new();
    let mut i: usize = 0;
    while i < nodes.len()
        invariant
            i <= nodes@.len(),
            parent_of@ == Seq::new(i as nat, |j: int| None::<usize>),
        decreases nodes@.len() - i,
    {
        parent_of.push(None);
        proof {
            assert(parent_of@ =~= Seq::new((i + 1) as nat, |j: int| None::<usize>));
        }
        i = i + 1;
    }
    proof {
        assert(edges@.subrange(0, 0).len() == 0);
    }
    let mut k: usize = 0;
    while k < edges.len()
        invariant
            laid_out(nodes@, layouts@),
            k <= edges@.len(),
            parent_of@.len() == nodes@.len(),
            forall|j: int| 0 <= j < nodes@.len() ==> (#[trigger] parent_of@[j] matches Some(p) ==> p < nodes@.len()),
            edge_pass(nodes@, edges@.subrange(0, k as int)) == Ok::<EdgeState, CompileError>(
                EdgeState { filled: filled@, spatial: spatial_used@, parent_of: parent_of@, valid: valid@ },
            ),
        decreases edges@.len() - k,
    {
        proof {
            assert(edges@.subrange(0, k + 1).drop_last() =~= edges@.subrange(0, k as int));
            assert(edges@.subrange(0, k + 1).last() == edges@[k as int]);
        }
        match validate_edge(nodes, layouts, &mut filled, &mut spatial_used, &mut parent_of, &mut valid, edges[k]) {
            Err(e) => {
                proof {
                    lemma_edge_error_sticks(nodes@, edges@, k + 1);
                }
                return Err(e);
            },
            Ok(()) => {},
        }
        k = k + 1;
    }
    proof {
        assert(edges@.subrange(0, edges@.len() as int) =~= edges@);
    }
    Ok((parent_of, valid))
}

/// Once a prefix of the edges is refused, so is every longer one, with the
/// same refusal.
proof fn lemma_edge_error_sticks(nodes: Seq<CompileNode>, edges: Seq<RawEdge>, k: int)
    requires
        0 <= k <= edges.len(),
        edge_pass(nodes, edges.subrange(0, k)) is Err,
    ensures
        edge_pass(nodes, edges) == edge_pass(nodes, edges.subrange(0, k)),
    decreases edges.len() - k,
{
    if k < edges.len() {
        assert(edges.subrange(0, k + 1).drop_last() =~= edges.subrange(0, k));
        lemma_edge_error_sticks(nodes, edges, k + 1);
    } else {
        assert(edges.subrange(0, k) =~= edges);
    }
}


/// A found node index is in range.
proof fn lemma_node_index_in_range(nodes: Seq<CompileNode>, e: u64)
    ensures
        node_index(nodes, e) matches Some(i) ==> 0 <= i < nodes.len(),
{
    reveal(node_index);
}

/// Nothing is recorded for `key` only where no entry has that key.
proof fn lemma_unrecorded(list: Seq<(usize, u64)>, key: int)
    ensures
        recorded(list, key) is None <==> forall|k: int| 0 <= k < list.len() ==> (#[trigger] list[k]).0 != key,
    decreases list.len(),
{
    if list.len() > 0 {
        let rest = list.drop_last();
        lemma_unrecorded(rest, key);
        if forall|k: int| 0 <= k < list.len() ==> (#[trigger] list[k]).0 != key {
            assert(list[list.len() - 1].0 != key);
            assert forall|k: int| 0 <= k < rest.len() implies (#[trigger] rest[k]).0 != key by {
                assert(rest[k] == list[k]);
            }
        }
        if recorded(list, key) is None {
            assert forall|k: int| 0 <= k < list.len() implies (#[trigger] list[k]).0 != key by {
                if k < list.len() - 1 {
                    assert(rest[k] == list[k]);
                }
            }
        }
    }
}

/// What every validated edge satisfies: both ends are nodes, the slot written
/// lies inside its node, and no two edges write one slot.
pub open spec fn edges_fit(nodes: Seq<CompileNode>, st: EdgeState) -> bool {
    &&& st.filled.len() == st.valid.len()
    &&& st.parent_of.len() == nodes.len()
    &&& forall|k: int| 0 <= k < st.valid.len() ==> (#[trigger] st.filled[k]).0 == st.valid[k].target_slot
    &&& valid_fits(nodes, st.valid)
}

/// Both ends of every edge are nodes, the slot each writes lies inside its
/// target node, and no two edges write one slot.
pub open spec fn valid_fits(nodes: Seq<CompileNode>, valid: Seq<ValidEdge>) -> bool {
    &&& forall|k: int|
        0 <= k < valid.len() ==> {
            let e = #[trigger] valid[k];
            &&& e.source_idx < nodes.len()
            &&& e.target_idx < nodes.len()
            &&& e.target_local < slot_count(nodes[e.target_idx as int])
            &&& e.target_slot == node_base(nodes, e.target_idx as int) + e.target_local
        }
    &&& forall|j: int, k: int|
        0 <= j < k < valid.len() ==> (#[trigger] valid[j]).target_slot != (#[trigger] valid[k]).target_slot
}

/// Every state the edge pass reaches satisfies [`edges_fit`].
proof fn lemma_edge_pass_fits(nodes: Seq<CompileNode>, edges: Seq<RawEdge>)
    requires
        nodes.len() <= usize::MAX,
        node_base(nodes, nodes.len() as int) <= usize::MAX,
        edge_pass(nodes, edges) is Ok,
    ensures
        edges_fit(nodes, edge_pass(nodes, edges)->Ok_0),
    decreases edges.len(),
{
    if edges.len() > 0 {
        let rest = edges.drop_last();
        lemma_edge_pass_fits(nodes, rest);
        let st = edge_pass(nodes, rest)->Ok_0;
        let raw = edges.last();
        let st2 = edge_pass(nodes, edges)->Ok_0;
        assert(edge_step(nodes, st, raw) == Ok::<EdgeState, CompileError>(st2));
        lemma_node_index_in_range(nodes, raw.from);
        lemma_node_index_in_range(nodes, raw.to);
        let s = node_index(nodes, raw.from)->0;
        let t = node_index(nodes, raw.to)->0;
        let target = nodes[t];
        let source = nodes[s];
        lemma_slot_in_arena(nodes, t, raw.to_field as int, raw.to_index as int);
        lemma_slot_in_arena(nodes, s, raw.from_field as int, raw.from_index as int);
        let target_slot = node_base(nodes, t) + field_offset(target, raw.to_field as int) + raw.to_index;
        lemma_unrecorded(st.filled, target_slot);
        let n = st.valid.len();
        assert(st2.valid.len() == n + 1);
        assert(st2.valid[n as int].target_slot == target_slot);
        assert forall|k: int| 0 <= k < n implies #[trigger] st2.valid[k] == st.valid[k] && st2.filled[k] == st.filled[k] by {}
        assert forall|j: int, k: int| 0 <= j < k < st2.valid.len() implies (#[trigger] st2.valid[j]).target_slot
            != (#[trigger] st2.valid[k]).target_slot by {
            if k == n {
                assert(st.filled[j].0 == st.valid[j].target_slot);
                assert(st.filled[j].0 != target_slot);
            } else {
                assert(st.valid[j].target_slot != st.valid[k].target_slot);
            }
        }
        assert forall|k: int| 0 <= k < st2.valid.len() implies (#[trigger] st2.filled[k]).0 == st2.valid[k].target_slot by {
            if k < n {
                assert(st.filled[k].0 == st.valid[k].target_slot);
            }
        }
        let e = st2.valid[n as int];
        assert(e.source_idx < nodes.len());
        assert(e.target_idx < nodes.len());
        assert(e.target_local < slot_count(nodes[e.target_idx as int]));
        assert(e.target_slot == node_base(nodes, e.target_idx as int) + e.target_local);
        assert(st2.parent_of.len() == nodes.len());
        assert forall|k: int| 0 <= k < st2.valid.len() implies {
            let e = #[trigger] st2.valid[k];
            &&& e.source_idx < nodes.len()
            &&& e.target_idx < nodes.len()
            &&& e.target_local < slot_count(nodes[e.target_idx as int])
            &&& e.target_slot == node_base(nodes, e.target_idx as int) + e.target_local
        } by {
            if k < n {
                assert(st2.valid[k] == st.valid[k]);
            }
        }
    }
}

/// The ordering arcs of the validated edges: one per non-spatial edge, from
/// its source node to its target node, in edge order.
pub open spec fn ordering_arcs(valid: Seq<ValidEdge>) -> Seq<(usize, usize)>
    decreases valid.len(),
{
    if valid.len() == 0 {
        Seq::empty()
    } else {
        let rest = ordering_arcs(valid.drop_last());
        if valid.last().spatial {
            rest
        } else {
            rest.push((valid.last().source_idx, valid.last().target_idx))
        }
    }
}

/// The ordering arcs of `valid` run between nodes below `n` when every edge does.
proof fn lemma_arcs_in_range(valid: Seq<ValidEdge>, n: int)
    requires
        forall|k: int| 0 <= k < valid.len() ==> (#[trigger] valid[k]).source_idx < n && valid[k].target_idx < n,
    ensures
        forall|i: int|
            0 <= i < ordering_arcs(valid).len() ==> (#[trigger] ordering_arcs(valid)[i]).0 < n && ordering_arcs(
                valid,
            )[i].1 < n,
    decreases valid.len(),
{
    if valid.len() > 0 {
        let rest = valid.drop_last();
        assert forall|k: int| 0 <= k < rest.len() implies (#[trigger] rest[k]).source_idx < n && rest[k].target_idx
            < n by {
            assert(rest[k] == valid[k]);
        }
        lemma_arcs_in_range(rest, n);
        assert(valid.last() == valid[valid.len() - 1]);
        let ra = ordering_arcs(rest);
        let a = ordering_arcs(valid);
        assert forall|i: int| 0 <= i < a.len() implies (#[trigger] a[i]).0 < n && a[i].1 < n by {
            if i < ra.len() {
                assert(a[i] == ra[i]);
            }
        }
    }
}

/// The ordering arcs of `valid`.
fn arcs_of(valid: &Vec<ValidEdge>) -> (r: Vec<(usize, usize)>)
    ensures
        r@ == ordering_arcs(valid@),
{
    let mut r: Vec<(usize, usize)> = Vec::new();
    let mut k: usize = 0;
    proof {
        assert(valid@.subrange(0, 0) =~= Seq::<ValidEdge>::empty());
    }
    while k < valid.len()
        invariant
            k <= valid@.len(),
            r@ == ordering_arcs(valid@.subrange(0, k as int)),
        decreases valid@.len() - k,
    {
        proof {
            assert(valid@.subrange(0, k + 1).drop_last() =~= valid@.subrange(0, k as int));
            assert(valid@.subrange(0, k + 1).last() == valid@[k as int]);
        }
        let e = valid[k];
        if !e.spatial {
            r.push((e.source_idx, e.target_idx));
        }
        k = k + 1;
    }
    proof {
        assert(valid@.subrange(0, valid@.len() as int) =~= valid@);
    }
    r
}


/// The slots of field `o` of `node` laid out at `base`, each with the
/// field's ordinal.
pub open spec fn field_slots(node: CompileNode, base: int, o: int) -> Seq<(usize, usize)> {
    Seq::new(field_len(node, o), |k: int| ((base + field_offset(node, o) + k) as usize, o as usize))
}

/// Whether a field of kind `kind` is picked: an event field when `events`,
/// a product field otherwise.
pub open spec fn picked(kind: FieldKind, events: bool) -> bool {
    if events {
        kind is Events
    } else {
        kind is Product
    }
}

/// The slots, with their ordinals, of those of the first `o` fields of
/// `node` that are picked, in field order.
pub open spec fn kind_slots(node: CompileNode, base: int, o: int, events: bool) -> Seq<(usize, usize)>
    decreases o,
{
    if o <= 0 {
        Seq::empty()
    } else {
        kind_slots(node, base, o - 1, events) + if picked(node.fields@[o - 1].kind, events) {
            field_slots(node, base, o - 1)
        } else {
            Seq::empty()
        }
    }
}

/// The slots, with their ordinals, of the picked fields among the first
/// `upto` fields of `node`.
fn kind_slots_of(node: &CompileNode, layout: &Layout, upto: usize, events: bool) -> (r: Vec<(usize, usize)>)
    requires
        is_layout(*node, layout.base as int, *layout),
        upto <= node.fields@.len(),
        layout.base + slot_count(*node) <= usize::MAX,
    ensures
        r@ == kind_slots(*node, layout.base as int, upto as int, events),
{
    let ghost base = layout.base as int;
    let mut r: Vec<(usize, usize)> = Vec::new();
    let mut o: usize = 0;
    while o < upto
        invariant
            is_layout(*node, base, *layout),
            base == layout.base,
            upto <= node.fields@.len(),
            layout.base + slot_count(*node) <= usize::MAX,
            o <= upto,
            r@ == kind_slots(*node, base, o as int, events),
        decreases upto - o,
    {
        let take = match node.fields[o].kind {
            FieldKind::Events => events,
            FieldKind::Product { .. } => !events,
            FieldKind::Value => false,
        };
        assert(take == picked(node.fields@[o as int].kind, events));
        let ghost before = r@;
        if take {
            let offset = layout.field_offsets[o];
            let len = layout.field_lens[o];
            proof {
                lemma_offset_monotone(*node, o + 1, node.fields@.len() as int);
            }
            let mut k: usize = 0;
            while k < len
                invariant
                    k <= len,
                    len == field_len(*node, o as int),
                    offset == field_offset(*node, o as int),
                    base == layout.base,
                    base + offset + len <= usize::MAX,
                    r@ == before + field_slots(*node, base, o as int).subrange(0, k as int),
                decreases len - k,
            {
                r.push((layout.base + offset + k, o));
                proof {
                    assert(field_slots(*node, base, o as int).subrange(0, k + 1) =~= field_slots(
                        *node,
                        base,
                        o as int,
                    ).subrange(0, k as int).push(((base + offset + k) as usize, o)));
                }
                k = k + 1;
            }
            proof {
                assert(field_slots(*node, base, o as int).subrange(0, len as int) =~= field_slots(
                    *node,
                    base,
                    o as int,
                ));
            }
        } else {
            proof {
                assert(r@ =~= before + Seq::<(usize, usize)>::empty());
            }
        }
        o = o + 1;
    }
    r
}


/// Some validated edge into node `i` writes the node's local slot `l`.
pub open spec fn feeds_slot(valid: Seq<ValidEdge>, i: int, l: int) -> bool {
    exists|k: int| 0 <= k < valid.len() && (#[trigger] valid[k]).target_idx == i && valid[k].target_local == l
}

/// `c` is the `(source slot, target slot)` copy of a validated edge into
/// node `i`.
pub open spec fn is_copy(valid: Seq<ValidEdge>, i: int, c: (usize, usize)) -> bool {
    exists|k: int|
        0 <= k < valid.len() && (#[trigger] valid[k]).target_idx == i && c == (valid[k].source_slot, valid[k].target_slot)
}

/// The copies run in strictly ascending order of the slot they write.
pub open spec fn ascending_by_dest(copies: Seq<(usize, usize)>) -> bool {
    forall|a: int, b: int| 0 <= a < b < copies.len() ==> (#[trigger] copies[a]).1 < (#[trigger] copies[b]).1
}

/// Inserts `c` where its target slot belongs.
fn insert_by_dest(copies: &mut Vec<(usize, usize)>, c: (usize, usize))
    requires
        ascending_by_dest(old(copies)@),
        forall|i: int| 0 <= i < old(copies)@.len() ==> (#[trigger] old(copies)@[i]).1 != c.1,
    ensures
        ascending_by_dest(final(copies)@),
        forall|x: (usize, usize)| #[trigger] final(copies)@.contains(x) <==> old(copies)@.contains(x) || x == c,
{
    let ghost before = copies@;
    let mut p: usize = 0;
    while p < copies.len() && copies[p].1 < c.1
        invariant
            copies@ == before,
            p <= copies@.len(),
            forall|i: int| 0 <= i < p ==> (#[trigger] copies@[i]).1 < c.1,
        decreases copies@.len() - p,
    {
        p = p + 1;
    }
    copies.insert(p, c);
    proof {
        let after = copies@;
        assert(after.len() == before.len() + 1);
        assert forall|i: int| 0 <= i < p implies #[trigger] after[i] == before[i] by {}
        assert(after[p as int] == c);
        assert forall|i: int| p < i < after.len() implies #[trigger] after[i] == before[i - 1] by {}
        assert forall|i: int| p < i < after.len() implies (#[trigger] after[i]).1 > c.1 by {
            assert(before[p as int].1 > c.1);
            if i - 1 > p {
                assert(before[p as int].1 < before[i - 1].1);
            }
        }
        assert forall|a: int, b: int| 0 <= a < b < after.len() implies (#[trigger] after[a]).1 < (
        #[trigger] after[b]).1 by {
            if b < p {
                assert(before[a].1 < before[b].1);
            } else if b == p {
            } else if a < p {
                assert(after[a].1 < c.1);
            } else if a == p {
            } else {
                assert(before[a - 1].1 < before[b - 1].1);
            }
        }
        assert forall|x: (usize, usize)| #[trigger] after.contains(x) <==> before.contains(x) || x == c by {
            if after.contains(x) {
                let i = choose|i: int| 0 <= i < after.len() && after[i] == x;
                if i < p {
                    assert(before[i] == x);
                } else if i > p {
                    assert(before[i - 1] == x);
                }
            }
            if before.contains(x) {
                let i = choose|i: int| 0 <= i < before.len() && before[i] == x;
                if i < p {
                    assert(after[i] == x);
                } else {
                    assert(after[i + 1] == x);
                }
            }
            if x == c {
                assert(after[p as int] == x);
            }
        }
    }
}

/// For node `i`: which of its `slot_count` local slots an edge drives, and
/// the copies that feed it, ascending by the slot written.
fn incoming_of(valid: &Vec<ValidEdge>, i: usize, slot_count: usize) -> (r: (Vec<bool>, Vec<(usize, usize)>))
    requires
        forall|k: int| 0 <= k < valid@.len() && (#[trigger] valid@[k]).target_idx == i ==> valid@[k].target_local < slot_count,
        forall|j: int, k: int|
            0 <= j < k < valid@.len() ==> (#[trigger] valid@[j]).target_slot != (#[trigger] valid@[k]).target_slot,
    ensures
        r.0@.len() == slot_count,
        forall|l: int| 0 <= l < slot_count ==> (#[trigger] r.0@[l] <==> feeds_slot(valid@, i as int, l)),
        ascending_by_dest(r.1@),
        forall|c: (usize, usize)| #[trigger] r.1@.contains(c) <==> is_copy(valid@, i as int, c),
{
    let mut connected: Vec<bool> = Vec::new();
    let mut l: usize = 0;
    while l < slot_count
        invariant
            l <= slot_count,
            connected@.len() == l,
            forall|m: int| 0 <= m < l ==> !(#[trigger] connected@[m]),
        decreases slot_count - l,
    {
        connected.push(false);
        l = l + 1;
    }
    let mut copies: Vec<(usize, usize)> = Vec::new();
    let mut k: usize = 0;
    while k < valid.len()
        invariant
            k <= valid@.len(),
            forall|q: int| 0 <= q < valid@.len() && (#[trigger] valid@[q]).target_idx == i ==> valid@[q].target_local
                < slot_count,
            forall|j: int, q: int|
                0 <= j < q < valid@.len() ==> (#[trigger] valid@[j]).target_slot != (#[trigger] valid@[q]).target_slot,
            connected@.len() == slot_count,
            forall|m: int|
                0 <= m < slot_count ==> (#[trigger] connected@[m] <==> feeds_slot(valid@.subrange(0, k as int), i as int, m)),
            ascending_by_dest(copies@),
            forall|c: (usize, usize)| #[trigger] copies@.contains(c) <==> is_copy(valid@.subrange(0, k as int), i as int, c),
        decreases valid@.len() - k,
    {
        let e = valid[k];
        let ghost pre = valid@.subrange(0, k as int);
        let ghost post = valid@.subrange(0, k + 1);
        proof {
            assert forall|q: int| 0 <= q < k implies #[trigger] post[q] == pre[q] by {}
            assert(post[k as int] == e);
        }
        if e.target_idx == i {
            proof {
                assert forall|q: int| 0 <= q < copies@.len() implies (#[trigger] copies@[q]).1 != e.target_slot by {
                    assert(copies@.contains(copies@[q]));
                    let w = choose|w: int| 0 <= w < pre.len() && (#[trigger] pre[w]).target_idx == i && copies@[q] == (
                    pre[w].source_slot, pre[w].target_slot);
                    assert(valid@[w].target_slot != valid@[k as int].target_slot);
                }
            }
            connected.set(e.target_local, true);
            insert_by_dest(&mut copies, (e.source_slot, e.target_slot));
        }
        proof {
            assert forall|m: int| 0 <= m < slot_count implies (#[trigger] connected@[m] <==> feeds_slot(post, i as int, m)) by {
                if feeds_slot(pre, i as int, m) {
                    let w = choose|w: int| 0 <= w < pre.len() && (#[trigger] pre[w]).target_idx == i && pre[w].target_local == m;
                    assert(post[w] == pre[w]);
                }
                if feeds_slot(post, i as int, m) {
                    let w = choose|w: int| 0 <= w < post.len() && (#[trigger] post[w]).target_idx == i && post[w].target_local == m;
                    if w < k {
                        assert(pre[w] == post[w]);
                    }
                }
            }
            assert forall|c: (usize, usize)| #[trigger] copies@.contains(c) <==> is_copy(post, i as int, c) by {
                if is_copy(pre, i as int, c) {
                    let w = choose|w: int| 0 <= w < pre.len() && (#[trigger] pre[w]).target_idx == i && c == (pre[w].source_slot, pre[w].target_slot);
                    assert(post[w] == pre[w]);
                }
                if is_copy(post, i as int, c) {
                    let w = choose|w: int| 0 <= w < post.len() && (#[trigger] post[w]).target_idx == i && c == (post[w].source_slot, post[w].target_slot);
                    if w < k {
                        assert(pre[w] == post[w]);
                    }
                }
            }
        }
        k = k + 1;
    }
    proof {
        assert(valid@.subrange(0, valid@.len() as int) =~= valid@);
    }
    (connected, copies)
}


/// One node's compiled plan.
#[derive(Debug)]
pub struct NodePlan {
    /// The node's index in the compiler's input.
    pub node: usize,
    /// The node's entity.
    pub entity: u64,
    /// Its registered node type.
    pub node_type: NodeTypeId,
    /// How many of its fields are inlets.
    pub inlet_field_count: usize,
    /// Its slot layout.
    pub layout: Layout,
    /// Per slot, relative to the node's base: whether an edge drives it.
    pub connected: Vec<bool>,
    /// Absolute `(source slot, target slot)` for every edge into the node,
    /// ascending by target slot.
    pub copies: Vec<(usize, usize)>,
    /// Absolute slot and field ordinal of every product inlet slot, filled or
    /// not, in field order.
    pub product_inlets: Vec<(usize, usize)>,
}

/// `p` is the plan of node `i` under the validated edges `valid`.
pub open spec fn plan_of(nodes: Seq<CompileNode>, valid: Seq<ValidEdge>, i: int, p: NodePlan) -> bool {
    let node = nodes[i];
    let base = node_base(nodes, i) as int;
    &&& p.node == i
    &&& p.entity == node.entity
    &&& p.node_type == node.node_type
    &&& p.inlet_field_count == node.inlet_field_count
    &&& is_layout(node, base, p.layout)
    &&& p.connected@.len() == slot_count(node)
    &&& forall|l: int| 0 <= l < slot_count(node) ==> (#[trigger] p.connected@[l] <==> feeds_slot(valid, i, l))
    &&& ascending_by_dest(p.copies@)
    &&& forall|c: (usize, usize)| #[trigger] p.copies@.contains(c) <==> is_copy(valid, i, c)
    &&& p.product_inlets@ == kind_slots(node, base, node.inlet_field_count as int, false)
}

/// Node `i` ends where node `i + 1` starts, inside the arena.
proof fn lemma_node_fits(nodes: Seq<CompileNode>, i: int)
    requires
        0 <= i < nodes.len(),
    ensures
        node_base(nodes, i) + slot_count(nodes[i]) <= node_base(nodes, nodes.len() as int),
{
    lemma_base_monotone(nodes, i + 1, nodes.len() as int);
}

/// Builds node `i`'s plan.
fn plan_for(nodes: &[CompileNode], layouts: &[Layout], valid: &Vec<ValidEdge>, i: usize) -> (p: NodePlan)
    requires
        laid_out(nodes@, layouts@),
        valid_fits(nodes@, valid@),
        i < nodes@.len(),
    ensures
        plan_of(nodes@, valid@, i as int, p),
{
    let node = &nodes[i];
    proof {
        lemma_node_fits(nodes@, i as int);
        assert(is_layout(nodes@[i as int], node_base(nodes@, i as int) as int, layouts@[i as int]));
        assert(node.inlet_field_count <= node.fields@.len());
    }
    let layout = layout_of(node, layouts[i].base);
    proof {
        assert forall|k: int| 0 <= k < valid@.len() && (#[trigger] valid@[k]).target_idx == i implies valid@[k].target_local
            < layout.slot_count by {}
    }
    let (connected, copies) = incoming_of(valid, i, layout.slot_count);
    let product_inlets = kind_slots_of(node, &layout, node.inlet_field_count, false);
    NodePlan {
        node: i,
        entity: node.entity,
        node_type: node.node_type,
        inlet_field_count: node.inlet_field_count,
        layout,
        connected,
        copies,
        product_inlets,
    }
}

/// Every event slot of the first `i` nodes, as `(slot, node index, field
/// ordinal)`, in node order and then field order: ascending by slot.
pub open spec fn event_slots(nodes: Seq<CompileNode>, i: int) -> Seq<(usize, usize, usize)>
    decreases i,
{
    if i <= 0 {
        Seq::empty()
    } else {
        event_slots(nodes, i - 1) + kind_slots(
            nodes[i - 1],
            node_base(nodes, i - 1) as int,
            nodes[i - 1].fields@.len() as int,
            true,
        ).map_values(|p: (usize, usize)| (p.0, (i - 1) as usize, p.1))
    }
}

/// Every event slot in the arena, with its node and field.
fn clears_of(nodes: &[CompileNode], layouts: &[Layout]) -> (r: Vec<(usize, usize, usize)>)
    requires
        laid_out(nodes@, layouts@),
    ensures
        r@ == event_slots(nodes@, nodes@.len() as int),
{
    let mut r: Vec<(usize, usize, usize)> = Vec::new();
    let mut i: usize = 0;
    while i < nodes.len()
        invariant
            i <= nodes@.len(),
            laid_out(nodes@, layouts@),
            r@ == event_slots(nodes@, i as int),
        decreases nodes@.len() - i,
    {
        proof {
            lemma_node_fits(nodes@, i as int);
            assert(is_layout(nodes@[i as int], node_base(nodes@, i as int) as int, layouts@[i as int]));
        }
        let slots = kind_slots_of(&nodes[i], &layouts[i], nodes[i].fields.len(), true);
        let ghost before = r@;
        let ghost tagged = slots@.map_values(|p: (usize, usize)| (p.0, i, p.1));
        let mut k: usize = 0;
        while k < slots.len()
            invariant
                k <= slots@.len(),
                tagged == slots@.map_values(|p: (usize, usize)| (p.0, i, p.1)),
                r@ == before + tagged.subrange(0, k as int),
            decreases slots@.len() - k,
        {
            let (slot, ordinal) = slots[k];
            r.push((slot, i, ordinal));
            proof {
                assert(tagged.subrange(0, k + 1) =~= tagged.subrange(0, k as int).push((slot, i, ordinal)));
            }
            k = k + 1;
        }
        proof {
            assert(tagged.subrange(0, slots@.len() as int) =~= tagged);
        }
        i = i + 1;
    }
    r
}

/// Per node index, the position of its plan in `order`.
fn plan_positions(order: &Vec<usize>) -> (r: Vec<usize>)
    requires
        order@.no_duplicates(),
        forall|k: int| 0 <= k < order@.len() ==> (#[trigger] order@[k]) < order@.len(),
    ensures
        r@.len() == order@.len(),
        forall|k: int| 0 <= k < order@.len() ==> #[trigger] r@[order@[k] as int] == k,
{
    let n = order.len();
    let mut r: Vec<usize> = Vec::new();
    let mut i: usize = 0;
    while i < n
        invariant
            i <= n,
            r@.len() == i,
        decreases n - i,
    {
        r.push(0);
        i = i + 1;
    }
    let mut k: usize = 0;
    while k < n
        invariant
            n == order@.len(),
            k <= n,
            r@.len() == n,
            order@.no_duplicates(),
            forall|q: int| 0 <= q < n ==> (#[trigger] order@[q]) < n,
            forall|q: int| 0 <= q < k ==> #[trigger] r@[order@[q] as int] == q,
        decreases n - k,
    {
        r.set(order[k], k);
        proof {
            assert forall|q: int| 0 <= q < k implies #[trigger] r@[order@[q] as int] == q by {
                assert(order@[q] != order@[k as int]);
            }
        }
        k = k + 1;
    }
    r
}

/// The compiled graph.
#[derive(Debug)]
pub struct CompiledCore {
    /// One plan per node, in compiled order.
    pub plans: Vec<NodePlan>,
    /// How many slots the arena has.
    pub slots_len: usize,
    /// Every event slot, emptied at the top of each tick: `(slot, node index,
    /// field ordinal)`, ascending by slot.
    pub clears: Vec<(usize, usize, usize)>,
    /// Per node index, the position of its plan in `plans`.
    pub plan_index_of: Vec<usize>,
    /// Per node index, the index of its parent, from the spatial edges.
    pub parent_of: Vec<Option<usize>>,
}

/// Why [`compile_outcome`] refuses, with the cycles' nodes by entity.
pub enum CompileRejection {
    /// A refusal that names no list of nodes.
    Plain(CompileError),
    /// A parenting cycle, through these entities.
    ParentCycle(Seq<u64>),
    /// An ordering cycle: the entities that could not be ordered.
    Cycle(Seq<u64>),
}

/// The entities of the nodes at `indices`.
pub open spec fn node_entities(nodes: Seq<CompileNode>, indices: Seq<int>) -> Seq<u64> {
    indices.map_values(|i: int| nodes[i].entity)
}

/// What compiling `nodes` and `edges` gives: every edge validated in order,
/// then parenting acyclicity, then one first-in-first-out topological sort
/// over the non-spatial edges. On success, the final edge state and the
/// compiled order of node indices.
pub open spec fn compile_outcome(nodes: Seq<CompileNode>, edges: Seq<RawEdge>) -> Result<
    (EdgeState, Seq<int>),
    CompileRejection,
> {
    match edge_pass(nodes, edges) {
        Err(e) => Err(CompileRejection::Plain(e)),
        Ok(st) => match first_cycle(st.parent_of, nodes.len(), 0) {
            Some(c) => Err(CompileRejection::ParentCycle(node_entities(nodes, c))),
            None => match kahn_outcome(nodes.len() as int, ordering_arcs(st.valid)) {
                Ok(order) => Ok((st, order)),
                Err(rest) => Err(CompileRejection::Cycle(node_entities(nodes, rest))),
            },
        },
    }
}

/// The entities of the nodes at `indices`.
fn entities_of(nodes: &[CompileNode], indices: &[usize]) -> (r: Vec<u64>)
    requires
        forall|i: int| 0 <= i < indices@.len() ==> (#[trigger] indices@[i] as int) < nodes@.len(),
    ensures
        r@ == node_entities(nodes@, indices@.map_values(|x: usize| x as int)),
{
    let mut r: Vec<u64> = Vec::new();
    let mut i: usize = 0;
    while i < indices.len()
        invariant
            i <= indices@.len(),
            forall|j: int| 0 <= j < indices@.len() ==> (#[trigger] indices@[j] as int) < nodes@.len(),
            r@ == node_entities(nodes@, indices@.subrange(0, i as int).map_values(|x: usize| x as int)),
        decreases indices@.len() - i,
    {
        let at = indices[i];
        r.push(nodes[at].entity);
        proof {
            assert(r@ =~= node_entities(nodes@, indices@.subrange(0, i + 1).map_values(|x: usize| x as int)));
        }
        i = i + 1;
    }
    proof {
        assert(indices@.subrange(0, indices@.len() as int) =~= indices@);
    }
    r
}

/// Compiles the graph: lays out every node's slots, validates every edge in
/// order, refuses a parenting cycle, sorts the nodes over the non-spatial
/// edges and builds one plan per node in that order.
///
/// The nodes come in the order that decides ties (by node id); an edge's
/// ends are found by entity.
pub fn compile_core(nodes: &[CompileNode], edges: &[RawEdge]) -> (r: Result<CompiledCore, CompileError>)
    requires
        nodes@.len() < usize::MAX,
        fields_ordered(nodes@),
        node_base(nodes@, nodes@.len() as int) <= usize::MAX,
    ensures
        match compile_outcome(nodes@, edges@) {
            Ok((st, order)) => r matches Ok(c) && c.slots_len == node_base(nodes@, nodes@.len() as int)
                && c.plans@.len() == order.len() && (forall|k: int|
                0 <= k < order.len() ==> plan_of(nodes@, st.valid, order[k], #[trigger] c.plans@[k]))
                && c.clears@ == event_slots(nodes@, nodes@.len() as int) && c.parent_of@ == st.parent_of
                && c.plan_index_of@.len() == nodes@.len() && (forall|k: int|
                0 <= k < order.len() ==> #[trigger] c.plan_index_of@[order[k]] == k),
            Err(CompileRejection::Plain(e)) => r == Err::<CompiledCore, CompileError>(e),
            Err(CompileRejection::ParentCycle(c)) => r matches Err(CompileError::ParentCycle { nodes: found })
                && found@ == c,
            Err(CompileRejection::Cycle(c)) => r matches Err(CompileError::Cycle { nodes: found }) && found@ == c,
        },
{
    let n = nodes.len();
    let layouts = layouts_of(nodes);
    let (parent_of, valid) = match validate_edges(nodes, layouts.as_slice(), edges) {
        Err(e) => return Err(e),
        Ok(tables) => tables,
    };
    proof {
        lemma_edge_pass_fits(nodes@, edges@);
    }
    match find_parent_cycle(parent_of.as_slice()) {
        Some(chain) => {
            let entities = entities_of(nodes, chain.as_slice());
            return Err(CompileError::ParentCycle { nodes: entities });
        },
        None => {},
    }
    let arcs = arcs_of(&valid);
    proof {
        lemma_arcs_in_range(valid@, n as int);
    }
    let order = match fifo_order(n, arcs.as_slice()) {
        Ok(order) => order,
        Err(rest) => {
            let entities = entities_of(nodes, rest.as_slice());
            return Err(CompileError::Cycle { nodes: entities });
        },
    };
    let ghost order_int = order@.map_values(|x: usize| x as int);
    proof {
        crate::kahn::lemma_fifo_order_respects_arcs(n as int, arcs@, order_int);
        assert forall|a: int, b: int| 0 <= a < b < order@.len() implies order@[a] != order@[b] by {
            assert(order_int[a] != order_int[b]);
        }
        assert forall|k: int| 0 <= k < order@.len() implies (#[trigger] order@[k]) < order@.len() by {
            assert(order_int[k] == order@[k] as int);
        }
    }
    let mut plans: Vec<NodePlan> = Vec::new();
    let mut k: usize = 0;
    while k < order.len()
        invariant
            laid_out(nodes@, layouts@),
            valid_fits(nodes@, valid@),
            order@.len() == n,
            n == nodes@.len(),
            order_int == order@.map_values(|x: usize| x as int),
            forall|q: int| 0 <= q < order@.len() ==> (#[trigger] order@[q]) < n,
            k <= order@.len(),
            plans@.len() == k,
            forall|q: int| 0 <= q < k ==> plan_of(nodes@, valid@, order_int[q], #[trigger] plans@[q]),
        decreases order@.len() - k,
    {
        let p = plan_for(nodes, layouts.as_slice(), &valid, order[k]);
        plans.push(p);
        proof {
            assert forall|q: int| 0 <= q < k + 1 implies plan_of(nodes@, valid@, order_int[q], #[trigger] plans@[q]) by {
                if q == k {
                    assert(order_int[q] == order@[q] as int);
                }
            }
        }
        k = k + 1;
    }
    let clears = clears_of(nodes, layouts.as_slice());
    let plan_index_of = plan_positions(&order);
    proof {
        lemma_base_monotone(nodes@, 0, n as int);
        assert forall|q: int| 0 <= q < order_int.len() implies #[trigger] plan_index_of@[order_int[q]] == q by {
            assert(order_int[q] == order@[q] as int);
        }
    }
    let slots_len = if n == 0 {
        0
    } else {
        proof {
            assert(is_layout(nodes@[n - 1], node_base(nodes@, n - 1) as int, layouts@[n - 1]));
            lemma_node_fits(nodes@, n - 1);
        }
        layouts[n - 1].base + layouts[n - 1].slot_count
    };
    Ok(CompiledCore { plans, slots_len, clears, plan_index_of, parent_of })
}


/// `raw` lands on a spatial product inlet: it is a parent edge.
pub open spec fn lands_on_spatial(nodes: Seq<CompileNode>, raw: RawEdge) -> bool {
    match node_index(nodes, raw.to) {
        Some(t) => raw.to_field < nodes[t].fields@.len() && nodes[t].fields@[raw.to_field as int].kind
            == FieldKind::Product { spatial: true },
        None => false,
    }
}

/// A passed edge pass validates every edge, in order, between the nodes the
/// edge names.
proof fn lemma_valid_matches_edges(nodes: Seq<CompileNode>, edges: Seq<RawEdge>)
    requires
        nodes.len() <= usize::MAX,
        node_base(nodes, nodes.len() as int) <= usize::MAX,
        edge_pass(nodes, edges) is Ok,
    ensures
        ({
            let valid = edge_pass(nodes, edges)->Ok_0.valid;
            &&& valid.len() == edges.len()
            &&& forall|k: int|
                0 <= k < edges.len() ==> node_index(nodes, (#[trigger] edges[k]).from) == Some(valid[k].source_idx as int)
                    && node_index(nodes, edges[k].to) == Some(valid[k].target_idx as int) && valid[k].spatial
                    == lands_on_spatial(nodes, edges[k])
        }),
    decreases edges.len(),
{
    if edges.len() > 0 {
        let rest = edges.drop_last();
        lemma_valid_matches_edges(nodes, rest);
        let st = edge_pass(nodes, rest)->Ok_0;
        let st2 = edge_pass(nodes, edges)->Ok_0;
        let raw = edges.last();
        assert(edge_step(nodes, st, raw) == Ok::<EdgeState, CompileError>(st2));
        lemma_node_index_in_range(nodes, raw.from);
        lemma_node_index_in_range(nodes, raw.to);
        let n = rest.len() as int;
        assert forall|k: int| 0 <= k < edges.len() implies node_index(nodes, (#[trigger] edges[k]).from) == Some(
            st2.valid[k].source_idx as int,
        ) && node_index(nodes, edges[k].to) == Some(st2.valid[k].target_idx as int) && st2.valid[k].spatial
            == lands_on_spatial(nodes, edges[k]) by {
            if k < n {
                assert(edges[k] == rest[k]);
                assert(st2.valid[k] == st.valid[k]);
            } else {
                assert(edges[k] == raw);
            }
        }
    }
}

/// Each non-spatial edge of `valid` gives an ordering arc.
proof fn lemma_arc_of_edge(valid: Seq<ValidEdge>, k: int)
    requires
        0 <= k < valid.len(),
        !valid[k].spatial,
    ensures
        exists|m: int|
            0 <= m < ordering_arcs(valid).len() && #[trigger] ordering_arcs(valid)[m] == (
                valid[k].source_idx,
                valid[k].target_idx,
            ),
    decreases valid.len(),
{
    let rest = valid.drop_last();
    let a = ordering_arcs(valid);
    if k < valid.len() - 1 {
        assert(rest[k] == valid[k]);
        lemma_arc_of_edge(rest, k);
        let m = choose|m: int|
            0 <= m < ordering_arcs(rest).len() && #[trigger] ordering_arcs(rest)[m] == (rest[k].source_idx, rest[k].target_idx);
        assert(a[m] == ordering_arcs(rest)[m]);
    } else {
        let m = ordering_arcs(rest).len() as int;
        assert(a[m] == (valid[k].source_idx, valid[k].target_idx));
    }
}

/// In a compiled graph, the node an edge reads from comes before the node it
/// writes to, unless the edge is a parent edge: a parent reads nothing from
/// its child, so parent edges do not order the nodes.
pub proof fn lemma_compiled_producer_first(nodes: Seq<CompileNode>, edges: Seq<RawEdge>, k: int)
    requires
        nodes.len() < usize::MAX,
        node_base(nodes, nodes.len() as int) <= usize::MAX,
        compile_outcome(nodes, edges) is Ok,
        0 <= k < edges.len(),
        !lands_on_spatial(nodes, edges[k]),
    ensures
        ({
            let order = compile_outcome(nodes, edges)->Ok_0.1;
            exists|i: int, j: int|
                0 <= i < j < order.len() && Some(order[i]) == node_index(nodes, edges[k].from) && Some(order[j])
                    == node_index(nodes, edges[k].to)
        }),
{
    let st = edge_pass(nodes, edges)->Ok_0;
    let order = compile_outcome(nodes, edges)->Ok_0.1;
    let n = nodes.len() as int;
    let arcs = ordering_arcs(st.valid);
    lemma_valid_matches_edges(nodes, edges);
    lemma_edge_pass_fits(nodes, edges);
    crate::kahn::lemma_fifo_order_respects_arcs(n, arcs, order);
    let e = st.valid[k];
    assert(node_index(nodes, edges[k].from) == Some(e.source_idx as int));
    lemma_arc_of_edge(st.valid, k);
    let m = choose|m: int| 0 <= m < arcs.len() && #[trigger] arcs[m] == (e.source_idx, e.target_idx);
    let t = e.target_idx as int;
    assert(0 <= t < n);
    assert(order.contains(t));
    let j = choose|j: int| 0 <= j < order.len() && order[j] == t;
    assert(order[j] == arcs[m].1);
    let i = choose|i: int| 0 <= i < j && order[i] == arcs[m].0;
    assert(0 <= i < j < order.len() && Some(order[i]) == node_index(nodes, edges[k].from) && Some(order[j])
        == node_index(nodes, edges[k].to));
}


/// The picked slots of the first `o` fields of `node` at `base` lie in
/// `base .. base + field_offset(node, o)`, strictly ascending.
proof fn lemma_kind_slots_ascending(node: CompileNode, base: int, o: int, events: bool)
    requires
        0 <= base,
        0 <= o <= node.fields@.len(),
        base + slot_count(node) <= usize::MAX,
    ensures
        ({
            let ks = kind_slots(node, base, o, events);
            &&& forall|a: int| 0 <= a < ks.len() ==> base <= (#[trigger] ks[a]).0 < base + field_offset(node, o)
            &&& forall|a: int, b: int| 0 <= a < b < ks.len() ==> (#[trigger] ks[a]).0 < (#[trigger] ks[b]).0
        }),
    decreases o,
{
    if o > 0 {
        lemma_kind_slots_ascending(node, base, o - 1, events);
        lemma_offset_monotone(node, o, node.fields@.len() as int);
        let prev = kind_slots(node, base, o - 1, events);
        let ks = kind_slots(node, base, o, events);
        if picked(node.fields@[o - 1].kind, events) {
            let fs = field_slots(node, base, o - 1);
            assert(ks == prev + fs);
            assert forall|a: int| 0 <= a < fs.len() implies (#[trigger] fs[a]).0 == base + field_offset(node, o - 1) + a by {}
            assert forall|a: int| 0 <= a < ks.len() implies base <= (#[trigger] ks[a]).0 < base + field_offset(node, o) by {
                if a >= prev.len() {
                    assert(ks[a] == fs[a - prev.len()]);
                }
            }
            assert forall|a: int, b: int| 0 <= a < b < ks.len() implies (#[trigger] ks[a]).0 < (#[trigger] ks[b]).0 by {
                if b < prev.len() {
                    assert(ks[a] == prev[a] && ks[b] == prev[b]);
                } else if a < prev.len() {
                    assert(ks[a] == prev[a] && ks[b] == fs[b - prev.len()]);
                } else {
                    assert(ks[a] == fs[a - prev.len()] && ks[b] == fs[b - prev.len()]);
                }
            }
        } else {
            assert(ks =~= prev);
        }
    }
}

/// The event slots of the first `i` nodes lie below `node_base(nodes, i)`,
/// strictly ascending.
proof fn lemma_event_slots_ascending(nodes: Seq<CompileNode>, i: int)
    requires
        0 <= i <= nodes.len(),
        node_base(nodes, nodes.len() as int) <= usize::MAX,
    ensures
        ({
            let es = event_slots(nodes, i);
            &&& forall|a: int| 0 <= a < es.len() ==> (#[trigger] es[a]).0 < node_base(nodes, i)
            &&& forall|a: int, b: int| 0 <= a < b < es.len() ==> (#[trigger] es[a]).0 < (#[trigger] es[b]).0
        }),
    decreases i,
{
    if i > 0 {
        lemma_event_slots_ascending(nodes, i - 1);
        lemma_node_fits(nodes, i - 1);
        let node = nodes[i - 1];
        let base = node_base(nodes, i - 1) as int;
        lemma_kind_slots_ascending(node, base, node.fields@.len() as int, true);
        let prev = event_slots(nodes, i - 1);
        let ks = kind_slots(node, base, node.fields@.len() as int, true);
        let tagged = ks.map_values(|p: (usize, usize)| (p.0, (i - 1) as usize, p.1));
        let es = event_slots(nodes, i);
        assert(es == prev + tagged);
        assert forall|a: int| 0 <= a < tagged.len() implies (#[trigger] tagged[a]).0 == ks[a].0 by {}
        assert forall|a: int| 0 <= a < es.len() implies (#[trigger] es[a]).0 < node_base(nodes, i) by {
            if a >= prev.len() {
                assert(es[a] == tagged[a - prev.len()]);
            }
        }
        assert forall|a: int, b: int| 0 <= a < b < es.len() implies (#[trigger] es[a]).0 < (#[trigger] es[b]).0 by {
            if b < prev.len() {
                assert(es[a] == prev[a] && es[b] == prev[b]);
            } else if a < prev.len() {
                assert(es[a] == prev[a] && es[b] == tagged[b - prev.len()]);
            } else {
                assert(es[a] == tagged[a - prev.len()] && es[b] == tagged[b - prev.len()]);
            }
        }
    }
}

/// The event slots a compiled graph clears run in strictly ascending slot
/// order, each inside the arena.
pub proof fn lemma_clears_ascending(nodes: Seq<CompileNode>)
    requires
        node_base(nodes, nodes.len() as int) <= usize::MAX,
    ensures
        ({
            let es = event_slots(nodes, nodes.len() as int);
            &&& forall|a: int| 0 <= a < es.len() ==> (#[trigger] es[a]).0 < node_base(nodes, nodes.len() as int)
            &&& forall|a: int, b: int| 0 <= a < b < es.len() ==> (#[trigger] es[a]).0 < (#[trigger] es[b]).0
        }),
{
    lemma_event_slots_ascending(nodes, nodes.len() as int);
}


/// The text that reports `e`: it names the offending nodes, fields and
/// types.
pub open spec fn compile_message(e: CompileError) -> Seq<char> {
    match e {
        CompileError::MissingEndpoint { edge, missing } => "edge "@ + entity_text(edge) + " names "@ + entity_text(
            missing,
        ) + ", which is not a node in this graph"@,
        CompileError::FieldOutOfRange { node, field, arity } => "node "@ + entity_text(node) + ": field ordinal "@
            + decimal(field as nat) + " is out of range — the node has "@ + decimal(arity as nat) + " field(s)"@,
        CompileError::ElementOutOfRange { node, field, index, len } => "node "@ + entity_text(node) + ": field `"@
            + field@ + "` has "@ + decimal(len as nat) + " slot(s), so element "@ + decimal(index as nat)
            + " does not exist — resize the Vec on the node's Inlets, or edit the edge"@,
        CompileError::WrongDirection { node, field, expected } => "node "@ + entity_text(node) + ": field `"@ + field@
            + "` is not "@ + expected@ + " — an edge runs from an outlet to an inlet"@,
        CompileError::TypeMismatch { source, source_field, source_type, target, target_field, target_type } =>
            "type mismatch: node "@ + entity_text(source) + " outlet `"@ + source_field@ + "` produces `"@
            + source_type@ + "`, but node "@ + entity_text(target) + " inlet `"@ + target_field@ + "` expects `"@
            + target_type@ + "`"@,
        CompileError::InletAlreadyConnected { target, field, index, first, second } => "node "@ + entity_text(target)
            + ": inlet `"@ + field@ + "`["@ + decimal(index as nat) + "] is already connected to node "@
            + entity_text(first) + "; a second edge from node "@ + entity_text(second)
            + " is illegal — every inlet takes exactly one edge"@,
        CompileError::SpatialFanOut { child, first, second } => "node "@ + entity_text(child) + " already has parent "@
            + entity_text(first) + "; a second parent edge to "@ + entity_text(second)
            + " is illegal — a scene node has one parent"@,
        CompileError::ParentCycle { nodes } => "parenting cycle: "@ + entities_joined(nodes@, " → "@),
        CompileError::Cycle { nodes } => "cycle: these nodes could not be ordered: "@ + entities_joined(
            nodes@,
            ", "@,
        ),
    }
}

impl CompileError {
    /// The text that reports this error, naming the offending nodes, fields
    /// and types.
    pub fn message(&self) -> (r: String)
        ensures
            r@ == compile_message(*self),
    {
        match self {
            CompileError::MissingEndpoint { edge, missing } => {
                let mut s = String::from_str("edge ");
                push_entity(&mut s, *edge);
                s.append(" names ");
                push_entity(&mut s, *missing);
                s.append(", which is not a node in this graph");
                s
            },
            CompileError::FieldOutOfRange { node, field, arity } => {
                let mut s = String::from_str("node ");
                push_entity(&mut s, *node);
                s.append(": field ordinal ");
                push_decimal(&mut s, *field as u64);
                s.append(" is out of range — the node has ");
                push_decimal(&mut s, *arity as u64);
                s.append(" field(s)");
                s
            },
            CompileError::ElementOutOfRange { node, field, index, len } => {
                let mut s = String::from_str("node ");
                push_entity(&mut s, *node);
                s.append(": field `");
                s.append(field);
                s.append("` has ");
                push_decimal(&mut s, *len as u64);
                s.append(" slot(s), so element ");
                push_decimal(&mut s, *index as u64);
                s.append(" does not exist — resize the Vec on the node's Inlets, or edit the edge");
                s
            },
            CompileError::WrongDirection { node, field, expected } => {
                let mut s = String::from_str("node ");
                push_entity(&mut s, *node);
                s.append(": field `");
                s.append(field);
                s.append("` is not ");
                s.append(expected);
                s.append(" — an edge runs from an outlet to an inlet");
                s
            },
            CompileError::TypeMismatch { source, source_field, source_type, target, target_field, target_type } => {
                let mut s = String::from_str("type mismatch: node ");
                push_entity(&mut s, *source);
                s.append(" outlet `");
                s.append(source_field);
                s.append("` produces `");
                s.append(source_type);
                s.append("`, but node ");
                push_entity(&mut s, *target);
                s.append(" inlet `");
                s.append(target_field);
                s.append("` expects `");
                s.append(target_type);
                s.append("`");
                s
            },
            CompileError::InletAlreadyConnected { target, field, index, first, second } => {
                let mut s = String::from_str("node ");
                push_entity(&mut s, *target);
                s.append(": inlet `");
                s.append(field);
                s.append("`[");
                push_decimal(&mut s, *index as u64);
                s.append("] is already connected to node ");
                push_entity(&mut s, *first);
                s.append("; a second edge from node ");
                push_entity(&mut s, *second);
                s.append(" is illegal — every inlet takes exactly one edge");
                s
            },
            CompileError::SpatialFanOut { child, first, second } => {
                let mut s = String::from_str("node ");
                push_entity(&mut s, *child);
                s.append(" already has parent ");
                push_entity(&mut s, *first);
                s.append("; a second parent edge to ");
                push_entity(&mut s, *second);
                s.append(" is illegal — a scene node has one parent");
                s
            },
            CompileError::ParentCycle { nodes } => {
                let mut s = String::from_str("parenting cycle: ");
                push_entities(&mut s, nodes, " → ");
                s
            },
            CompileError::Cycle { nodes } => {
                let mut s = String::from_str("cycle: these nodes could not be ordered: ");
                push_entities(&mut s, nodes, ", ");
                s
            },
        }
    }
}


/// Why a field cannot be given a kind.
#[derive(Clone, Copy, Debug, PartialEq, Eq, Structural)]
pub enum FieldKindFault {
    /// The slot type is an event list whose type data was never registered.
    UnregisteredEvents,
    /// The slot type is a product whose type data was never registered.
    UnregisteredProduct,
}

/// What a field's slots hold, decided from the slot type's registered type
/// data: `events` when it carries event-list data, `product` (with whether
/// its capability is the spatial one) when it carries product data. A slot
/// type with neither whose path names an event list or a product is
/// refused, since it would otherwise become a value port no edge can
/// usefully drive.
pub fn field_kind(events: bool, product: Option<bool>, slot_type_path: &str) -> (r: Result<FieldKind, FieldKindFault>)
    ensures
        r == (if events {
            Ok::<FieldKind, FieldKindFault>(FieldKind::Events)
        } else if product is Some {
            Ok(FieldKind::Product { spatial: product->0 })
        } else if "sway_graph::ports::Events<"@.is_prefix_of(slot_type_path@) {
            Err(FieldKindFault::UnregisteredEvents)
        } else if "sway_graph::ports::Product<"@.is_prefix_of(slot_type_path@) {
            Err(FieldKindFault::UnregisteredProduct)
        } else {
            Ok(FieldKind::Value)
        }),
{
    if events {
        return Ok(FieldKind::Events);
    }
    match product {
        Some(spatial) => return Ok(FieldKind::Product { spatial }),
        None => {},
    }
    if crate::marker::is_events_marker_path(slot_type_path) {
        return Err(FieldKindFault::UnregisteredEvents);
    }
    if crate::marker::is_product_marker_path(slot_type_path) {
        return Err(FieldKindFault::UnregisteredProduct);
    }
    Ok(FieldKind::Value)
}


/// A node type's declared field ordinals disagreeing with its fields.
#[derive(Clone, Copy, Debug, PartialEq, Eq)]
pub enum OrdinalFault {
    /// The field is declared, but at another ordinal: a field was reordered,
    /// or the declaration is stale.
    Reordered { name: &'static str, want: u16, got: u16 },
    /// The field is not declared at all.
    Undeclared { name: &'static str, want: u16 },
    /// A declared name that is not a field.
    NotAField { name: &'static str },
}

/// The first position from `j` on of `ords` not yet `matched` that declares
/// `name`, at ordinal `want` when one is given.
pub open spec fn first_free(
    ords: Seq<(&'static str, u16)>,
    matched: Seq<bool>,
    name: Seq<char>,
    want: Option<u16>,
    j: int,
) -> Option<int>
    decreases ords.len() - j,
{
    if j < 0 || j >= ords.len() {
        None
    } else if !matched[j] && ords[j].0@ == name && (want matches Some(w) ==> ords[j].1 == w) {
        Some(j)
    } else {
        first_free(ords, matched, name, want, j + 1)
    }
}

/// The check of the first `k` fields (ordinal = position) against the
/// declared ordinals: the declarations matched so far, or the first fault.
pub open spec fn ordinal_pass(ords: Seq<(&'static str, u16)>, names: Seq<&'static str>, k: int) -> Result<
    Seq<bool>,
    OrdinalFault,
>
    decreases k,
{
    if k <= 0 {
        Ok(Seq::new(ords.len(), |i: int| false))
    } else {
        match ordinal_pass(ords, names, k - 1) {
            Err(e) => Err(e),
            Ok(m) => {
                let name = names[k - 1];
                let want = (k - 1) as u16;
                match first_free(ords, m, name@, Some(want), 0) {
                    Some(j) => Ok(m.update(j, true)),
                    None => match first_free(ords, m, name@, None, 0) {
                        Some(j) => Err(OrdinalFault::Reordered { name, want, got: ords[j].1 }),
                        None => Err(OrdinalFault::Undeclared { name, want }),
                    },
                }
            },
        }
    }
}

/// The first declaration left unmatched, from position `j` on.
pub open spec fn first_unmatched(matched: Seq<bool>, j: int) -> Option<int>
    decreases matched.len() - j,
{
    if j < 0 || j >= matched.len() {
        None
    } else if !matched[j] {
        Some(j)
    } else {
        first_unmatched(matched, j + 1)
    }
}

/// The whole check: every field, in order, then every declaration left over.
pub open spec fn ordinals_check(ords: Seq<(&'static str, u16)>, names: Seq<&'static str>) -> Result<(), OrdinalFault> {
    match ordinal_pass(ords, names, names.len() as int) {
        Err(e) => Err(e),
        Ok(m) => match first_unmatched(m, 0) {
            Some(j) => Err(OrdinalFault::NotAField { name: ords[j].0 }),
            None => Ok(()),
        },
    }
}

/// Once a prefix of the fields is refused, so is the whole list, with the
/// same fault.
proof fn lemma_ordinal_error_sticks(ords: Seq<(&'static str, u16)>, names: Seq<&'static str>, k: int)
    requires
        0 <= k <= names.len(),
        ordinal_pass(ords, names, k) is Err,
    ensures
        ordinal_pass(ords, names, names.len() as int) == ordinal_pass(ords, names, k),
    decreases names.len() - k,
{
    if k < names.len() {
        lemma_ordinal_error_sticks(ords, names, k + 1);
    }
}

/// The first free declaration of `name`, at `want` when given.
fn find_free(ords: &[(&'static str, u16)], matched: &Vec<bool>, name: &str, want: Option<u16>) -> (r: Option<usize>)
    requires
        matched@.len() == ords@.len(),
    ensures
        match r {
            None => first_free(ords@, matched@, name@, want, 0) is None,
            Some(j) => first_free(ords@, matched@, name@, want, 0) == Some(j as int) && j < ords@.len(),
        },
{
    let mut j: usize = 0;
    while j < ords.len()
        invariant
            matched@.len() == ords@.len(),
            j <= ords@.len(),
            first_free(ords@, matched@, name@, want, 0) == first_free(ords@, matched@, name@, want, j as int),
        decreases ords@.len() - j,
    {
        let fits = match want {
            Some(w) => ords[j].1 == w,
            None => true,
        };
        if !matched[j] && str_eq(ords[j].0, name) && fits {
            return Some(j);
        }
        j = j + 1;
    }
    None
}

/// Checks a node type's declared field ordinals against its fields, listed
/// inlets first: every field must be declared at its position, and every
/// declaration must be a field. The first disagreement is reported.
pub fn check_ordinals(names: &[&'static str], ords: &[(&'static str, u16)]) -> (r: Result<(), OrdinalFault>)
    ensures
        r == ordinals_check(ords@, names@),
{
    let mut matched: Vec<bool> = Vec::new();
    let mut i: usize = 0;
    while i < ords.len()
        invariant
            i <= ords@.len(),
            matched@ == Seq::new(i as nat, |x: int| false),
        decreases ords@.len() - i,
    {
        matched.push(false);
        proof {
            assert(matched@ =~= Seq::new((i + 1) as nat, |x: int| false));
        }
        i = i + 1;
    }
    let mut k: usize = 0;
    while k < names.len()
        invariant
            k <= names@.len(),
            matched@.len() == ords@.len(),
            ordinal_pass(ords@, names@, k as int) == Ok::<Seq<bool>, OrdinalFault>(matched@),
        decreases names@.len() - k,
    {
        let name = names[k];
        let want = k as u16;
        match find_free(ords, &matched, name, Some(want)) {
            Some(j) => {
                matched.set(j, true);
            },
            None => {
                match find_free(ords, &matched, name, None) {
                    Some(j) => {
                        proof {
                            lemma_ordinal_error_sticks(ords@, names@, k + 1);
                        }
                        return Err(OrdinalFault::Reordered { name, want, got: ords[j].1 });
                    },
                    None => {
                        proof {
                            lemma_ordinal_error_sticks(ords@, names@, k + 1);
                        }
                        return Err(OrdinalFault::Undeclared { name, want });
                    },
                }
            },
        }
        k = k + 1;
    }
    let mut j: usize = 0;
    while j < matched.len()
        invariant
            matched@.len() == ords@.len(),
            j <= matched@.len(),
            ordinal_pass(ords@, names@, names@.len() as int) == Ok::<Seq<bool>, OrdinalFault>(matched@),
            first_unmatched(matched@, 0) == first_unmatched(matched@, j as int),
        decreases matched@.len() - j,
    {
        if !matched[j] {
            return Err(OrdinalFault::NotAField { name: ords[j].0 });
        }
        j = j + 1;
    }
    Ok(())
}


/// A compiled graph's hierarchy has no parenting cycle: no node is its own
/// ancestor through one or more parent edges.
pub proof fn lemma_compiled_hierarchy_is_acyclic(nodes: Seq<CompileNode>, edges: Seq<RawEdge>, i: int, k: nat)
    requires
        nodes.len() <= usize::MAX,
        node_base(nodes, nodes.len() as int) <= usize::MAX,
        compile_outcome(nodes, edges) is Ok,
        0 <= i < nodes.len(),
        k >= 1,
    ensures
        crate::parents::ancestor(compile_outcome(nodes, edges)->Ok_0.0.parent_of, i, k) != Some(i),
{
    let st = edge_pass(nodes, edges)->Ok_0;
    lemma_edge_pass_fits(nodes, edges);
    assert(st.parent_of.len() == nodes.len());
    if crate::parents::ancestor(st.parent_of, i, k) == Some(i) {
        crate::parents::lemma_parent_cycle_found(st.parent_of, i, k);
    }
}

} // verus!
