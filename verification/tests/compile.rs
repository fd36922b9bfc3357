use std::any::TypeId;

use sway::compile::{
    check_ordinals, compile_core, field_kind, CompileError, CompileNode, CompiledCore, FieldKind, FieldKindFault, FieldSpec,
    OrdinalFault, RawEdge,
};
use sway::wiring::NodeTypeId;

struct Blob;
struct Sludge;
struct Spatial;

const F32: &str = "f32";
const BLOB: &str = "sway_graph::ports::Product<sway_graph::test_nodes::Blob>";
const SLUDGE: &str = "sway_graph::ports::Product<sway_graph::test_nodes::Sludge>";
const SPATIAL: &str = "sway_graph::ports::Product<sway_graph::ports::Spatial>";

fn value(name: &'static str, field_index: usize) -> FieldSpec {
    FieldSpec { name, field_index, kind: FieldKind::Value, slot_type: TypeId::of::<f32>(), slot_type_path: F32 }
}

fn product<T: 'static>(name: &'static str, field_index: usize, path: &'static str, spatial: bool) -> FieldSpec {
    FieldSpec { name, field_index, kind: FieldKind::Product { spatial }, slot_type: TypeId::of::<T>(), slot_type_path: path }
}

fn events(name: &'static str, field_index: usize) -> FieldSpec {
    FieldSpec { name, field_index, kind: FieldKind::Events, slot_type: TypeId::of::<u32>(), slot_type_path: "Events<Ping>" }
}

// Gain: inlets gain (0), bias (1); outlet value (2).
const GAIN: u16 = 0;
const GAIN_BIAS: u16 = 1;
const GAIN_OUT_VALUE: u16 = 2;

fn gain(entity: u64) -> CompileNode {
    CompileNode {
        entity,
        node_type: NodeTypeId(0),
        fields: vec![value("gain", 0), value("bias", 1), value("value", 0)],
        inlet_field_count: 2,
        inlet_lens: vec![1, 1],
    }
}

// Sum: variadic inlet terms (0); outlet total (1).
const SUM_TERMS: u16 = 0;

fn sum(entity: u64, terms: usize) -> CompileNode {
    CompileNode {
        entity,
        node_type: NodeTypeId(1),
        fields: vec![value("terms", 0), value("total", 0)],
        inlet_field_count: 1,
        inlet_lens: vec![terms],
    }
}

// Producer: inlet scale (0); outlet blob (1).
const PRODUCER_OUT_BLOB: u16 = 1;

fn producer(entity: u64) -> CompileNode {
    CompileNode {
        entity,
        node_type: NodeTypeId(2),
        fields: vec![value("scale", 0), product::<Blob>("blob", 0, BLOB, false)],
        inlet_field_count: 1,
        inlet_lens: vec![1],
    }
}

// SludgeSource: inlet scale (0); outlet sludge (1).
const SLUDGE_OUT: u16 = 1;

fn sludge_source(entity: u64) -> CompileNode {
    CompileNode {
        entity,
        node_type: NodeTypeId(3),
        fields: vec![value("scale", 0), product::<Sludge>("sludge", 0, SLUDGE, false)],
        inlet_field_count: 1,
        inlet_lens: vec![1],
    }
}

// Consumer: inlets input (0), scale (1); outlet blob (2).
const CONSUMER_INPUT: u16 = 0;
const CONSUMER_OUT_BLOB: u16 = 2;

fn consumer(entity: u64) -> CompileNode {
    CompileNode {
        entity,
        node_type: NodeTypeId(4),
        fields: vec![product::<Blob>("input", 0, BLOB, false), value("scale", 1), product::<Blob>("blob", 0, BLOB, false)],
        inlet_field_count: 2,
        inlet_lens: vec![1, 1],
    }
}

// Group: variadic spatial inlet children (0), rotation_y (1); spatial outlet (2).
const GROUP_CHILDREN: u16 = 0;
const GROUP_ROTATION_Y: u16 = 1;
const GROUP_OUT_SPATIAL: u16 = 2;

fn group(entity: u64, children: usize) -> CompileNode {
    CompileNode {
        entity,
        node_type: NodeTypeId(5),
        fields: vec![
            product::<Spatial>("children", 0, SPATIAL, true),
            value("rotation_y", 1),
            product::<Spatial>("spatial", 0, SPATIAL, true),
        ],
        inlet_field_count: 2,
        inlet_lens: vec![children, 1],
    }
}

// Emitter: inlet period (0); event outlet pulse (1). Sink: event inlet pulse (0).
fn emitter(entity: u64) -> CompileNode {
    CompileNode {
        entity,
        node_type: NodeTypeId(6),
        fields: vec![value("period", 0), events("pulse", 0)],
        inlet_field_count: 1,
        inlet_lens: vec![1],
    }
}

fn sink(entity: u64) -> CompileNode {
    CompileNode { entity, node_type: NodeTypeId(7), fields: vec![events("pulse", 0)], inlet_field_count: 1, inlet_lens: vec![1] }
}

fn edge(id: u64, from: u64, from_field: u16, to: u64, to_field: u16) -> RawEdge {
    edge_at(id, from, from_field, to, to_field, 0)
}

fn edge_at(id: u64, from: u64, from_field: u16, to: u64, to_field: u16, to_index: u16) -> RawEdge {
    RawEdge { edge: id, from, to, from_field, from_index: 0, to_field, to_index }
}

fn order_of(compiled: &CompiledCore) -> Vec<u64> {
    compiled.plans.iter().map(|p| p.entity).collect()
}

#[test]
fn a_chain_compiles_in_topological_order() {
    let (a, b) = (1, 2);
    let nodes = vec![gain(a), gain(b)];
    let edges = vec![edge(10, a, GAIN_OUT_VALUE, b, GAIN)];
    let compiled = compile_core(&nodes, &edges).expect("compiles");
    assert_eq!(order_of(&compiled), vec![a, b], "producer must be ordered before consumer");
}

#[test]
fn a_chain_compiled_the_other_way_round_still_puts_the_producer_first() {
    let (a, b) = (1, 2);
    let nodes = vec![gain(b), gain(a)];
    let edges = vec![edge(10, a, GAIN_OUT_VALUE, b, GAIN)];
    let compiled = compile_core(&nodes, &edges).expect("compiles");
    assert_eq!(order_of(&compiled), vec![a, b]);
    assert_eq!(compiled.plan_index_of, vec![1, 0]);
}

#[test]
fn bases_are_allocated_contiguously_per_node() {
    let nodes = vec![gain(1), gain(2)];
    let compiled = compile_core(&nodes, &[]).expect("compiles");
    let pa = compiled.plans.iter().find(|p| p.entity == 1).unwrap();
    let pb = compiled.plans.iter().find(|p| p.entity == 2).unwrap();
    assert_ne!(pa.layout.base, pb.layout.base);
    assert_eq!((pa.layout.base, pb.layout.base), (0, 3));
    assert_eq!(compiled.slots_len, 6, "two Gains, 3 fields each");
}

#[test]
fn a_cycle_is_rejected_and_names_every_node_in_it() {
    let (a, b) = (1, 2);
    let nodes = vec![gain(a), gain(b)];
    let edges = vec![edge(10, a, GAIN_OUT_VALUE, b, GAIN), edge(11, b, GAIN_OUT_VALUE, a, GAIN)];
    let err = compile_core(&nodes, &edges).unwrap_err();
    assert_eq!(err, CompileError::Cycle { nodes: vec![a, b] });
    let msg = err.message();
    assert!(msg.contains("cycle"), "{msg}");
    assert!(msg.contains("1v0") && msg.contains("2v0"), "{msg}");
}

#[test]
fn a_second_edge_into_an_inlet_is_rejected() {
    let (a, b, c) = (1, 2, 3);
    let nodes = vec![gain(a), gain(b), gain(c)];
    let edges = vec![edge(10, a, GAIN_OUT_VALUE, c, GAIN), edge(11, b, GAIN_OUT_VALUE, c, GAIN)];
    assert_eq!(
        compile_core(&nodes, &edges).unwrap_err(),
        CompileError::InletAlreadyConnected { target: c, field: "gain", index: 0, first: a, second: b }
    );
    let msg = compile_core(&nodes, &edges).unwrap_err().message();
    assert!(msg.contains("gain"), "must name the target field: {msg}");
    assert!(msg.contains("3v0"), "must name the target node: {msg}");
    assert!(msg.contains("exactly one edge"), "{msg}");
}

#[test]
fn many_edges_into_a_variadic_inlet_are_allowed() {
    let (s, a, b) = (1, 2, 3);
    let nodes = vec![sum(s, 2), gain(a), gain(b)];
    let edges = vec![edge_at(10, a, GAIN_OUT_VALUE, s, SUM_TERMS, 0), edge_at(11, b, GAIN_OUT_VALUE, s, SUM_TERMS, 1)];
    assert!(compile_core(&nodes, &edges).is_ok(), "one edge per element is legal");
}

#[test]
fn a_type_mismatch_names_both_nodes_both_fields_and_both_types() {
    let (p, g) = (1, 2);
    let nodes = vec![producer(p), gain(g)];
    let edges = vec![edge(10, p, PRODUCER_OUT_BLOB, g, GAIN)];
    assert_eq!(
        compile_core(&nodes, &edges).unwrap_err(),
        CompileError::TypeMismatch {
            source: p,
            source_field: "blob",
            source_type: BLOB,
            target: g,
            target_field: "gain",
            target_type: F32,
        }
    );
}

#[test]
fn a_field_ordinal_out_of_range_is_rejected_with_the_arity() {
    let (a, b) = (1, 2);
    let nodes = vec![gain(a), gain(b)];
    let edges = vec![edge(10, a, 99, b, GAIN)];
    assert_eq!(
        compile_core(&nodes, &edges).unwrap_err(),
        CompileError::FieldOutOfRange { node: a, field: 99, arity: 3 }
    );
    let msg = compile_core(&nodes, &edges).unwrap_err().message();
    assert!(msg.contains("99"), "{msg}");
    assert!(msg.contains('3'), "must state the node's field arity: {msg}");
}

#[test]
fn an_edge_from_an_inlet_field_is_rejected() {
    let (a, b) = (1, 2);
    let nodes = vec![gain(a), gain(b)];
    let edges = vec![edge(10, a, GAIN, b, GAIN)];
    assert_eq!(
        compile_core(&nodes, &edges).unwrap_err(),
        CompileError::WrongDirection { node: a, field: "gain", expected: "an outlet" }
    );
}

#[test]
fn an_edge_to_an_outlet_field_is_rejected() {
    let (a, b) = (1, 2);
    let nodes = vec![gain(a), gain(b)];
    let edges = vec![edge(10, a, GAIN_OUT_VALUE, b, GAIN_OUT_VALUE)];
    assert_eq!(
        compile_core(&nodes, &edges).unwrap_err(),
        CompileError::WrongDirection { node: b, field: "value", expected: "an inlet" }
    );
}

#[test]
fn an_edge_to_a_despawned_node_is_rejected() {
    // Despawning a node takes its edges with it: what is left compiles.
    let nodes = vec![gain(1)];
    assert!(compile_core(&nodes, &[]).is_ok());
}

#[test]
fn an_edge_naming_a_non_node_entity_is_rejected() {
    let (a, not_a_node) = (1, 77);
    let nodes = vec![gain(a)];
    let edges = vec![edge(10, a, GAIN_OUT_VALUE, not_a_node, GAIN)];
    assert_eq!(
        compile_core(&nodes, &edges).unwrap_err(),
        CompileError::MissingEndpoint { edge: 10, missing: not_a_node }
    );
}

#[test]
fn compile_two_parent_edges_from_one_child_are_rejected() {
    let (child, a, b) = (1, 2, 3);
    let nodes = vec![group(child, 0), group(a, 1), group(b, 1)];
    let edges = vec![
        edge_at(10, child, GROUP_OUT_SPATIAL, a, GROUP_CHILDREN, 0),
        edge_at(11, child, GROUP_OUT_SPATIAL, b, GROUP_CHILDREN, 0),
    ];
    assert_eq!(compile_core(&nodes, &edges).unwrap_err(), CompileError::SpatialFanOut { child, first: a, second: b });
}

#[test]
fn compile_parenting_a_non_spatial_node_is_rejected() {
    let (p, g) = (1, 2);
    let nodes = vec![producer(p), group(g, 1)];
    let edges = vec![edge_at(10, p, PRODUCER_OUT_BLOB, g, GROUP_CHILDREN, 0)];
    assert_eq!(
        compile_core(&nodes, &edges).unwrap_err(),
        CompileError::TypeMismatch {
            source: p,
            source_field: "blob",
            source_type: BLOB,
            target: g,
            target_field: "children",
            target_type: SPATIAL,
        }
    );
}

#[test]
fn compile_parenting_under_a_non_spatial_node_is_rejected() {
    let (child, c) = (1, 2);
    let nodes = vec![group(child, 0), consumer(c)];
    let edges = vec![edge(10, child, GROUP_OUT_SPATIAL, c, CONSUMER_INPUT)];
    assert_eq!(
        compile_core(&nodes, &edges).unwrap_err(),
        CompileError::TypeMismatch {
            source: child,
            source_field: "spatial",
            source_type: SPATIAL,
            target: c,
            target_field: "input",
            target_type: BLOB,
        }
    );
}

#[test]
fn compile_a_parenting_cycle_is_rejected() {
    let (a, b) = (1, 2);
    let nodes = vec![group(a, 1), group(b, 1)];
    let edges = vec![
        edge_at(10, a, GROUP_OUT_SPATIAL, b, GROUP_CHILDREN, 0),
        edge_at(11, b, GROUP_OUT_SPATIAL, a, GROUP_CHILDREN, 0),
    ];
    let err = compile_core(&nodes, &edges).unwrap_err();
    assert_eq!(err, CompileError::ParentCycle { nodes: vec![a, b] });
    let msg = err.message();
    assert!(msg.contains("parenting"), "must speak of parenting, not dataflow: {msg}");
    assert_eq!(msg, "parenting cycle: 1v0 → 2v0");
}

#[test]
fn compile_a_slot_filled_twice_is_rejected() {
    let (a, b, c) = (1, 2, 3);
    let nodes = vec![producer(a), producer(b), consumer(c)];
    let edges = vec![edge(10, a, PRODUCER_OUT_BLOB, c, CONSUMER_INPUT), edge(11, b, PRODUCER_OUT_BLOB, c, CONSUMER_INPUT)];
    assert_eq!(
        compile_core(&nodes, &edges).unwrap_err(),
        CompileError::InletAlreadyConnected { target: c, field: "input", index: 0, first: a, second: b }
    );
}

#[test]
fn compile_a_source_that_produces_nothing_is_rejected() {
    let (g, c) = (1, 2);
    let nodes = vec![group(g, 0), consumer(c)];
    let edges = vec![edge(10, g, GROUP_OUT_SPATIAL, c, CONSUMER_INPUT)];
    match compile_core(&nodes, &edges).unwrap_err() {
        CompileError::TypeMismatch { source, target_field, .. } => {
            assert_eq!(source, g, "must name the source");
            assert_eq!(target_field, "input", "must name the field");
        },
        other => panic!("expected a type mismatch, got {other:?}"),
    }
}

#[test]
fn compile_a_slot_type_mismatch_names_the_capability_on_both_sides() {
    let (s, c) = (1, 2);
    let nodes = vec![sludge_source(s), consumer(c)];
    let edges = vec![edge(10, s, SLUDGE_OUT, c, CONSUMER_INPUT)];
    assert_eq!(
        compile_core(&nodes, &edges).unwrap_err(),
        CompileError::TypeMismatch {
            source: s,
            source_field: "sludge",
            source_type: SLUDGE,
            target: c,
            target_field: "input",
            target_type: BLOB,
        }
    );
}

#[test]
fn compile_a_slot_ordinal_out_of_range_reports_the_arity() {
    let (p, c) = (1, 2);
    let nodes = vec![producer(p), consumer(c)];
    let edges = vec![edge(10, p, 9, c, CONSUMER_INPUT)];
    assert_eq!(compile_core(&nodes, &edges).unwrap_err(), CompileError::FieldOutOfRange { node: p, field: 9, arity: 2 });
}

#[test]
fn compile_a_feeds_chain_orders_producer_before_consumer() {
    let (c, p) = (1, 2);
    let nodes = vec![consumer(c), producer(p)];
    let edges = vec![edge(10, p, PRODUCER_OUT_BLOB, c, CONSUMER_INPUT)];
    let compiled = compile_core(&nodes, &edges).expect("compiles");
    let order = order_of(&compiled);
    let p_idx = order.iter().position(|&e| e == p).expect("producer compiled");
    let c_idx = order.iter().position(|&e| e == c).expect("consumer compiled");
    assert!(p_idx < c_idx, "a Product source must be ordered before its consumer");
}

#[test]
fn a_valid_hierarchy_is_applied_as_bevy_child_of() {
    let (child, root) = (1, 2);
    let nodes = vec![group(child, 0), group(root, 1)];
    let edges = vec![edge_at(10, child, GROUP_OUT_SPATIAL, root, GROUP_CHILDREN, 0)];
    let compiled = compile_core(&nodes, &edges).expect("compiles");
    assert_eq!(compiled.parent_of, vec![Some(1), None], "compile gives the hierarchy");
}

#[test]
fn a_rejected_hierarchy_applies_nothing() {
    let (good_child, root, bad_source) = (1, 2, 3);
    let nodes = vec![group(good_child, 0), group(root, 2), gain(bad_source)];
    let edges = vec![
        edge_at(10, good_child, GROUP_OUT_SPATIAL, root, GROUP_CHILDREN, 0),
        edge_at(11, bad_source, GAIN_OUT_VALUE, root, GROUP_CHILDREN, 1),
    ];
    assert!(compile_core(&nodes, &edges).is_err());
}

#[test]
fn a_spatial_edge_does_not_constrain_the_compiled_order() {
    let (g, child, gn) = (1, 2, 3);
    let nodes = vec![group(g, 1), group(child, 0), gain(gn)];
    let edges = vec![
        edge_at(10, child, GROUP_OUT_SPATIAL, g, GROUP_CHILDREN, 0),
        edge(11, gn, GAIN_OUT_VALUE, g, GROUP_ROTATION_Y),
    ];
    assert!(compile_core(&nodes, &edges).is_ok(), "parenting must not enter the sort");
}

#[test]
fn a_child_driving_its_own_parent_compiles() {
    // The parent edge runs from the child to its parent; only the value edge
    // into the child orders anything.
    let (parent, child) = (1, 2);
    let nodes = vec![group(child, 0), group(parent, 1), gain(3)];
    let edges = vec![
        edge_at(10, child, GROUP_OUT_SPATIAL, parent, GROUP_CHILDREN, 0),
        edge(11, 3, GAIN_OUT_VALUE, child, GROUP_ROTATION_Y),
    ];
    let compiled = compile_core(&nodes, &edges).expect("compiles");
    assert_eq!(order_of(&compiled), vec![parent, 3, child]);
    assert_eq!(compiled.parent_of, vec![Some(1), None, None]);
}

#[test]
fn a_union_cycle_across_both_old_dags_is_rejected() {
    let (a, b) = (1, 2);
    let nodes = vec![consumer(a), consumer(b)];
    let edges = vec![edge(10, a, CONSUMER_OUT_BLOB, b, CONSUMER_INPUT), edge(11, b, CONSUMER_OUT_BLOB, a, CONSUMER_INPUT)];
    assert_eq!(compile_core(&nodes, &edges).unwrap_err(), CompileError::Cycle { nodes: vec![a, b] });
}

#[test]
fn two_edges_into_one_variadic_element_are_rejected() {
    let (s, a, b) = (1, 2, 3);
    let nodes = vec![sum(s, 1), gain(a), gain(b)];
    let edges = vec![edge_at(10, a, GAIN_OUT_VALUE, s, SUM_TERMS, 0), edge_at(11, b, GAIN_OUT_VALUE, s, SUM_TERMS, 0)];
    assert_eq!(
        compile_core(&nodes, &edges).unwrap_err(),
        CompileError::InletAlreadyConnected { target: s, field: "terms", index: 0, first: a, second: b }
    );
}

#[test]
fn an_edge_past_a_variadic_field_names_its_length() {
    let (s, a) = (1, 2);
    let nodes = vec![sum(s, 2), gain(a)];
    let edges = vec![edge_at(10, a, GAIN_OUT_VALUE, s, SUM_TERMS, 7)];
    assert_eq!(
        compile_core(&nodes, &edges).unwrap_err(),
        CompileError::ElementOutOfRange { node: s, field: "terms", index: 7, len: 2 }
    );
}

#[test]
fn resizing_a_variadic_field_leaves_other_fields_addressable() {
    let (g, gn) = (1, 2);
    let edges = vec![edge(10, gn, GAIN_OUT_VALUE, g, GROUP_ROTATION_Y)];
    for children in [1, 2] {
        let nodes = vec![group(g, children), gain(gn)];
        let compiled = compile_core(&nodes, &edges).expect("compiles");
        let plan = compiled.plans.iter().find(|p| p.entity == g).unwrap();
        // rotation_y sits right after the children.
        assert_eq!(plan.layout.field_offsets[GROUP_ROTATION_Y as usize], children);
        let gain_base = compiled.plans.iter().find(|p| p.entity == gn).unwrap().layout.base;
        assert_eq!(plan.copies, vec![(gain_base + 2, plan.layout.base + children)]);
        assert!(plan.connected[children]);
    }
}

#[test]
fn a_variadic_inlet_lays_out_one_slot_per_element() {
    let (s, a, b) = (1, 2, 3);
    let nodes = vec![sum(s, 2), gain(a), gain(b)];
    let edges = vec![edge_at(10, b, GAIN_OUT_VALUE, s, SUM_TERMS, 1), edge_at(11, a, GAIN_OUT_VALUE, s, SUM_TERMS, 0)];
    let compiled = compile_core(&nodes, &edges).expect("compiles");
    assert_eq!(order_of(&compiled), vec![a, b, s]);
    assert_eq!(compiled.slots_len, 9);
    let plan = &compiled.plans[2];
    assert_eq!(plan.layout.field_offsets, vec![0, 2]);
    assert_eq!(plan.layout.field_lens, vec![2, 1]);
    assert_eq!(plan.layout.inlet_slots, 2);
    assert_eq!(plan.connected, vec![true, true, false]);
    // Copies come ascending by the slot written, whatever the edge order.
    assert_eq!(plan.copies, vec![(5, 0), (8, 1)]);
}

#[test]
fn every_event_slot_is_listed_for_clearing_in_slot_order() {
    let (e, s) = (1, 2);
    let nodes = vec![sink(s), emitter(e)];
    let edges = vec![edge(10, e, 1, s, 0)];
    let compiled = compile_core(&nodes, &edges).expect("compiles");
    assert_eq!(compiled.clears, vec![(0, 0, 0), (2, 1, 1)]);
}

#[test]
fn product_inlets_list_every_product_slot_of_the_inlets() {
    let (g, c) = (1, 2);
    let nodes = vec![group(g, 3), consumer(c)];
    let compiled = compile_core(&nodes, &[]).expect("compiles");
    assert_eq!(compiled.plans[0].product_inlets, vec![(0, 0), (1, 0), (2, 0)]);
    assert_eq!(compiled.plans[1].product_inlets, vec![(5, 0)]);
}

#[test]
fn a_type_mismatch_message_names_both_sides() {
    let (s, c) = (1, 2);
    let nodes = vec![sludge_source(s), consumer(c)];
    let edges = vec![edge(10, s, SLUDGE_OUT, c, CONSUMER_INPUT)];
    let msg = compile_core(&nodes, &edges).unwrap_err().message();
    assert!(msg.contains("1v0"), "must name the source: {msg}");
    assert!(msg.contains("input"), "must name the field: {msg}");
    assert!(msg.contains(&format!("expects `{BLOB}`")), "{msg}");
    assert!(msg.contains(&format!("produces `{SLUDGE}`")), "{msg}");
}

#[test]
fn an_entity_is_written_as_index_and_generation() {
    let bits: u64 = (7u64 << 32) | 42;
    let err = CompileError::MissingEndpoint { edge: 0, missing: bits };
    assert_eq!(err.message(), "edge 0v0 names 42v7, which is not a node in this graph");
    let err = CompileError::ElementOutOfRange { node: 1, field: "terms", index: 7, len: 2 };
    assert_eq!(
        err.message(),
        "node 1v0: field `terms` has 2 slot(s), so element 7 does not exist — resize the Vec on the node's Inlets, or edit the edge"
    );
}

const PROBE: [&str; 3] = ["gain", "bias", "value"];

#[test]
fn a_wrong_ordinal_fails_registration_and_names_the_field() {
    assert_eq!(
        check_ordinals(&PROBE, &[("gain", 0), ("bias", 0), ("value", 2)]),
        Err(OrdinalFault::Reordered { name: "bias", want: 1, got: 0 })
    );
}

#[test]
fn a_missing_ordinal_declaration_fails_registration() {
    assert_eq!(check_ordinals(&PROBE, &[("gain", 0)]), Err(OrdinalFault::Undeclared { name: "bias", want: 1 }));
}

#[test]
fn an_ordinal_naming_a_nonexistent_field_fails_registration() {
    assert_eq!(
        check_ordinals(&PROBE, &[("gain", 0), ("bias", 1), ("value", 2), ("does_not_exist", 99)]),
        Err(OrdinalFault::NotAField { name: "does_not_exist" })
    );
}

#[test]
fn matching_inlet_and_outlet_names_are_checked_by_name_and_ordinal() {
    assert_eq!(check_ordinals(&["value", "value"], &[("value", 0), ("value", 1)]), Ok(()));
    assert_eq!(check_ordinals(&PROBE, &[("value", 2), ("bias", 1), ("gain", 0)]), Ok(()));
}

#[test]
fn an_unregistered_events_field_is_an_error_not_a_value_port() {
    assert_eq!(
        field_kind(false, None, "sway_graph::ports::Events<sway::Ping>"),
        Err(FieldKindFault::UnregisteredEvents)
    );
    assert_eq!(field_kind(true, None, "sway_graph::ports::Events<sway::Ping>"), Ok(FieldKind::Events));
}

#[test]
fn an_unregistered_product_field_is_an_error_not_a_value_port() {
    assert_eq!(
        field_kind(false, None, "sway_graph::ports::Product<sway_graph::ports::Spatial>"),
        Err(FieldKindFault::UnregisteredProduct)
    );
    assert_eq!(field_kind(false, Some(true), SPATIAL), Ok(FieldKind::Product { spatial: true }));
    assert_eq!(field_kind(false, None, "f32"), Ok(FieldKind::Value));
}
