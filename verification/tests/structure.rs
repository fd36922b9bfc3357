use std::any::TypeId;

use sway::kahn::fifo_order;
use sway::parents::find_parent_cycle;
use sway::structure::{validate, FeedsLink, ParentLink, SlotField, StructureError, StructureNode};

struct Blob;
struct Sludge;

const BLOB: &str = "sway_graph::test_nodes::Blob";
const SLUDGE: &str = "sway_graph::test_nodes::Sludge";

fn group(entity: u64) -> StructureNode {
    StructureNode {
        entity,
        kind_name: "Group",
        slots: Vec::new(),
        produces: None,
        produces_path: "()",
        spatial: true,
    }
}

fn probe(entity: u64) -> StructureNode {
    StructureNode { entity, kind_name: "Probe", slots: Vec::new(), produces: None, produces_path: "()", spatial: false }
}

fn source(entity: u64) -> StructureNode {
    StructureNode {
        entity,
        kind_name: "Source",
        slots: Vec::new(),
        produces: Some(TypeId::of::<Blob>()),
        produces_path: BLOB,
        spatial: false,
    }
}

fn sludge_source(entity: u64) -> StructureNode {
    StructureNode {
        entity,
        kind_name: "SludgeSource",
        slots: Vec::new(),
        produces: Some(TypeId::of::<Sludge>()),
        produces_path: SLUDGE,
        spatial: false,
    }
}

fn sinkgeo(entity: u64) -> StructureNode {
    StructureNode {
        entity,
        kind_name: "SinkGeo",
        slots: vec![SlotField { name: "input", field_index: 0, capability: TypeId::of::<Blob>(), capability_path: BLOB }],
        produces: Some(TypeId::of::<Blob>()),
        produces_path: BLOB,
        spatial: false,
    }
}

fn parent(edge: u64, child: u64, parent: u64) -> ParentLink {
    ParentLink { edge, child, parent }
}

fn feeds(edge: u64, source: u64, target: u64, slot: u16) -> FeedsLink {
    FeedsLink { edge, slot, source, target }
}

#[test]
fn structure_a_feeds_chain_orders_producer_before_consumer() {
    let nodes = vec![sinkgeo(10), source(11)];
    let structure = validate(&nodes, &[], &[feeds(90, 11, 10, 0)]).expect("valid");
    let cooked: Vec<u64> = structure.cook_order.iter().map(|&i| nodes[i].entity).collect();
    let src_at = cooked.iter().position(|&e| e == 11).expect("source cooks");
    let sink_at = cooked.iter().position(|&e| e == 10).expect("sink cooks");
    assert!(src_at < sink_at, "a Feeds source must cook first");
    assert_eq!(structure.slots, vec![vec![Some(1)], vec![]]);
    assert_eq!(structure.parents, vec![None, None]);
}

#[test]
fn structure_two_parent_edges_from_one_child_are_rejected() {
    let nodes = vec![group(1), group(2), group(3)];
    let error = validate(&nodes, &[parent(90, 1, 2), parent(91, 1, 3)], &[]).unwrap_err();
    assert_eq!(error, StructureError::DuplicateParent { child: 1, first: 2, second: 3 });
}

#[test]
fn structure_parenting_a_non_spatial_node_is_rejected() {
    let nodes = vec![probe(1), group(2)];
    let error = validate(&nodes, &[parent(90, 1, 2)], &[]).unwrap_err();
    assert_eq!(error, StructureError::NotSpatial { node: 1, kind_name: "Probe", role: "parented" });
}

#[test]
fn structure_parenting_under_a_non_spatial_node_is_rejected() {
    let nodes = vec![group(1), probe(2)];
    let error = validate(&nodes, &[parent(90, 1, 2)], &[]).unwrap_err();
    assert_eq!(error, StructureError::NotSpatial { node: 2, kind_name: "Probe", role: "used as a parent" });
}

#[test]
fn structure_a_parenting_cycle_is_rejected() {
    let nodes = vec![group(1), group(2)];
    let error = validate(&nodes, &[parent(90, 1, 2), parent(91, 2, 1)], &[]).unwrap_err();
    assert_eq!(error, StructureError::ParentCycle { nodes: vec![1, 2] });
}

#[test]
fn structure_a_slot_filled_twice_is_rejected() {
    let nodes = vec![source(1), source(2), sinkgeo(3)];
    let error = validate(&nodes, &[], &[feeds(90, 1, 3, 0), feeds(91, 2, 3, 0)]).unwrap_err();
    assert_eq!(error, StructureError::DuplicateSlot { target: 3, slot: "input", first: 1, second: 2 });
}

#[test]
fn structure_a_source_that_produces_nothing_is_rejected() {
    let nodes = vec![group(1), sinkgeo(2)];
    let error = validate(&nodes, &[], &[feeds(90, 1, 2, 0)]).unwrap_err();
    assert_eq!(error, StructureError::SourceProducesNothing { source: 1, kind_name: "Group", target: 2, slot: "input" });
}

#[test]
fn structure_a_slot_type_mismatch_names_the_capability_on_both_sides() {
    let nodes = vec![sludge_source(1), sinkgeo(2)];
    let error = validate(&nodes, &[], &[feeds(90, 1, 2, 0)]).unwrap_err();
    assert_eq!(error, StructureError::SlotTypeMismatch {
        target: 2,
        slot: "input",
        expected: BLOB,
        source: 1,
        produces: SLUDGE,
    });
}

#[test]
fn structure_a_slot_ordinal_out_of_range_reports_the_arity() {
    let nodes = vec![source(1), sinkgeo(2)];
    let error = validate(&nodes, &[], &[feeds(90, 1, 2, 9)]).unwrap_err();
    assert_eq!(error, StructureError::SlotOutOfRange { node: 2, slot: 9, arity: 1 });
}

#[test]
fn a_feeds_cycle_is_rejected_in_feeds_vocabulary() {
    let nodes = vec![sinkgeo(1), sinkgeo(2)];
    let error = validate(&nodes, &[], &[feeds(90, 1, 2, 0), feeds(91, 2, 1, 0)]).unwrap_err();
    assert_eq!(error, StructureError::FeedsCycle { nodes: vec![1, 2] });
}

#[test]
fn an_edge_naming_a_non_node_is_rejected() {
    let nodes = vec![group(1)];
    assert_eq!(
        validate(&nodes, &[parent(90, 1, 77)], &[]).unwrap_err(),
        StructureError::MissingEndpoint { edge: 90, missing: 77 }
    );
    assert_eq!(
        validate(&nodes, &[], &[feeds(91, 55, 1, 0)]).unwrap_err(),
        StructureError::MissingEndpoint { edge: 91, missing: 55 }
    );
}

#[test]
fn a_valid_hierarchy_records_each_parent() {
    let nodes = vec![group(1), group(2), group(3)];
    let structure = validate(&nodes, &[parent(90, 2, 1), parent(91, 3, 2)], &[]).expect("valid");
    assert_eq!(structure.parents, vec![None, Some(0), Some(1)]);
    assert_eq!(structure.cook_order, vec![0, 1, 2]);
}

#[test]
fn a_parent_error_is_reported_before_any_feeds_error() {
    let nodes = vec![group(1), probe(2), source(3)];
    let error = validate(&nodes, &[parent(90, 2, 1)], &[feeds(91, 3, 99, 0)]).unwrap_err();
    assert_eq!(error, StructureError::NotSpatial { node: 2, kind_name: "Probe", role: "parented" });
}

// --- the pieces ------------------------------------------------------------------------

#[test]
fn the_sort_seeds_in_node_order_and_frees_in_node_order() {
    // 3 and 1 have no arcs in; 1 frees 2 and 0.
    assert_eq!(fifo_order(4, &[(1, 2), (1, 0), (3, 2)]), Ok(vec![1, 3, 0, 2]));
    assert_eq!(fifo_order(3, &[]), Ok(vec![0, 1, 2]));
}

#[test]
fn the_sort_reports_what_it_could_not_place() {
    assert_eq!(fifo_order(4, &[(1, 2), (2, 1), (2, 3)]), Err(vec![1, 2, 3]));
}

#[test]
fn a_parent_chain_that_loops_elsewhere_is_a_cycle_too() {
    // 0 hangs below the cycle 1 <-> 2: its walk never ends.
    assert_eq!(find_parent_cycle(&[Some(1), Some(2), Some(1)]), Some(vec![0, 1, 2, 1, 2]));
    assert_eq!(find_parent_cycle(&[None, Some(0), Some(1)]), None);
}

#[test]
fn structure_errors_read_as_text() {
    let err = StructureError::DuplicateSlot { target: 3, slot: "input", first: 1, second: 2 };
    let msg = err.message();
    assert!(msg.contains("exactly one edge") && msg.contains("input"), "{msg}");
    assert!(msg.contains("1v0") && msg.contains("2v0") && msg.contains("3v0"), "{msg}");
    let err = StructureError::FeedsCycle { nodes: vec![1, 2] };
    assert_eq!(err.message(), "cycle: these nodes could not be ordered: 1v0, 2v0");
    let err = StructureError::DuplicateParent { child: 1, first: 2, second: 3 };
    assert!(err.message().contains("one parent"));
}
