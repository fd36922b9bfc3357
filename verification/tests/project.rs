use std::any::TypeId;

use sway::doc::{validate, EntityDoc, ParseError, ProjectDoc, FORMAT_VERSION};
use sway::marker::{is_events_marker_path, is_product_marker_path, is_slot_marker_path};
use sway::registry::{ComponentDocRegistry, ComponentEntry};
use sway::wiring::{Edge, Endpoint, GraphNode, NodeId, NodeTypeId};

fn entity(id: &str) -> EntityDoc {
    EntityDoc { id: id.to_string(), components: Vec::new(), wires: Vec::new() }
}

struct Gain;
struct Bias;

fn entry<T: 'static>(name: &'static str, type_path: &'static str) -> ComponentEntry {
    ComponentEntry { name, type_id: TypeId::of::<T>(), type_path }
}

// --- documents ----------------------------------------------------------------

#[test]
fn an_unknown_version_is_rejected() {
    let error = validate(ProjectDoc { version: 99, entities: Vec::new() }).expect_err("must fail");
    assert_eq!(error, ParseError::UnsupportedVersion(99));
}

#[test]
fn a_duplicate_id_rejects_the_document() {
    let error =
        validate(ProjectDoc { version: 1, entities: vec![entity("a"), entity("a")] }).expect_err("must fail");
    assert_eq!(error, ParseError::DuplicateId("a".to_string()));
}

#[test]
fn an_empty_document_is_valid() {
    let doc = validate(ProjectDoc { version: FORMAT_VERSION, entities: Vec::new() }).expect("valid");
    assert!(doc.entities.is_empty());
}

#[test]
fn the_first_repeated_id_is_the_one_reported() {
    let doc = ProjectDoc {
        version: 1,
        entities: vec![entity("a"), entity("b"), entity("c"), entity("b"), entity("a")],
    };
    assert_eq!(validate(doc), Err(ParseError::DuplicateId("b".to_string())));
}

#[test]
fn a_valid_document_is_returned_unchanged() {
    let mut cube = entity("cube");
    cube.components.push(("Transform".to_string(), "(translation: (0.8, 0.0, 0.0))".to_string()));
    cube.wires.push(("translation.y".to_string(), "lfoA".to_string()));
    let doc = ProjectDoc { version: 1, entities: vec![entity("lfoA"), cube] };
    assert_eq!(validate(doc.clone()), Ok(doc));
}

#[test]
fn the_version_is_checked_before_the_ids() {
    let doc = ProjectDoc { version: 2, entities: vec![entity("a"), entity("a")] };
    assert_eq!(validate(doc), Err(ParseError::UnsupportedVersion(2)));
}

// --- the component registry ------------------------------------------------------

#[test]
fn registering_records_the_short_name_and_the_type() {
    let mut registry = ComponentDocRegistry::new();
    assert!(registry.register(entry::<Gain>("Gain", "tests::Gain")));

    let found = registry.by_name("Gain").expect("registered");
    assert_eq!(found.type_id, TypeId::of::<Gain>());
    assert!(registry.by_name("Bias").is_none());
}

#[test]
fn two_components_register_independently() {
    let mut registry = ComponentDocRegistry::new();
    assert!(registry.register(entry::<Gain>("Gain", "tests::Gain")));
    assert!(registry.register(entry::<Bias>("Bias", "tests::Bias")));
    assert_eq!(registry.entries.len(), 2);
    assert_eq!(registry.by_type(TypeId::of::<Bias>()).expect("registered").name, "Bias");
    assert!(registry.by_type(TypeId::of::<u8>()).is_none());
}

#[test]
fn a_duplicate_name_is_refused() {
    let mut registry = ComponentDocRegistry::new();
    assert!(registry.register(entry::<Gain>("Same", "tests::Gain")));
    assert!(!registry.register(entry::<Bias>("Same", "tests::Bias")));
    assert_eq!(registry.entries.len(), 1);
    assert_eq!(registry.by_name("Same").expect("registered").type_id, TypeId::of::<Gain>());
}

// --- marker paths ------------------------------------------------------------------

#[test]
fn marker_paths_are_recognised_by_their_prefix() {
    assert!(is_events_marker_path("sway_graph::ports::Events<tests::NoteMsg>"));
    assert!(!is_events_marker_path("sway_graph::ports::Product<f32>"));
    assert!(is_product_marker_path("sway_graph::ports::Product<f32>"));
    assert!(!is_product_marker_path("sway_graph::ports::Produc"));
    assert!(is_slot_marker_path("sway_graph::slots::Slot<tests::Geometry>"));
    assert!(!is_slot_marker_path("f32"));
}

// --- the entity-based data ------------------------------------------------------------

#[test]
fn an_edge_addresses_an_element_of_a_field() {
    let edge = Edge { from: Endpoint::field(2), to: Endpoint { field: 0, index: 3 } };

    assert_eq!(edge.from.index, 0);
    assert_eq!(edge.to.field, 0);
    assert_eq!(edge.to.index, 3);
}

#[test]
fn a_graph_node_carries_its_identity_and_type() {
    let node = GraphNode { id: NodeId(4), node_type: NodeTypeId(1) };
    assert_eq!(node.id, NodeId(4));
    assert!(NodeId(3) < node.id);
    assert_eq!(node.node_type.0, 1);
}
