use std::any::TypeId;

use sway::doc::EntityDoc;
use sway::editor::{delete_plan, saturate, wire_source_id, IntKind};
use sway::id::NodeId;
use sway::reconcile::{components_to_remove, named_items, NamedItem};
use sway::registry::{ComponentDocRegistry, ComponentEntry};
use sway::tick_step::{before_node, cook_gate, copy_changed, NodeRuntime};
use sway::world_order::{rebuild_world_order, BehaviourAt, WireLink, WorldStep};

fn e(index: u32) -> NodeId {
    NodeId::new(index, 0)
}

fn wire(src: NodeId, dst: NodeId, wire: usize) -> WireLink {
    WireLink { src, dst, wire, source_present: true, target_present: true }
}

fn runs(entity: NodeId, behaviour: usize) -> BehaviourAt {
    BehaviourAt { entity, behaviour }
}

#[test]
fn a_rebuild_emits_propagate_before_the_behaviour_that_consumes_it() {
    let (lfo, osc) = (e(1), e(2));
    let plan = rebuild_world_order(&[wire(lfo, osc, 0)], &[runs(osc, 7), runs(lfo, 3)]);
    assert_eq!(plan.order, vec![lfo, osc]);
    assert_eq!(
        plan.steps,
        vec![
            WorldStep::Run { behaviour: 3, entity: lfo },
            WorldStep::Propagate { src: lfo, dst: osc, wire: 0 },
            WorldStep::Run { behaviour: 7, entity: osc },
        ]
    );
}

#[test]
fn a_propagate_step_carries_the_wire_name() {
    let plan = rebuild_world_order(&[wire(e(1), e(2), 4)], &[]);
    match plan.steps[0] {
        WorldStep::Propagate { wire, .. } => assert_eq!(wire, 4),
        other => panic!("expected a propagation step, got {other:?}"),
    }
}

#[test]
fn a_two_hop_chain_is_ordered_end_to_end() {
    let (a, b, c) = (e(3), e(2), e(1));
    let plan = rebuild_world_order(&[wire(b, c, 0), wire(a, b, 0)], &[]);
    assert_eq!(plan.order, vec![a, b, c]);
    assert_eq!(
        plan.steps,
        vec![WorldStep::Propagate { src: a, dst: b, wire: 0 }, WorldStep::Propagate { src: b, dst: c, wire: 0 }]
    );
}

#[test]
fn a_cycle_is_reported_in_the_diagnostics() {
    // Two gains driving each other: each is both source and target.
    let (a, b) = (e(1), e(2));
    let plan = rebuild_world_order(&[wire(b, a, 0), wire(a, b, 0)], &[runs(a, 0), runs(b, 0)]);
    let mut cycles = plan.cycles.clone();
    cycles.sort();
    assert_eq!(cycles, vec![a, b]);
    assert!(!(plan.cycles.is_empty() && plan.missing_source.is_empty() && plan.missing_target.is_empty()));
}

#[test]
fn what_a_cycle_feeds_runs_after_it_but_is_not_reported() {
    let (a, b, c) = (e(1), e(2), e(3));
    let plan = rebuild_world_order(&[wire(a, b, 0), wire(b, a, 0), wire(b, c, 0)], &[]);
    assert_eq!(plan.order, vec![a, b, c]);
    assert_eq!(plan.cycles, vec![a, b]);
}

#[test]
fn a_producer_without_the_source_component_is_reported() {
    let (a, b) = (e(1), e(2));
    let link = WireLink { src: a, dst: b, wire: 2, source_present: false, target_present: true };
    let plan = rebuild_world_order(&[link], &[]);
    assert_eq!(plan.missing_source, vec![(a, 2)]);
    assert!(plan.missing_target.is_empty());
}

#[test]
fn a_consumer_without_the_target_component_is_reported() {
    let (a, b) = (e(1), e(2));
    let link = WireLink { src: a, dst: b, wire: 5, source_present: true, target_present: false };
    let plan = rebuild_world_order(&[link], &[]);
    assert_eq!(plan.missing_target, vec![(b, 5)]);
}

#[test]
fn a_well_formed_graph_reports_nothing() {
    let plan = rebuild_world_order(&[wire(e(1), e(2), 0)], &[runs(e(2), 0)]);
    assert!(plan.cycles.is_empty() && plan.missing_source.is_empty() && plan.missing_target.is_empty());
}

#[test]
fn an_entity_with_only_a_behaviour_still_runs() {
    let plan = rebuild_world_order(&[], &[runs(e(9), 1), runs(e(4), 2), runs(e(9), 3)]);
    assert_eq!(plan.order, vec![e(4), e(9)]);
    assert_eq!(
        plan.steps,
        vec![
            WorldStep::Run { behaviour: 2, entity: e(4) },
            WorldStep::Run { behaviour: 1, entity: e(9) },
            WorldStep::Run { behaviour: 3, entity: e(9) },
        ]
    );
}

fn runtime(last: Option<u32>, dirty: bool) -> Option<NodeRuntime> {
    Some(NodeRuntime { last_inlets_tick: last, cook_dirty: dirty, last_product_ticks: Vec::new() })
}

#[test]
fn a_copy_that_cannot_be_compared_counts_as_changed() {
    assert!(copy_changed(None));
    assert!(copy_changed(Some(false)));
    assert!(!copy_changed(Some(true)));
}

#[test]
fn an_unchanged_node_does_not_reprefill() {
    let mut rt = runtime(Some(5), false);
    assert!(!before_node(&mut rt, false, Some(5)), "gate must not re-fire on an unchanged node");
    let rt = rt.unwrap();
    assert_eq!(rt.last_inlets_tick, Some(5));
    assert!(!rt.cook_dirty);
}

#[test]
fn an_authored_inlet_edit_dirties_the_node() {
    let mut rt = runtime(Some(5), false);
    assert!(before_node(&mut rt, false, Some(9)));
    let rt = rt.unwrap();
    assert_eq!(rt.last_inlets_tick, Some(9));
    assert!(rt.cook_dirty);
}

#[test]
fn a_changed_driven_input_dirties_the_node() {
    let mut rt = runtime(Some(5), false);
    assert!(!before_node(&mut rt, true, Some(5)));
    assert!(rt.unwrap().cook_dirty, "a driven input that changed must dirty its node");
}

#[test]
fn a_steady_driven_input_does_not_dirty_the_node() {
    let mut rt = runtime(Some(5), false);
    before_node(&mut rt, false, Some(5));
    assert!(!rt.unwrap().cook_dirty, "an unchanged value must not dirty its node every tick");
}

#[test]
fn a_node_without_a_runtime_record_prefills_but_never_cooks() {
    let mut rt: Option<NodeRuntime> = None;
    assert!(before_node(&mut rt, true, Some(1)));
    assert!(rt.is_none());
    assert!(!cook_gate(&mut rt, vec![Some(1)]));
}

#[test]
fn a_steady_graph_cooks_nothing_after_the_first_tick() {
    let mut rt = runtime(None, true);
    assert!(cook_gate(&mut rt, vec![Some(3)]), "the first tick cooks");
    assert!(!cook_gate(&mut rt, vec![Some(3)]), "an idle graph must not cook");
    let rt = rt.unwrap();
    assert!(!rt.cook_dirty);
    assert_eq!(rt.last_product_ticks, vec![Some(3)]);
}

#[test]
fn an_upstream_cook_propagates_to_its_feeds_consumer_in_the_same_tick() {
    let mut rt = runtime(None, false);
    assert!(cook_gate(&mut rt, vec![Some(3)]));
    assert!(cook_gate(&mut rt, vec![Some(4)]), "a moved source tick re-cooks the consumer");
}

fn registry() -> ComponentDocRegistry {
    let mut r = ComponentDocRegistry::new();
    r.register(ComponentEntry { name: "Lfo", type_id: TypeId::of::<u8>(), type_path: "sway::Lfo" });
    r.register(ComponentEntry { name: "FloatOut", type_id: TypeId::of::<u16>(), type_path: "sway::FloatOut" });
    r.register(ComponentEntry { name: "Osc", type_id: TypeId::of::<u32>(), type_path: "sway::Osc" });
    r
}

fn doc(names: &[&str]) -> EntityDoc {
    EntityDoc {
        id: "a".to_string(),
        components: names.iter().map(|n| (n.to_string(), "()".to_string())).collect(),
        wires: Vec::new(),
    }
}

#[test]
fn an_unknown_component_name_is_reported_and_the_rest_applies() {
    let items = named_items(&doc(&["Nope", "Osc"]), &registry());
    assert_eq!(items, vec![NamedItem::Unknown, NamedItem::Entry(2)]);
}

#[test]
fn a_component_dropped_from_the_document_is_removed() {
    let items = named_items(&doc(&["Lfo"]), &registry());
    // The entity holds all three; nothing is required by Lfo here.
    assert_eq!(components_to_remove(&items, &[false, false, false], &[true, true, true]), vec![1, 2]);
}

#[test]
fn a_required_companion_survives_a_document_that_does_not_name_it() {
    let items = named_items(&doc(&["Lfo"]), &registry());
    // Lfo requires FloatOut.
    assert_eq!(components_to_remove(&items, &[false, true, false], &[true, true, true]), vec![2]);
}

#[test]
fn a_payload_that_will_not_deserialize_leaves_the_existing_component_alone() {
    // A named item counts as named whatever becomes of its payload.
    let items = named_items(&doc(&["Osc"]), &registry());
    assert_eq!(components_to_remove(&items, &[false, false, false], &[false, false, true]), Vec::<usize>::new());
}

#[test]
fn an_integer_write_saturates_to_the_field_type() {
    assert_eq!(saturate(300, IntKind::U8), 255);
    assert_eq!(saturate(-5, IntKind::U32), 0);
    assert_eq!(saturate(-200, IntKind::I8), -128);
    assert_eq!(saturate(42, IntKind::I16), 42);
    assert_eq!(saturate(i64::MIN, IntKind::I64), i64::MIN as i128);
    assert_eq!(saturate(7, IntKind::U64), 7);
}

#[test]
fn deleting_an_entity_reparents_its_children_and_clears_its_selection() {
    let plan = delete_plan(5, Some(1), &[6, 7], Some(5));
    assert_eq!(plan.reparent, vec![(6, Some(1)), (7, Some(1))]);
    assert_eq!(plan.selection, None);
    let plan = delete_plan(5, None, &[6], Some(9));
    assert_eq!(plan.reparent, vec![(6, None)]);
    assert_eq!(plan.selection, Some(9));
}

#[test]
fn a_wire_to_an_entity_the_document_does_not_own_is_not_saved() {
    let carriers = vec![("a".to_string(), 10), ("b".to_string(), 11)];
    assert_eq!(wire_source_id(&carriers, 11), Some("b".to_string()));
    assert_eq!(wire_source_id(&carriers, 99), None);
}
