use sway::command::{apply_graph_command, CommandOutcome, GraphCommand};
use sway::edge::{Edge, Port};
use sway::id::{EdgeId, NodeId};
use sway::legality::{compatibility, is_valueless, Compat, Shape, TypeDesc};
use sway::model::{ConnectError, Graph};
use sway::node::{values_equal, Field, FieldWrite, Node, Part, Value, ValueKind};
use sway::order::{rebuild, topological_order, EvalOrder, GraphStep, Link};
use sway::path::{absolute_path, parse, resolve};

// --- fixtures: the graph's own test node kinds ---------------------------

const F32: u64 = 1;
const BOOL: u64 = 2;
const OPTION_F32: u64 = 3;
const VEC_F32: u64 = 4;
const MARKER: u64 = 5;
const U32: u64 = 6;
const UNIT: u64 = 7;
const STRING: u64 = 8;
const PART: u64 = 100;

fn desc(id: u64, path: &str, shape: Shape, zero_sized: bool) -> TypeDesc {
    TypeDesc { id, path: path.to_string(), shape, zero_sized }
}

fn f32_type() -> TypeDesc {
    desc(F32, "f32", Shape::Plain, false)
}

fn float(x: f32) -> Value {
    Value { type_id: F32, kind: ValueKind::F32, bits: x.to_bits() as u64 }
}

fn field(path: &str, ty: TypeDesc, value: Value) -> Field {
    Field { path: path.to_string(), ty: Some(ty), index: None, value }
}

fn at(index: usize, f: Field) -> Field {
    Field { index: Some(index), ..f }
}

fn part(name: &str, offset: u64) -> Field {
    field("", desc(PART + offset, name, Shape::Plain, false), Value { type_id: PART + offset, kind: ValueKind::Plain, bits: 0 })
}

fn unit_part() -> Field {
    field("", desc(UNIT, "()", Shape::Plain, true), Value { type_id: UNIT, kind: ValueKind::Plain, bits: 0 })
}

fn marker() -> Field {
    field("marker", desc(MARKER, "sway_graph::graph::testing::Marker", Shape::Plain, true), Value {
        type_id: MARKER,
        kind: ValueKind::Plain,
        bits: 0,
    })
}

fn source() -> Node {
    Node::new(
        "sway_graph::graph::testing::Source",
        vec![part("sway_graph::graph::testing::Base", 1), field("base", f32_type(), float(0.0))],
        vec![
            part("sway_graph::graph::testing::Published", 2),
            field("publishes", desc(U32, "u32", Shape::Plain, false), Value { type_id: U32, kind: ValueKind::Plain, bits: 0 }),
        ],
        vec![part("sway_graph::graph::testing::Out", 3), field("out", f32_type(), float(0.0)), marker()],
    )
}

fn counter() -> Node {
    Node::new(
        "sway_graph::graph::testing::Counter",
        vec![part("sway_graph::graph::testing::Step", 4), at(0, field("step", f32_type(), float(0.0)))],
        vec![part("sway_graph::graph::testing::Accumulator", 5), field("total", f32_type(), float(0.0))],
        vec![part("sway_graph::graph::testing::Total", 6), field("total", f32_type(), float(0.0))],
    )
}

fn sink() -> Node {
    Node::new(
        "sway_graph::graph::testing::Sink",
        vec![
            part("sway_graph::graph::testing::SinkIn", 7),
            field("value", f32_type(), float(0.0)),
            field("flag", desc(BOOL, "bool", Shape::Plain, false), Value { type_id: BOOL, kind: ValueKind::Plain, bits: 0 }),
            field(
                "maybe",
                desc(OPTION_F32, "core::option::Option<f32>", Shape::Optional(F32), false),
                Value { type_id: OPTION_F32, kind: ValueKind::Plain, bits: 0 },
            ),
            marker(),
        ],
        vec![unit_part()],
        vec![
            part("sway_graph::graph::testing::SinkOut", 8),
            field("seen", f32_type(), float(0.0)),
            field("had_maybe", desc(BOOL, "bool", Shape::Plain, false), Value { type_id: BOOL, kind: ValueKind::Plain, bits: 0 }),
        ],
    )
}

fn fan() -> Node {
    let list = desc(VEC_F32, "alloc::vec::Vec<f32>", Shape::List(F32), false);
    Node::new(
        "sway_graph::graph::testing::Fan",
        vec![part("sway_graph::graph::testing::FanIn", 9), field("values", list.clone(), Value {
            type_id: VEC_F32,
            kind: ValueKind::Plain,
            bits: 0,
        })],
        vec![unit_part()],
        vec![part("sway_graph::graph::testing::FanOut", 10), field("sum", f32_type(), float(0.0)), field(
            "seen",
            list,
            Value { type_id: VEC_F32, kind: ValueKind::Plain, bits: 0 },
        )],
    )
}

fn source_and_counter() -> (Graph, NodeId, NodeId) {
    let mut graph = Graph::default();
    let a = graph.insert(source());
    let b = graph.insert(counter());
    (graph, a, b)
}

fn two_drained() -> (Graph, NodeId, NodeId) {
    let (mut graph, a, b) = source_and_counter();
    graph.drain_dirty();
    (graph, a, b)
}

fn n(index: u32) -> NodeId {
    NodeId::new(index, 0)
}

fn link(src: NodeId, dst: NodeId) -> Link {
    Link { src, dst }
}

fn name(id: NodeId) -> String {
    format!("{}v{}", id.index(), id.generation())
}

fn shapes(order: &EvalOrder) -> Vec<String> {
    order
        .steps
        .iter()
        .map(|step| match step {
            GraphStep::TruncateList { node, len, .. } => format!("truncate {} -> {len}", name(*node)),
            GraphStep::Propagate(step) => {
                format!("propagate {} -> {} {:?}[{}]", name(step.src), name(step.dst), step.compat, step.index)
            },
            GraphStep::Evaluate { node } => format!("evaluate {}", name(*node)),
        })
        .collect()
}

// --- identity -------------------------------------------------------------

#[test]
fn node_ids_order_by_index_then_generation_ascending() {
    assert!(NodeId::new(0, 9) < NodeId::new(1, 0));
    assert!(NodeId::new(1, 0) < NodeId::new(1, 1));
    assert!(NodeId::new(0, 9).precedes(NodeId::new(1, 0)));
    assert!(NodeId::new(1, 0).precedes(NodeId::new(1, 1)));
}

#[test]
fn a_reused_slot_is_a_different_id() {
    assert_ne!(NodeId::new(3, 0), NodeId::new(3, 1));
    assert!(!NodeId::new(3, 0).same(NodeId::new(3, 1)));
}

#[test]
fn an_id_reports_its_halves() {
    let id = NodeId::new(7, 2);
    assert_eq!(id.index(), 7);
    assert_eq!(id.generation(), 2);
    assert_eq!(EdgeId::new(41).get(), 41);
}

// --- edges ----------------------------------------------------------------

#[test]
fn an_edge_sorts_by_slot_then_source_then_id() {
    let a = n(1);
    let edge = Edge {
        id: EdgeId::new(5),
        src: Port::new(a, "out"),
        dst: Port::new(n(2), "values"),
        slot: -3,
        compat: Compat::Variadic,
        valueless: false,
    };
    assert_eq!(edge.sort_key(), (-3, a, EdgeId::new(5)));
    assert!(edge.carries_value());
}

// --- legality -------------------------------------------------------------

#[test]
fn the_same_type_is_a_direct_connection() {
    assert_eq!(compatibility(&f32_type(), &f32_type()), Some(Compat::Direct));
}

#[test]
fn an_option_of_the_source_is_an_optional_inlet() {
    let optional = desc(OPTION_F32, "core::option::Option<f32>", Shape::Optional(F32), false);
    assert_eq!(compatibility(&f32_type(), &optional), Some(Compat::Optional));
}

#[test]
fn a_vec_of_the_source_is_a_variadic_inlet() {
    let list = desc(VEC_F32, "alloc::vec::Vec<f32>", Shape::List(F32), false);
    assert_eq!(compatibility(&f32_type(), &list), Some(Compat::Variadic));
}

#[test]
fn a_matching_vec_on_both_sides_stays_direct() {
    let list = desc(VEC_F32, "alloc::vec::Vec<f32>", Shape::List(F32), false);
    assert_eq!(compatibility(&list, &list), Some(Compat::Direct));
}

#[test]
fn mismatched_types_are_illegal() {
    let u32_type = desc(U32, "u32", Shape::Plain, false);
    let option_u32 = desc(20, "core::option::Option<u32>", Shape::Optional(U32), false);
    let vec_u32 = desc(21, "alloc::vec::Vec<u32>", Shape::List(U32), false);
    assert_eq!(compatibility(&f32_type(), &u32_type), None);
    assert_eq!(compatibility(&f32_type(), &option_u32), None);
    assert_eq!(compatibility(&f32_type(), &vec_u32), None);
}

#[test]
fn a_zero_sized_value_is_valueless() {
    assert!(is_valueless(&desc(UNIT, "()", Shape::Plain, true)));
    assert!(!is_valueless(&f32_type()));
}

// --- paths ----------------------------------------------------------------

#[test]
fn the_resolver_prepends_the_part() {
    assert_eq!(absolute_path(Part::Inlets, "frequency"), "inlets.frequency");
    assert_eq!(absolute_path(Part::Outlets, "out"), "outlets.out");
    assert_eq!(absolute_path(Part::State, ""), "state");
    assert_eq!(absolute_path(Part::Inlets, "[2]"), "inlets[2]");
}

#[test]
fn a_stored_path_stays_short() {
    let node = counter();
    let value = resolve(&node, Part::Inlets, "step").expect("resolves");
    assert_eq!(value.ty.as_ref().expect("typed").path, "f32");
}

#[test]
fn an_unknown_path_resolves_to_nothing() {
    let node = counter();
    assert!(resolve(&node, Part::Inlets, "nope").is_none());
}

#[test]
fn a_parsed_path_addresses_the_same_field() {
    let node = counter();
    let parsed = parse(Part::Inlets, "step").expect("parses");
    assert_eq!(parsed, "inlets.step");
    let value = resolve(&node, Part::Inlets, "step").expect("resolves");
    assert_eq!(value.ty.as_ref().expect("typed").path, "f32");
}

#[test]
fn a_path_the_parser_refuses_is_none() {
    assert_eq!(parse(Part::Inlets, "values[oops"), None);
    assert_eq!(parse(Part::Outlets, "out"), Some("outlets.out".to_string()));
}

// --- nodes ----------------------------------------------------------------

#[test]
fn every_part_is_addressable_including_an_empty_one() {
    let node = sink();
    for p in Part::all() {
        assert!(resolve(&node, p, "").is_some(), "{} must resolve", p.as_str());
    }
    assert_eq!(resolve(&node, Part::State, "").unwrap().ty.as_ref().unwrap().path, "()");
}

#[test]
fn a_node_reports_its_kind() {
    let node = counter();
    assert_eq!(node.kind(), "sway_graph::graph::testing::Counter");
}

// --- the model: identity and dirtiness -------------------------------------

#[test]
fn a_deleted_id_never_resolves_to_a_later_node() {
    let mut graph = Graph::default();
    let first = graph.insert(source());
    graph.remove(first);
    let second = graph.insert(source());

    assert_eq!(first.index(), second.index(), "the slot really was reused, or this test proves nothing");
    assert_ne!(first, second);
    assert!(graph.get(first).is_none());
    assert!(graph.get(second).is_some());
}

#[test]
fn ids_are_stable_while_the_node_lives() {
    let (mut graph, a, b) = source_and_counter();
    graph.remove(a);
    assert!(graph.get(b).is_some(), "deleting a sibling did not move b");
}

#[test]
fn creating_a_node_dirties_only_that_node() {
    let (mut graph, a, b) = source_and_counter();
    graph.drain_dirty();
    let c = graph.insert(sink());
    assert_eq!(graph.drain_dirty(), vec![c]);
    assert!(!graph.is_dirty(a) && !graph.is_dirty(b));
}

#[test]
fn draining_clears_the_dirty_set() {
    let (mut graph, _, _) = source_and_counter();
    assert_eq!(graph.drain_dirty().len(), 2);
    assert!(graph.drain_dirty().is_empty());
}

#[test]
fn deleting_a_node_records_it_as_removed_and_not_as_dirty() {
    let (mut graph, a, _) = source_and_counter();
    graph.drain_dirty();
    graph.remove(a);
    assert!(graph.drain_dirty().is_empty());
    assert_eq!(graph.drain_removed(), vec![a]);
}

// --- the model: connect ----------------------------------------------------

#[test]
fn a_self_connection_is_refused() {
    let mut graph = Graph::default();
    let a = graph.insert(counter());
    assert_eq!(graph.connect(Port::new(a, "total"), Port::new(a, "step"), 0), Err(ConnectError::SelfConnection));
    assert!(graph.edges().is_empty());
}

#[test]
fn an_illegal_connection_is_refused_without_evaluating_anything() {
    let mut graph = Graph::default();
    let a = graph.insert(source());
    let b = graph.insert(sink());
    let error = graph.connect(Port::new(a, "out"), Port::new(b, "flag"), 0).expect_err("f32 does not fit bool");
    assert!(matches!(error, ConnectError::IncompatibleTypes { .. }));
    assert_eq!(error, ConnectError::IncompatibleTypes { src: "f32".to_string(), dst: "bool".to_string() });
    assert!(graph.edges().is_empty());
    assert!(graph.eval_order().is_empty(), "nothing was evaluated");
}

#[test]
fn an_unknown_path_is_refused() {
    let (mut graph, a, b) = source_and_counter();
    assert_eq!(graph.connect(Port::new(a, "nope"), Port::new(b, "step"), 0), Err(ConnectError::MissingSourcePath));
    assert_eq!(
        graph.connect(Port::new(a, "out"), Port::new(b, "nope"), 0),
        Err(ConnectError::MissingDestinationPath)
    );
}

#[test]
fn a_stale_node_id_is_refused() {
    let (mut graph, a, b) = source_and_counter();
    graph.remove(a);
    assert_eq!(graph.connect(Port::new(a, "out"), Port::new(b, "step"), 0), Err(ConnectError::MissingNode(a)));
}

#[test]
fn an_untyped_value_is_refused() {
    let mut graph = Graph::default();
    let a = graph.insert(Node::new(
        "untyped",
        vec![],
        vec![],
        vec![Field { path: "out".to_string(), ty: None, index: Some(0), value: float(0.0) }],
    ));
    let b = graph.insert(counter());
    assert_eq!(graph.connect(Port::new(a, "out"), Port::new(b, "step"), 0), Err(ConnectError::UntypedValue));
}

#[test]
fn a_single_connection_inlet_is_replaced_not_doubled() {
    let mut graph = Graph::default();
    let a = graph.insert(source());
    let b = graph.insert(source());
    let c = graph.insert(counter());
    graph.connect(Port::new(a, "out"), Port::new(c, "step"), 0).expect("legal");
    let second = graph.connect(Port::new(b, "out"), Port::new(c, "step"), 0).expect("legal");

    assert_eq!(graph.edges().len(), 1);
    assert_eq!(graph.edges()[0].id, second);
    assert_eq!(graph.edges()[0].src.node, b);
}

#[test]
fn a_variadic_inlet_accumulates() {
    let mut graph = Graph::default();
    let fan = graph.insert(fan());
    for _ in 0..3 {
        let source = graph.insert(source());
        graph.connect(Port::new(source, "out"), Port::new(fan, "values"), 0).expect("legal");
    }
    assert_eq!(graph.edges().len(), 3);
    assert!(graph.edges().iter().all(|edge| edge.compat == Compat::Variadic));
}

#[test]
fn an_optional_inlet_takes_the_bare_source_type() {
    let mut graph = Graph::default();
    let a = graph.insert(source());
    let b = graph.insert(sink());
    let id = graph.connect(Port::new(a, "out"), Port::new(b, "maybe"), 0).expect("f32 -> Option<f32> is legal");
    assert_eq!(graph.edge(id).unwrap().compat, Compat::Optional);
}

#[test]
fn a_marker_edge_is_recorded_as_valueless() {
    let mut graph = Graph::default();
    let a = graph.insert(source());
    let b = graph.insert(sink());
    let id = graph.connect(Port::new(a, "marker"), Port::new(b, "marker"), 0).expect("legal");
    assert!(graph.edge(id).unwrap().valueless);
}

#[test]
fn deleting_a_node_deletes_every_edge_naming_it() {
    let mut graph = Graph::default();
    let a = graph.insert(source());
    let b = graph.insert(counter());
    let c = graph.insert(sink());
    graph.connect(Port::new(a, "out"), Port::new(b, "step"), 0).expect("legal");
    graph.connect(Port::new(b, "total"), Port::new(c, "value"), 0).expect("legal");
    assert_eq!(graph.edges().len(), 2);

    graph.remove(b);

    assert!(graph.edges().is_empty(), "both the inbound and the outbound edge are gone");
}

#[test]
fn deleting_a_node_reports_the_nodes_left_on_the_other_end() {
    let mut graph = Graph::default();
    let producer = graph.insert(source());
    let consumer = graph.insert(counter());
    let downstream = graph.insert(sink());
    graph.connect(Port::new(producer, "out"), Port::new(consumer, "step"), 0).expect("legal");
    graph.connect(Port::new(consumer, "total"), Port::new(downstream, "value"), 0).expect("legal");
    graph.drain_dirty();

    graph.remove(consumer);

    let dirty = graph.drain_dirty();
    assert!(dirty.contains(&producer), "the producer it read from is reported: {dirty:?}");
    assert!(dirty.contains(&downstream), "the consumer that read from it is reported: {dirty:?}");
    assert!(!dirty.contains(&consumer), "the deleted node is reported as removed, not as changed: {dirty:?}");
}

#[test]
fn disconnect_removes_exactly_one_edge() {
    let mut graph = Graph::default();
    let fan = graph.insert(fan());
    let a = graph.insert(source());
    let b = graph.insert(source());
    let first = graph.connect(Port::new(a, "out"), Port::new(fan, "values"), 0).expect("legal");
    graph.connect(Port::new(b, "out"), Port::new(fan, "values"), 1).expect("legal");

    assert!(graph.disconnect(first));
    assert_eq!(graph.edges().len(), 1);
    assert!(!graph.disconnect(first), "already gone");
}

#[test]
fn reordering_changes_one_edges_key_only() {
    let mut graph = Graph::default();
    let fan = graph.insert(fan());
    let a = graph.insert(source());
    let b = graph.insert(source());
    let first = graph.connect(Port::new(a, "out"), Port::new(fan, "values"), 10).expect("legal");
    let second = graph.connect(Port::new(b, "out"), Port::new(fan, "values"), 20).expect("legal");

    assert!(graph.set_slot(first, 30));

    assert_eq!(graph.edge(first).unwrap().slot, 30);
    assert_eq!(graph.edge(second).unwrap().slot, 20, "the other edge's key is untouched");
}

// --- the model: the mutation API -------------------------------------------

#[test]
fn model_set_field_writes_one_inlet_and_dirties_only_that_node() {
    let (mut graph, a, b) = two_drained();
    assert_eq!(graph.set_field(b, "step", float(2.5)), FieldWrite::Written);
    assert_eq!(graph.drain_dirty(), vec![b], "{a:?} is untouched");
}

#[test]
fn model_an_equal_set_field_reports_nothing() {
    let (mut graph, _, b) = two_drained();
    assert_eq!(graph.set_field(b, "step", float(0.0)), FieldWrite::Unchanged);
    assert!(graph.drain_dirty().is_empty());
}

#[test]
fn set_field_refuses_a_path_that_does_not_resolve() {
    let (mut graph, _, b) = two_drained();
    assert_eq!(graph.set_field(b, "no such field", float(1.0)), FieldWrite::Rejected);
    assert!(graph.drain_dirty().is_empty());
}

#[test]
fn set_field_refuses_a_node_that_does_not_exist() {
    let (mut graph, a, _) = two_drained();
    graph.remove(a);
    assert_eq!(graph.set_field(a, "level", float(1.0)), FieldWrite::Rejected);
}

#[test]
fn a_mismatched_value_leaves_the_field_as_it_was() {
    let (mut graph, _, b) = two_drained();
    let text = Value { type_id: STRING, kind: ValueKind::Plain, bits: 7 };

    assert_eq!(graph.set_field(b, "step", text), FieldWrite::Rejected);

    let step = resolve(graph.get(b).unwrap(), Part::Inlets, "step").unwrap();
    assert_eq!(step.value, float(0.0));
    assert!(graph.drain_dirty().is_empty());
}

#[test]
fn a_written_field_reads_back() {
    let (mut graph, _, b) = two_drained();
    assert_eq!(graph.set_field(b, "step", float(4.0)), FieldWrite::Written);
    let step = resolve(graph.get(b).unwrap(), Part::Inlets, "step").unwrap();
    assert_eq!(step.value, float(4.0));
}

#[test]
fn model_connect_surfaces_the_reason_it_was_refused() {
    let (mut graph, a, b) = two_drained();
    assert_eq!(
        graph.connect(Port::new(a, "out"), Port::new(b, "nope"), 0),
        Err(ConnectError::MissingDestinationPath)
    );
}

#[test]
fn model_connect_then_disconnect_round_trips() {
    let (mut graph, a, b) = two_drained();
    let edge = graph.connect(Port::new(a, "out"), Port::new(b, "step"), 0).expect("legal");
    assert!(graph.disconnect(edge));
    assert!(graph.edges().is_empty());
}

#[test]
fn disconnect_reports_an_edge_that_does_not_exist() {
    let (mut graph, _, _) = two_drained();
    assert!(!graph.disconnect(EdgeId::new(99)));
}

#[test]
fn remove_takes_the_node_and_its_edges() {
    let (mut graph, a, b) = two_drained();
    graph.connect(Port::new(a, "out"), Port::new(b, "step"), 0).expect("legal");

    assert!(graph.remove(a).is_some());
    assert!(graph.get(a).is_none());
    assert!(graph.edges().is_empty());
    assert_eq!(graph.drain_removed(), vec![a]);
    assert!(graph.remove(a).is_none(), "and again reports nothing");
}

#[test]
fn model_set_slot_reorders_one_edge() {
    let mut graph = Graph::default();
    let fan = graph.insert(fan());
    let a = graph.insert(source());
    let edge = graph.connect(Port::new(a, "out"), Port::new(fan, "values"), 10).expect("legal");

    assert!(graph.set_slot(edge, 20));
    assert_eq!(graph.edge(edge).unwrap().slot, 20);
    assert!(!graph.set_slot(edge, 20), "an equal key reports nothing");
    assert!(!graph.set_slot(EdgeId::new(99), 1), "and so does no edge");
}

#[test]
fn edges_into_and_from_a_node_are_in_creation_order() {
    let mut graph = Graph::default();
    let fan = graph.insert(fan());
    let a = graph.insert(source());
    let b = graph.insert(source());
    let first = graph.connect(Port::new(a, "out"), Port::new(fan, "values"), 5).expect("legal");
    let second = graph.connect(Port::new(b, "out"), Port::new(fan, "values"), 1).expect("legal");
    let into: Vec<EdgeId> = graph.edges_into(fan).iter().map(|e| e.id).collect();
    assert_eq!(into, vec![first, second]);
    let from: Vec<EdgeId> = graph.edges_from(b).iter().map(|e| e.id).collect();
    assert_eq!(from, vec![second]);
    assert!(graph.edges_from(fan).is_empty());
}

#[test]
fn a_graph_counts_its_live_nodes() {
    let (mut graph, a, b) = source_and_counter();
    assert_eq!(graph.len(), 2);
    assert!(!graph.is_empty());
    assert_eq!(graph.node_ids(), vec![a, b]);
    graph.remove(a);
    assert_eq!(graph.len(), 1);
    assert_eq!(graph.node_ids(), vec![b]);
    assert!(graph.contains(b) && !graph.contains(a));
}

#[test]
fn rebuilding_clears_the_topology_flag() {
    let (mut graph, a, b) = source_and_counter();
    assert!(graph.topology_dirty());
    graph.connect(Port::new(a, "out"), Port::new(b, "step"), 0).expect("legal");
    graph.rebuild_order_if_dirty();
    assert!(!graph.topology_dirty());
    assert_eq!(graph.eval_order(), &[a, b]);
    assert!(graph.cycles().is_empty());
    graph.mark_topology_dirty();
    assert!(graph.topology_dirty());
}

#[test]
fn marking_a_node_dirty_records_it_once() {
    let (mut graph, a, b) = two_drained();
    graph.mark_dirty(b);
    graph.mark_dirty(b);
    assert!(graph.is_dirty(b) && !graph.is_dirty(a));
    assert_eq!(graph.dirty(), &[b]);
    graph.remove(a);
    graph.mark_dirty(a);
    assert_eq!(graph.dirty(), &[b], "a stale id is not recorded");
}

// --- order ------------------------------------------------------------------

#[test]
fn order_a_chain_is_ordered_source_first() {
    let (a, b, c) = (n(3), n(1), n(2));
    let sorted = topological_order(&[a, b, c], &[link(a, b), link(b, c)]);
    assert_eq!(sorted.order, vec![a, b, c]);
    assert!(sorted.cycles.is_empty());
}

#[test]
fn independent_nodes_are_ordered_by_id_for_determinism() {
    let sorted = topological_order(&[n(2), n(1), n(3)], &[]);
    assert_eq!(sorted.order, vec![n(1), n(2), n(3)]);
}

#[test]
fn order_a_cycle_is_reported_and_its_members_appended() {
    let (free, a, b) = (n(1), n(2), n(3));
    let sorted = topological_order(&[free, a, b], &[link(a, b), link(b, a)]);
    assert_eq!(sorted.order, vec![free, a, b]);
    assert_eq!(sorted.cycles, vec![a, b]);
}

#[test]
fn a_link_naming_an_unknown_node_is_ignored() {
    let sorted = topological_order(&[n(1)], &[link(n(77), n(1))]);
    assert_eq!(sorted.order, vec![n(1)]);
    assert!(sorted.cycles.is_empty());
}

#[test]
fn two_edges_between_the_same_pair_still_order_correctly() {
    let (a, b) = (n(1), n(2));
    let sorted = topological_order(&[a, b], &[link(a, b), link(a, b)]);
    assert_eq!(sorted.order, vec![a, b]);
    assert!(sorted.cycles.is_empty());
}

#[test]
fn what_depends_on_a_cycle_is_appended_with_it() {
    let (a, b, c) = (n(1), n(2), n(3));
    let sorted = topological_order(&[c, b, a], &[link(a, b), link(b, a), link(b, c)]);
    assert_eq!(sorted.order, vec![a, b, c]);
    assert_eq!(sorted.cycles, vec![a, b], "c is fed by the cycle but lies on none");
}

#[test]
fn rebuilding_twice_without_a_change_gives_the_same_order() {
    let mut graph = Graph::default();
    let a = graph.insert(source());
    let b = graph.insert(counter());
    graph.connect(Port::new(a, "out"), Port::new(b, "step"), 0).expect("legal");

    let first = rebuild(&graph);
    let second = rebuild(&graph);
    assert_eq!(first.order, second.order);
    assert_eq!(shapes(&first), shapes(&second));
}

#[test]
fn a_propagate_step_comes_before_the_node_that_consumes_it() {
    let mut graph = Graph::default();
    let a = graph.insert(source());
    let b = graph.insert(counter());
    graph.connect(Port::new(a, "out"), Port::new(b, "step"), 0).expect("legal");

    assert_eq!(
        shapes(&rebuild(&graph)),
        vec![
            format!("evaluate {}", name(a)),
            format!("propagate {} -> {} Direct[0]", name(a), name(b)),
            format!("evaluate {}", name(b)),
        ]
    );
}

#[test]
fn a_valueless_edge_emits_no_propagate_step_but_still_orders() {
    let mut graph = Graph::default();
    let a = graph.insert(source());
    let b = graph.insert(sink());
    graph.connect(Port::new(a, "marker"), Port::new(b, "marker"), 0).expect("legal");

    assert_eq!(
        shapes(&rebuild(&graph)),
        vec![format!("evaluate {}", name(a)), format!("evaluate {}", name(b))],
        "no propagate step, but A still precedes B"
    );
}

#[test]
fn variadic_edges_are_indexed_in_slot_order_not_slot_value() {
    let mut graph = Graph::default();
    let fan = graph.insert(fan());
    let mut sources = Vec::new();
    for _ in 0..3 {
        sources.push(graph.insert(source()));
    }
    for (source, slot) in sources.iter().zip([30, 10, 20]) {
        graph.connect(Port::new(*source, "out"), Port::new(fan, "values"), slot).expect("legal");
    }

    let order = rebuild(&graph);
    let indices: Vec<(NodeId, usize)> = order
        .steps
        .iter()
        .filter_map(|step| match step {
            GraphStep::Propagate(step) => {
                assert_eq!(step.compat, Compat::Variadic);
                Some((step.src, step.index))
            },
            _ => None,
        })
        .collect();
    assert_eq!(indices, vec![(sources[1], 0), (sources[2], 1), (sources[0], 2)]);
}

#[test]
fn a_list_inlet_is_truncated_to_its_edge_count() {
    let mut graph = Graph::default();
    let fan = graph.insert(fan());
    let source = graph.insert(source());
    graph.connect(Port::new(source, "out"), Port::new(fan, "values"), 0).expect("legal");

    let order = rebuild(&graph);
    let truncates: Vec<usize> = order
        .steps
        .iter()
        .filter_map(|step| match step {
            GraphStep::TruncateList { len, .. } => Some(*len),
            _ => None,
        })
        .collect();
    assert_eq!(truncates, vec![1]);
}

#[test]
fn a_disconnected_list_inlet_is_truncated_to_zero() {
    let mut graph = Graph::default();
    let fan = graph.insert(fan());
    let source = graph.insert(source());
    let edge = graph.connect(Port::new(source, "out"), Port::new(fan, "values"), 0).expect("legal");
    graph.disconnect(edge);

    let order = rebuild(&graph);
    assert_eq!(shapes(&order), vec![
        format!("truncate {} -> 0", name(fan)),
        format!("evaluate {}", name(fan)),
        format!("evaluate {}", name(source)),
    ]);
    match &order.steps[0] {
        GraphStep::TruncateList { path, .. } => assert_eq!(path, "inlets.values"),
        _ => panic!("a truncation comes first"),
    }
}

#[test]
fn a_propagate_step_carries_both_absolute_paths() {
    let mut graph = Graph::default();
    let a = graph.insert(source());
    let b = graph.insert(sink());
    let edge = graph.connect(Port::new(a, "out"), Port::new(b, "maybe"), 0).expect("legal");
    let order = rebuild(&graph);
    let step = order
        .steps
        .iter()
        .find_map(|step| match step {
            GraphStep::Propagate(step) => Some(step.clone()),
            _ => None,
        })
        .expect("one propagate step");
    assert_eq!(step.edge, edge);
    assert_eq!(step.src_path, "outlets.out");
    assert_eq!(step.dst_path, "inlets.maybe");
    assert_eq!(step.compat, Compat::Optional);
}

#[test]
fn a_cycle_in_the_graph_still_evaluates_every_node() {
    let mut graph = Graph::default();
    let a = graph.insert(counter());
    let b = graph.insert(counter());
    graph.connect(Port::new(a, "total"), Port::new(b, "step"), 0).expect("legal");
    graph.connect(Port::new(b, "total"), Port::new(a, "step"), 0).expect("legal");
    graph.rebuild_order();
    assert_eq!(graph.eval_order(), &[a, b]);
    assert_eq!(graph.cycles(), &[a, b]);
    assert_eq!(shapes(graph.order()).iter().filter(|s| s.starts_with("evaluate")).count(), 2);
}

// --- commands ----------------------------------------------------------------

#[test]
fn command_set_field_writes_one_inlet_and_dirties_only_that_node() {
    let (mut graph, a, b) = two_drained();
    let outcome = apply_graph_command(&mut graph, &GraphCommand::SetField {
        node: b,
        path: "step".into(),
        value: float(2.5),
    });
    assert_eq!(outcome, CommandOutcome::Applied);
    assert_eq!(graph.drain_dirty(), vec![b], "{a:?} is untouched");
}

#[test]
fn command_an_equal_set_field_reports_nothing() {
    let (mut graph, _, b) = two_drained();
    let command = GraphCommand::SetField { node: b, path: "step".into(), value: float(0.0) };
    assert_eq!(apply_graph_command(&mut graph, &command), CommandOutcome::NoChange);
    assert!(graph.drain_dirty().is_empty());
}

#[test]
fn command_connect_surfaces_the_reason_it_was_refused() {
    let (mut graph, a, b) = two_drained();
    let outcome = apply_graph_command(&mut graph, &GraphCommand::Connect {
        src: Port::new(a, "out"),
        dst: Port::new(b, "nope"),
        slot: 0,
    });
    assert_eq!(outcome, CommandOutcome::Refused(ConnectError::MissingDestinationPath));
}

#[test]
fn command_connect_then_disconnect_round_trips() {
    let (mut graph, a, b) = two_drained();
    apply_graph_command(&mut graph, &GraphCommand::Connect {
        src: Port::new(a, "out"),
        dst: Port::new(b, "step"),
        slot: 0,
    });
    let edge = graph.edges()[0].id;
    assert_eq!(apply_graph_command(&mut graph, &GraphCommand::Disconnect { edge }), CommandOutcome::Applied);
    assert!(graph.edges().is_empty());
}

#[test]
fn delete_removes_the_node_and_its_edges() {
    let (mut graph, a, b) = two_drained();
    apply_graph_command(&mut graph, &GraphCommand::Connect {
        src: Port::new(a, "out"),
        dst: Port::new(b, "step"),
        slot: 0,
    });
    assert_eq!(apply_graph_command(&mut graph, &GraphCommand::Delete { node: a }), CommandOutcome::Applied);
    assert!(graph.get(a).is_none());
    assert!(graph.edges().is_empty());
    assert_eq!(graph.drain_removed(), vec![a]);
    assert_eq!(apply_graph_command(&mut graph, &GraphCommand::Delete { node: a }), CommandOutcome::Unknown);
}

#[test]
fn command_set_slot_reorders_one_edge() {
    let mut graph = Graph::default();
    let fan = graph.insert(fan());
    let a = graph.insert(source());
    let edge = graph.connect(Port::new(a, "out"), Port::new(fan, "values"), 10).expect("legal");
    assert_eq!(apply_graph_command(&mut graph, &GraphCommand::SetSlot { edge, slot: 20 }), CommandOutcome::Applied);
    assert_eq!(graph.edge(edge).unwrap().slot, 20);
    assert_eq!(apply_graph_command(&mut graph, &GraphCommand::SetSlot { edge, slot: 20 }), CommandOutcome::NoChange);
    assert_eq!(
        apply_graph_command(&mut graph, &GraphCommand::SetSlot { edge: EdgeId::new(99), slot: 1 }),
        CommandOutcome::Unknown
    );
}

#[test]
fn a_command_naming_nothing_is_unknown() {
    let (mut graph, a, _) = two_drained();
    assert_eq!(
        apply_graph_command(&mut graph, &GraphCommand::SetField { node: a, path: "nope".into(), value: float(1.0) }),
        CommandOutcome::Unknown
    );
    assert_eq!(
        apply_graph_command(&mut graph, &GraphCommand::Disconnect { edge: EdgeId::new(5) }),
        CommandOutcome::Unknown
    );
}

#[test]
fn writing_negative_zero_over_zero_is_an_equal_write() {
    let (mut graph, _a, b) = two_drained();
    assert_eq!(graph.set_field(b, "step", float(-0.0)), FieldWrite::Unchanged);
    assert!(graph.drain_dirty().is_empty());
}

#[test]
fn writing_nan_is_never_an_equal_write() {
    let (mut graph, _a, b) = two_drained();
    assert_eq!(graph.set_field(b, "step", float(f32::NAN)), FieldWrite::Written);
    assert_eq!(graph.set_field(b, "step", float(f32::NAN)), FieldWrite::Written);
}

#[test]
fn float_values_compare_as_floats() {
    assert!(values_equal(float(0.0), float(-0.0)));
    assert!(!values_equal(float(f32::NAN), float(f32::NAN)));
    assert!(values_equal(float(1.5), float(1.5)));
    assert!(!values_equal(float(1.5), float(2.5)));
    let plain = Value { type_id: 1, kind: ValueKind::Plain, bits: 0x8000_0000 };
    assert!(!values_equal(plain, Value { bits: 0, ..plain }));
}

#[test]
fn a_leading_dot_addresses_the_same_field() {
    let (mut graph, _a, b) = two_drained();
    assert_eq!(graph.set_field(b, ".step", float(3.0)), FieldWrite::Written);
    assert_eq!(graph.set_field(b, "step", float(3.0)), FieldWrite::Unchanged);
}

#[test]
fn a_field_index_addresses_the_field_at_that_position() {
    let (mut graph, a, b) = two_drained();
    assert_eq!(graph.set_field(b, "#0", float(4.0)), FieldWrite::Written);
    assert_eq!(graph.set_field(b, "step", float(4.0)), FieldWrite::Unchanged);
    assert_eq!(graph.set_field(b, "#1", float(4.0)), FieldWrite::Rejected);
    assert!(graph.connect(Port::new(a, "out"), Port::new(b, "#0"), 0).is_ok());
}

#[test]
fn a_malformed_path_resolves_to_nothing() {
    let (mut graph, _a, b) = two_drained();
    assert_eq!(graph.set_field(b, "step[", float(4.0)), FieldWrite::Rejected);
}
