//! The structure pass: parent edges and feeds edges.
//!
//! Separate from the dataflow pass because structure edges are not param
//! dependencies and their failures need their own vocabulary: "cycle
//! detected" is unhelpful when the author filled one slot twice. A parent
//! edge enters no ordering at all; feeds edges produce the cook order, a
//! second topological sort over a different graph.
//!
//! Entities are carried by their bits.

use vstd::prelude::*;
use std::any::TypeId;
use crate::kahn::{fifo_order, kahn_outcome};
use crate::display::{decimal, entities_joined, entity_text, push_decimal, push_entities, push_entity};
use vstd::string::*;
use crate::parents::{find_parent_cycle, first_cycle, parents_in_range};
use crate::registry::same_type;
use vstd::pervasive::VecAdditionalExecFns;

verus! {

/// One slot, as derived from one slots field.
#[derive(Debug)]
pub struct SlotField {
    /// The slot's name.
    pub name: &'static str,
    /// The field's position among the slots struct's fields.
    pub field_index: usize,
    /// The capability this slot accepts, compared against the source node's
    /// product.
    pub capability: TypeId,
    /// The capability's type path, for diagnostics.
    pub capability_path: &'static str,
}

/// What the structure pass needs to know about one node.
pub struct StructureNode {
    /// The node's entity.
    pub entity: u64,
    /// The node type's name, for diagnostics.
    pub kind_name: &'static str,
    /// The node's slots, by ordinal.
    pub slots: Vec<SlotField>,
    /// What the node produces; `None` when it produces nothing.
    pub produces: Option<TypeId>,
    /// The product's type path, for diagnostics.
    pub produces_path: &'static str,
    /// Whether the node can take part in the parent hierarchy.
    pub spatial: bool,
}

/// A parent edge: `child` hangs under `parent`.
#[derive(Clone, Copy, Debug, PartialEq, Eq, Structural)]
pub struct ParentLink {
    /// The edge's entity.
    pub edge: u64,
    /// The child node's entity.
    pub child: u64,
    /// The parent node's entity.
    pub parent: u64,
}

/// A feeds edge: `source`'s product fills slot `slot` of `target`.
#[derive(Clone, Copy, Debug, PartialEq, Eq, Structural)]
pub struct FeedsLink {
    /// The edge's entity.
    pub edge: u64,
    /// The slot ordinal on the target.
    pub slot: u16,
    /// The producing node's entity.
    pub source: u64,
    /// The consuming node's entity.
    pub target: u64,
}

/// The validated structure.
#[derive(Debug)]
pub struct Structure {
    /// Node indices in feeds-topological order.
    pub cook_order: Vec<usize>,
    /// Per node index, per slot ordinal: the source node's index.
    pub slots: Vec<Vec<Option<usize>>>,
    /// Per node index: the parent node's index.
    pub parents: Vec<Option<usize>>,
}

/// Why the structure was rejected.
#[derive(Debug, Clone, PartialEq)]
pub enum StructureError {
    /// An edge names an entity that is not a node.
    MissingEndpoint { edge: u64, missing: u64 },
    /// A node that cannot take part in the hierarchy was given one.
    NotSpatial { node: u64, kind_name: &'static str, role: &'static str },
    /// A child was given a second parent.
    DuplicateParent { child: u64, first: u64, second: u64 },
    /// A chain of parents comes back on itself.
    ParentCycle { nodes: Vec<u64> },
    /// A slot ordinal beyond the target's slots.
    SlotOutOfRange { node: u64, slot: u16, arity: usize },
    /// The source of a feeds edge produces nothing.
    SourceProducesNothing { source: u64, kind_name: &'static str, target: u64, slot: &'static str },
    /// The source produces something the slot does not accept.
    SlotTypeMismatch {
        target: u64,
        slot: &'static str,
        expected: &'static str,
        source: u64,
        produces: &'static str,
    },
    /// A slot was filled twice.
    DuplicateSlot { target: u64, slot: &'static str, first: u64, second: u64 },
    /// Feeds edges form a cycle; the nodes that could not be ordered.
    FeedsCycle { nodes: Vec<u64> },
}

/// A rejection, as the contract states it.
pub enum Rejection {
    /// A rejection that names no list of nodes.
    Plain(StructureError),
    /// A parenting cycle, through these entities.
    ParentCycle(Seq<u64>),
    /// A feeds cycle: the entities that could not be ordered.
    FeedsCycle(Seq<u64>),
}

/// `i` is the index of the first node whose entity is `e`.
pub open spec fn first_with(nodes: Seq<StructureNode>, e: u64, i: int) -> bool {
    &&& 0 <= i < nodes.len()
    &&& nodes[i].entity == e
    &&& forall|j: int| 0 <= j < i ==> nodes[j].entity != e
}

/// The index of the first node whose entity is `e`.
#[verifier::opaque]
pub open spec fn index_of(nodes: Seq<StructureNode>, e: u64) -> Option<int> {
    if exists|i: int| first_with(nodes, e, i) {
        Some(choose|i: int| first_with(nodes, e, i))
    } else {
        None
    }
}

/// One parent edge applied to the parent table `ps` and the table of
/// parent entities `firsts`: the updated tables, or why the edge is refused.
pub open spec fn parent_step(
    nodes: Seq<StructureNode>,
    ps: Seq<Option<usize>>,
    firsts: Seq<Option<u64>>,
    l: ParentLink,
) -> Result<(Seq<Option<usize>>, Seq<Option<u64>>), StructureError> {
    match index_of(nodes, l.child) {
        None => Err(StructureError::MissingEndpoint { edge: l.edge, missing: l.child }),
        Some(c) => match index_of(nodes, l.parent) {
            None => Err(StructureError::MissingEndpoint { edge: l.edge, missing: l.parent }),
            Some(p) => if !nodes[c].spatial {
                Err(StructureError::NotSpatial { node: l.child, kind_name: nodes[c].kind_name, role: "parented" })
            } else if !nodes[p].spatial {
                Err(
                    StructureError::NotSpatial {
                        node: l.parent,
                        kind_name: nodes[p].kind_name,
                        role: "used as a parent",
                    },
                )
            } else {
                match firsts[c] {
                    Some(first) => Err(StructureError::DuplicateParent { child: l.child, first, second: l.parent }),
                    None => Ok((ps.update(c, Some(p as usize)), firsts.update(c, Some(l.parent)))),
                }
            },
        },
    }
}

/// The parent edges applied in order: per node its parent's index and the
/// parent's entity, or the first rejection.
pub open spec fn parent_pass(nodes: Seq<StructureNode>, links: Seq<ParentLink>) -> Result<
    (Seq<Option<usize>>, Seq<Option<u64>>),
    StructureError,
>
    decreases links.len(),
{
    if links.len() == 0 {
        Ok((Seq::new(nodes.len(), |i: int| None), Seq::new(nodes.len(), |i: int| None)))
    } else {
        match parent_pass(nodes, links.drop_last()) {
            Err(e) => Err(e),
            Ok((ps, firsts)) => parent_step(nodes, ps, firsts, links.last()),
        }
    }
}

/// One feeds edge applied to the slot table `slots`, the table of source
/// entities `srcs` and the ordering arcs: the updated tables, or why the
/// edge is refused.
pub open spec fn feeds_step(
    nodes: Seq<StructureNode>,
    slots: Seq<Seq<Option<usize>>>,
    srcs: Seq<Seq<Option<u64>>>,
    arcs: Seq<(usize, usize)>,
    l: FeedsLink,
) -> Result<(Seq<Seq<Option<usize>>>, Seq<Seq<Option<u64>>>, Seq<(usize, usize)>), StructureError> {
    match index_of(nodes, l.source) {
        None => Err(StructureError::MissingEndpoint { edge: l.edge, missing: l.source }),
        Some(s) => match index_of(nodes, l.target) {
            None => Err(StructureError::MissingEndpoint { edge: l.edge, missing: l.target }),
            Some(t) => {
                let target = nodes[t];
                let source = nodes[s];
                if l.slot >= target.slots@.len() {
                    Err(
                        StructureError::SlotOutOfRange {
                            node: l.target,
                            slot: l.slot,
                            arity: target.slots@.len() as usize,
                        },
                    )
                } else {
                    let slot = target.slots@[l.slot as int];
                    match source.produces {
                        None => Err(
                            StructureError::SourceProducesNothing {
                                source: l.source,
                                kind_name: source.kind_name,
                                target: l.target,
                                slot: slot.name,
                            },
                        ),
                        Some(p) => if p != slot.capability {
                            Err(
                                StructureError::SlotTypeMismatch {
                                    target: l.target,
                                    slot: slot.name,
                                    expected: slot.capability_path,
                                    source: l.source,
                                    produces: source.produces_path,
                                },
                            )
                        } else {
                            match srcs[t][l.slot as int] {
                                Some(first) => Err(
                                    StructureError::DuplicateSlot {
                                        target: l.target,
                                        slot: slot.name,
                                        first,
                                        second: l.source,
                                    },
                                ),
                                None => Ok(
                                    (
                                        slots.update(t, slots[t].update(l.slot as int, Some(s as usize))),
                                        srcs.update(t, srcs[t].update(l.slot as int, Some(l.source))),
                                        arcs.push((s as usize, t as usize)),
                                    ),
                                ),
                            }
                        },
                    }
                }
            },
        },
    }
}

/// The feeds edges applied in order: per node, per slot, the source's index
/// and entity, and the ordering arcs `(source, target)`; or the first
/// rejection.
pub open spec fn feeds_pass(nodes: Seq<StructureNode>, links: Seq<FeedsLink>) -> Result<
    (Seq<Seq<Option<usize>>>, Seq<Seq<Option<u64>>>, Seq<(usize, usize)>),
    StructureError,
>
    decreases links.len(),
{
    if links.len() == 0 {
        Ok(
            (
                Seq::new(nodes.len(), |i: int| Seq::new(nodes[i].slots@.len(), |k: int| None)),
                Seq::new(nodes.len(), |i: int| Seq::new(nodes[i].slots@.len(), |k: int| None)),
                Seq::empty(),
            ),
        )
    } else {
        match feeds_pass(nodes, links.drop_last()) {
            Err(e) => Err(e),
            Ok((slots, srcs, arcs)) => feeds_step(nodes, slots, srcs, arcs, links.last()),
        }
    }
}

/// The entities of the nodes at `indices`.
pub open spec fn entities_at(nodes: Seq<StructureNode>, indices: Seq<int>) -> Seq<u64> {
    indices.map_values(|i: int| nodes[i].entity)
}

/// The structure pass over `nodes`: parents first, then parenting
/// acyclicity, then feeds edges, then the cook order.
pub open spec fn spec_validate(nodes: Seq<StructureNode>, parents: Seq<ParentLink>, feeds: Seq<FeedsLink>) -> Result<
    (Seq<int>, Seq<Seq<Option<usize>>>, Seq<Option<usize>>),
    Rejection,
> {
    match parent_pass(nodes, parents) {
        Err(e) => Err(Rejection::Plain(e)),
        Ok((ps, _)) => match first_cycle(ps, nodes.len(), 0) {
            Some(c) => Err(Rejection::ParentCycle(entities_at(nodes, c))),
            None => match feeds_pass(nodes, feeds) {
                Err(e) => Err(Rejection::Plain(e)),
                Ok((slots, _, arcs)) => match kahn_outcome(nodes.len() as int, arcs) {
                    Ok(order) => Ok((order, slots, ps)),
                    Err(rest) => Err(Rejection::FeedsCycle(entities_at(nodes, rest))),
                },
            },
        },
    }
}

/// The index of the first node whose entity is `e`.
fn find_node(nodes: &[StructureNode], e: u64) -> (r: Option<usize>)
    ensures
        match r {
            None => index_of(nodes@, e) is None,
            Some(i) => index_of(nodes@, e) == Some(i as int),
        },
        r matches Some(i) ==> i < nodes@.len(),
{
    let mut i: usize = 0;
    while i < nodes.len()
        invariant
            i <= nodes@.len(),
            forall|j: int| 0 <= j < i ==> nodes@[j].entity != e,
        decreases nodes@.len() - i,
    {
        if nodes[i].entity == e {
            proof {
                assert(first_with(nodes@, e, i as int));
                let k = choose|k: int| first_with(nodes@, e, k);
                if k < i {
                    assert(nodes@[k].entity != e);
                } else if k > i {
                    assert(nodes@[i as int].entity != e);
                }
                assert(k == i);
                reveal(index_of);
                assert(index_of(nodes@, e) == Some(i as int));
            }
            return Some(i);
        }
        i = i + 1;
    }
    proof {
        reveal(index_of);
        assert forall|k: int| !first_with(nodes@, e, k) by {
            if first_with(nodes@, e, k) {
                assert(nodes@[k].entity != e);
            }
        }
    }
    None
}

/// Once a prefix of the parent edges is rejected, so is every longer one,
/// with the same rejection.
proof fn lemma_parent_error_sticks(nodes: Seq<StructureNode>, links: Seq<ParentLink>, k: int)
    requires
        0 <= k <= links.len(),
        parent_pass(nodes, links.subrange(0, k)) is Err,
    ensures
        parent_pass(nodes, links) == parent_pass(nodes, links.subrange(0, k)),
    decreases links.len() - k,
{
    if k < links.len() {
        let longer = links.subrange(0, k + 1);
        assert(longer.drop_last() =~= links.subrange(0, k));
        lemma_parent_error_sticks(nodes, links, k + 1);
    } else {
        assert(links.subrange(0, k) =~= links);
    }
}

/// Once a prefix of the feeds edges is rejected, so is every longer one,
/// with the same rejection.
proof fn lemma_feeds_error_sticks(nodes: Seq<StructureNode>, links: Seq<FeedsLink>, k: int)
    requires
        0 <= k <= links.len(),
        feeds_pass(nodes, links.subrange(0, k)) is Err,
    ensures
        feeds_pass(nodes, links) == feeds_pass(nodes, links.subrange(0, k)),
    decreases links.len() - k,
{
    if k < links.len() {
        let longer = links.subrange(0, k + 1);
        assert(longer.drop_last() =~= links.subrange(0, k));
        lemma_feeds_error_sticks(nodes, links, k + 1);
    } else {
        assert(links.subrange(0, k) =~= links);
    }
}

/// The entities of the nodes at `indices`.
fn entities_of(nodes: &[StructureNode], indices: &[usize]) -> (r: Vec<u64>)
    requires
        forall|i: int| 0 <= i < indices@.len() ==> (#[trigger] indices@[i] as int) < nodes@.len(),
    ensures
        r@ == entities_at(nodes@, indices@.map_values(|x: usize| x as int)),
{
    let mut r: Vec<u64> = Vec::new();
    let mut i: usize = 0;
    while i < indices.len()
        invariant
            i <= indices@.len(),
            forall|j: int| 0 <= j < indices@.len() ==> (#[trigger] indices@[j] as int) < nodes@.len(),
            r@ == entities_at(nodes@, indices@.subrange(0, i as int).map_values(|x: usize| x as int)),
        decreases indices@.len() - i,
    {
        let at = indices[i];
        r.push(nodes[at].entity);
        proof {
            assert(r@ =~= entities_at(nodes@, indices@.subrange(0, i + 1).map_values(|x: usize| x as int)));
        }
        i = i + 1;
    }
    proof {
        assert(indices@.subrange(0, indices@.len() as int) =~= indices@);
    }
    r
}

/// The per-slot tables a feeds pass starts from: every slot unfilled.
fn empty_slot_tables(nodes: &[StructureNode]) -> (r: (Vec<Vec<Option<usize>>>, Vec<Vec<Option<u64>>>))
    ensures
        r.0@.map_values(|v: Vec<Option<usize>>| v@) == Seq::new(
            nodes@.len(),
            |i: int| Seq::new(nodes@[i].slots@.len(), |k: int| None::<usize>),
        ),
        r.1@.map_values(|v: Vec<Option<u64>>| v@) == Seq::new(
            nodes@.len(),
            |i: int| Seq::new(nodes@[i].slots@.len(), |k: int| None::<u64>),
        ),
{
    let mut slots: Vec<Vec<Option<usize>>> = Vec::new();
    let mut srcs: Vec<Vec<Option<u64>>> = Vec::new();
    let mut i: usize = 0;
    while i < nodes.len()
        invariant
            i <= nodes@.len(),
            slots@.len() == i,
            srcs@.len() == i,
            forall|j: int| 0 <= j < i ==> (#[trigger] slots@[j])@ == Seq::new(nodes@[j].slots@.len(), |k: int| None::<usize>),
            forall|j: int| 0 <= j < i ==> (#[trigger] srcs@[j])@ == Seq::new(nodes@[j].slots@.len(), |k: int| None::<u64>),
        decreases nodes@.len() - i,
    {
        let count = nodes[i].slots.len();
        let mut a: Vec<Option<usize>> = Vec::new();
        let mut b: Vec<Option<u64>> = Vec::new();
        let mut k: usize = 0;
        while k < count
            invariant
                k <= count,
                a@ == Seq::new(k as nat, |x: int| None::<usize>),
                b@ == Seq::new(k as nat, |x: int| None::<u64>),
            decreases count - k,
        {
            a.push(None);
            b.push(None);
            proof {
                assert(a@ =~= Seq::new((k + 1) as nat, |x: int| None::<usize>));
                assert(b@ =~= Seq::new((k + 1) as nat, |x: int| None::<u64>));
            }
            k = k + 1;
        }
        slots.push(a);
        srcs.push(b);
        i = i + 1;
    }
    proof {
        assert(slots@.map_values(|v: Vec<Option<usize>>| v@) =~= Seq::new(
            nodes@.len(),
            |j: int| Seq::new(nodes@[j].slots@.len(), |k: int| None::<usize>),
        ));
        assert(srcs@.map_values(|v: Vec<Option<u64>>| v@) =~= Seq::new(
            nodes@.len(),
            |j: int| Seq::new(nodes@[j].slots@.len(), |k: int| None::<u64>),
        ));
    }
    (slots, srcs)
}

/// Applies one parent edge to the tables.
fn parent_link(
    nodes: &[StructureNode],
    ps: &mut Vec<Option<usize>>,
    firsts: &mut Vec<Option<u64>>,
    l: ParentLink,
) -> (r: Result<(), StructureError>)
    requires
        old(ps)@.len() == nodes@.len(),
        old(firsts)@.len() == nodes@.len(),
    ensures
        final(ps)@.len() == nodes@.len(),
        final(firsts)@.len() == nodes@.len(),
        (forall|j: int| 0 <= j < nodes@.len() ==> (#[trigger] old(ps)@[j] matches Some(p) ==> p < nodes@.len())) ==> (
        forall|j: int| 0 <= j < nodes@.len() ==> (#[trigger] final(ps)@[j] matches Some(p) ==> p < nodes@.len())),
        match parent_step(nodes@, old(ps)@, old(firsts)@, l) {
            Err(e) => r == Err::<(), StructureError>(e),
            Ok((p2, f2)) => r is Ok && final(ps)@ == p2 && final(firsts)@ == f2,
        },
{
    let c = match find_node(nodes, l.child) {
        None => return Err(StructureError::MissingEndpoint { edge: l.edge, missing: l.child }),
        Some(c) => c,
    };
    let p = match find_node(nodes, l.parent) {
        None => return Err(StructureError::MissingEndpoint { edge: l.edge, missing: l.parent }),
        Some(p) => p,
    };
    if !nodes[c].spatial {
        return Err(StructureError::NotSpatial { node: l.child, kind_name: nodes[c].kind_name, role: "parented" });
    }
    if !nodes[p].spatial {
        return Err(
            StructureError::NotSpatial { node: l.parent, kind_name: nodes[p].kind_name, role: "used as a parent" },
        );
    }
    match firsts[c] {
        Some(first) => {
            return Err(StructureError::DuplicateParent { child: l.child, first, second: l.parent });
        },
        None => {},
    }
    firsts.set(c, Some(l.parent));
    ps.set(c, Some(p));
    Ok(())
}

/// Applies the parent edges in order.
fn parent_tables(nodes: &[StructureNode], links: &[ParentLink]) -> (r: Result<
    (Vec<Option<usize>>, Vec<Option<u64>>),
    StructureError,
>)
    ensures
        match parent_pass(nodes@, links@) {
            Err(e) => r == Err::<(Vec<Option<usize>>, Vec<Option<u64>>), StructureError>(e),
            Ok((p2, f2)) => r matches Ok((ps, firsts)) && ps@ == p2 && firsts@ == f2 && ps@.len() == nodes@.len() && forall|j: int|
                0 <= j < nodes@.len() ==> (#[trigger] ps@[j] matches Some(p) ==> p < nodes@.len()),
        },
{
    let n = nodes.len();
    let mut ps: Vec<Option<usize>> = Vec::new();
    let mut firsts: Vec<Option<u64>> = Vec::new();
    let mut i: usize = 0;
    while i < n
        invariant
            n == nodes@.len(),
            i <= n,
            ps@ == Seq::new(i as nat, |j: int| None::<usize>),
            firsts@ == Seq::new(i as nat, |j: int| None::<u64>),
        decreases n - i,
    {
        ps.push(None);
        firsts.push(None);
        proof {
            assert(ps@ =~= Seq::new((i + 1) as nat, |j: int| None::<usize>));
            assert(firsts@ =~= Seq::new((i + 1) as nat, |j: int| None::<u64>));
        }
        i = i + 1;
    }
    proof {
        assert(links@.subrange(0, 0).len() == 0);
    }
    let mut k: usize = 0;
    while k < links.len()
        invariant
            n == nodes@.len(),
            k <= links@.len(),
            parent_pass(nodes@, links@.subrange(0, k as int)) == Ok::<
                (Seq<Option<usize>>, Seq<Option<u64>>),
                StructureError,
            >((ps@, firsts@)),
            ps@.len() == n,
            firsts@.len() == n,
            forall|j: int| 0 <= j < n ==> (#[trigger] ps@[j] matches Some(p) ==> p < n),
        decreases links@.len() - k,
    {
        proof {
            assert(links@.subrange(0, k + 1).drop_last() =~= links@.subrange(0, k as int));
            assert(links@.subrange(0, k + 1).last() == links@[k as int]);
        }
        match parent_link(nodes, &mut ps, &mut firsts, links[k]) {
            Err(e) => {
                proof {
                    lemma_parent_error_sticks(nodes@, links@, k + 1);
                }
                return Err(e);
            },
            Ok(()) => {},
        }
        k = k + 1;
    }
    proof {
        assert(links@.subrange(0, links@.len() as int) =~= links@);
    }
    Ok((ps, firsts))
}

/// Applies one feeds edge to the tables.
fn feeds_link(
    nodes: &[StructureNode],
    slots: &mut Vec<Vec<Option<usize>>>,
    srcs: &mut Vec<Vec<Option<u64>>>,
    arcs: &mut Vec<(usize, usize)>,
    l: FeedsLink,
) -> (r: Result<(), StructureError>)
    requires
        old(slots)@.len() == nodes@.len(),
        old(srcs)@.len() == nodes@.len(),
        forall|j: int| 0 <= j < nodes@.len() ==> (#[trigger] old(slots)@[j])@.len() == nodes@[j].slots@.len(),
        forall|j: int| 0 <= j < nodes@.len() ==> (#[trigger] old(srcs)@[j])@.len() == nodes@[j].slots@.len(),
    ensures
        final(slots)@.len() == nodes@.len(),
        final(srcs)@.len() == nodes@.len(),
        forall|j: int| 0 <= j < nodes@.len() ==> (#[trigger] final(slots)@[j])@.len() == nodes@[j].slots@.len(),
        forall|j: int| 0 <= j < nodes@.len() ==> (#[trigger] final(srcs)@[j])@.len() == nodes@[j].slots@.len(),
        (forall|j: int| 0 <= j < old(arcs)@.len() ==> (#[trigger] old(arcs)@[j]).0 < nodes@.len() && old(arcs)@[j].1
            < nodes@.len()) ==> (forall|j: int| 0 <= j < final(arcs)@.len() ==> (#[trigger] final(arcs)@[j]).0
            < nodes@.len() && final(arcs)@[j].1 < nodes@.len()),
        match feeds_step(
            nodes@,
            old(slots)@.map_values(|v: Vec<Option<usize>>| v@),
            old(srcs)@.map_values(|v: Vec<Option<u64>>| v@),
            old(arcs)@,
            l,
        ) {
            Err(e) => r == Err::<(), StructureError>(e),
            Ok((s2, r2, a2)) => r is Ok && final(slots)@.map_values(|v: Vec<Option<usize>>| v@) == s2
                && final(srcs)@.map_values(|v: Vec<Option<u64>>| v@) == r2 && final(arcs)@ == a2,
        },
{
    let s = match find_node(nodes, l.source) {
        None => return Err(StructureError::MissingEndpoint { edge: l.edge, missing: l.source }),
        Some(s) => s,
    };
    let t = match find_node(nodes, l.target) {
        None => return Err(StructureError::MissingEndpoint { edge: l.edge, missing: l.target }),
        Some(t) => t,
    };
    let slot_index = l.slot as usize;
    if slot_index >= nodes[t].slots.len() {
        return Err(StructureError::SlotOutOfRange { node: l.target, slot: l.slot, arity: nodes[t].slots.len() });
    }
    let slot = &nodes[t].slots[slot_index];
    let produced = match &nodes[s].produces {
        None => {
            return Err(
                StructureError::SourceProducesNothing {
                    source: l.source,
                    kind_name: nodes[s].kind_name,
                    target: l.target,
                    slot: slot.name,
                },
            );
        },
        Some(p) => p,
    };
    if !same_type(produced, &slot.capability) {
        return Err(
            StructureError::SlotTypeMismatch {
                target: l.target,
                slot: slot.name,
                expected: slot.capability_path,
                source: l.source,
                produces: nodes[s].produces_path,
            },
        );
    }
    proof {
        assert(old(srcs)@.map_values(|v: Vec<Option<u64>>| v@)[t as int] == srcs@[t as int]@);
    }
    match srcs[t][slot_index] {
        Some(first) => {
            return Err(StructureError::DuplicateSlot { target: l.target, slot: slot.name, first, second: l.source });
        },
        None => {},
    }
    let ghost slots_before = slots@;
    let ghost srcs_before = srcs@;
    let mut row: Vec<Option<usize>> = Vec::new();
    slots.set_and_swap(t, &mut row);
    row.set(slot_index, Some(s));
    slots.set_and_swap(t, &mut row);
    let mut src_row: Vec<Option<u64>> = Vec::new();
    srcs.set_and_swap(t, &mut src_row);
    src_row.set(slot_index, Some(l.source));
    srcs.set_and_swap(t, &mut src_row);
    arcs.push((s, t));
    proof {
        assert(slots@.map_values(|v: Vec<Option<usize>>| v@) =~= slots_before.map_values(|v: Vec<Option<usize>>| v@).update(
            t as int,
            slots_before[t as int]@.update(slot_index as int, Some(s)),
        ));
        assert(srcs@.map_values(|v: Vec<Option<u64>>| v@) =~= srcs_before.map_values(|v: Vec<Option<u64>>| v@).update(
            t as int,
            srcs_before[t as int]@.update(slot_index as int, Some(l.source)),
        ));
    }
    Ok(())
}

/// Applies the feeds edges in order.
fn feeds_tables(nodes: &[StructureNode], links: &[FeedsLink]) -> (r: Result<
    (Vec<Vec<Option<usize>>>, Vec<(usize, usize)>),
    StructureError,
>)
    ensures
        match feeds_pass(nodes@, links@) {
            Err(e) => r == Err::<(Vec<Vec<Option<usize>>>, Vec<(usize, usize)>), StructureError>(e),
            Ok((s2, _, a2)) => r matches Ok((slots, arcs)) && slots@.map_values(|v: Vec<Option<usize>>| v@) == s2
                && arcs@ == a2 && forall|j: int| 0 <= j < arcs@.len() ==> (#[trigger] arcs@[j]).0 < nodes@.len()
                && arcs@[j].1 < nodes@.len(),
        },
{
    let n = nodes.len();
    let (mut slots, mut srcs) = empty_slot_tables(nodes);
    let mut arcs: Vec<(usize, usize)> = Vec::new();
    proof {
        assert(links@.subrange(0, 0).len() == 0);
        let sv = slots@.map_values(|v: Vec<Option<usize>>| v@);
        let rv = srcs@.map_values(|v: Vec<Option<u64>>| v@);
        assert(sv.len() == slots@.len());
        assert(rv.len() == srcs@.len());
        assert(sv.len() == n);
        assert(rv.len() == n);
        assert forall|j: int| 0 <= j < n implies (#[trigger] slots@[j])@.len() == nodes@[j].slots@.len() by {
            assert(sv[j] == slots@[j]@);
        }
        assert forall|j: int| 0 <= j < n implies (#[trigger] srcs@[j])@.len() == nodes@[j].slots@.len() by {
            assert(rv[j] == srcs@[j]@);
        }
    }
    let mut k: usize = 0;
    while k < links.len()
        invariant
            n == nodes@.len(),
            k <= links@.len(),
            feeds_pass(nodes@, links@.subrange(0, k as int)) == Ok::<
                (Seq<Seq<Option<usize>>>, Seq<Seq<Option<u64>>>, Seq<(usize, usize)>),
                StructureError,
            >((slots@.map_values(|v: Vec<Option<usize>>| v@), srcs@.map_values(|v: Vec<Option<u64>>| v@), arcs@)),
            slots@.len() == n,
            srcs@.len() == n,
            forall|j: int| 0 <= j < n ==> (#[trigger] slots@[j])@.len() == nodes@[j].slots@.len(),
            forall|j: int| 0 <= j < n ==> (#[trigger] srcs@[j])@.len() == nodes@[j].slots@.len(),
            forall|j: int| 0 <= j < arcs@.len() ==> (#[trigger] arcs@[j]).0 < n && arcs@[j].1 < n,
        decreases links@.len() - k,
    {
        proof {
            assert(links@.subrange(0, k + 1).drop_last() =~= links@.subrange(0, k as int));
            assert(links@.subrange(0, k + 1).last() == links@[k as int]);
        }
        match feeds_link(nodes, &mut slots, &mut srcs, &mut arcs, links[k]) {
            Err(e) => {
                proof {
                    lemma_feeds_error_sticks(nodes@, links@, k + 1);
                }
                return Err(e);
            },
            Ok(()) => {},
        }
        k = k + 1;
    }
    proof {
        assert(links@.subrange(0, links@.len() as int) =~= links@);
    }
    Ok((slots, arcs))
}

/// Validates the parent and feeds edges of `nodes` and orders the nodes by
/// their feeds edges.
///
/// Each edge list is checked in order and the first bad edge is reported;
/// parenting acyclicity is checked before any feeds edge.
pub fn validate(nodes: &[StructureNode], parent_links: &[ParentLink], feeds_links: &[FeedsLink]) -> (r: Result<
    Structure,
    StructureError,
>)
    requires
        nodes@.len() < usize::MAX,
    ensures
        match spec_validate(nodes@, parent_links@, feeds_links@) {
            Ok((order, slots, ps)) => r matches Ok(s) && s.cook_order@.map_values(|x: usize| x as int) == order
                && s.slots@.map_values(|v: Vec<Option<usize>>| v@) == slots && s.parents@ == ps,
            Err(Rejection::Plain(e)) => r == Err::<Structure, StructureError>(e),
            Err(Rejection::ParentCycle(c)) => r matches Err(StructureError::ParentCycle { nodes }) && nodes@ == c,
            Err(Rejection::FeedsCycle(c)) => r matches Err(StructureError::FeedsCycle { nodes }) && nodes@ == c,
        },
{
    let n = nodes.len();
    let (ps, _firsts) = match parent_tables(nodes, parent_links) {
        Err(e) => return Err(e),
        Ok(tables) => tables,
    };
    match find_parent_cycle(ps.as_slice()) {
        Some(chain) => {
            let entities = entities_of(nodes, chain.as_slice());
            return Err(StructureError::ParentCycle { nodes: entities });
        },
        None => {},
    }
    let (slots, arcs) = match feeds_tables(nodes, feeds_links) {
        Err(e) => return Err(e),
        Ok(tables) => tables,
    };
    match fifo_order(n, arcs.as_slice()) {
        Ok(order) => Ok(Structure { cook_order: order, slots, parents: ps }),
        Err(rest) => {
            let entities = entities_of(nodes, rest.as_slice());
            Err(StructureError::FeedsCycle { nodes: entities })
        },
    }
}

/// A passed feeds pass has one ordering arc per feeds edge: from the
/// edge's source node to its target node.
proof fn lemma_feeds_arcs(nodes: Seq<StructureNode>, links: Seq<FeedsLink>)
    requires
        nodes.len() < usize::MAX,
        feeds_pass(nodes, links) is Ok,
    ensures
        ({
            let arcs = feeds_pass(nodes, links)->Ok_0.2;
            &&& arcs.len() == links.len()
            &&& forall|k: int|
                0 <= k < links.len() ==> index_of(nodes, (#[trigger] links[k]).source) == Some(arcs[k].0 as int)
                    && index_of(nodes, links[k].target) == Some(arcs[k].1 as int)
        }),
    decreases links.len(),
{
    if links.len() > 0 {
        let rest = links.drop_last();
        lemma_feeds_arcs(nodes, rest);
        let arcs = feeds_pass(nodes, links)->Ok_0.2;
        let st = feeds_pass(nodes, rest)->Ok_0;
        let before = st.2;
        let l = links.last();
        assert(feeds_step(nodes, st.0, st.1, st.2, l) is Ok);
        lemma_index_in_range(nodes, l.source);
        lemma_index_in_range(nodes, l.target);
        let s = index_of(nodes, l.source)->0;
        let t = index_of(nodes, l.target)->0;
        assert(arcs == before.push((s as usize, t as usize)));
        assert forall|k: int| 0 <= k < links.len() implies index_of(nodes, (#[trigger] links[k]).source) == Some(
            arcs[k].0 as int,
        ) && index_of(nodes, links[k].target) == Some(arcs[k].1 as int) by {
            if k < links.len() - 1 {
                assert(links[k] == rest[k]);
                assert(arcs[k] == before[k]);
            }
        }
    }
}

/// In a validated structure, the source of every feeds edge cooks before its
/// target.
pub proof fn lemma_feeds_source_cooks_first(
    nodes: Seq<StructureNode>,
    parents: Seq<ParentLink>,
    feeds: Seq<FeedsLink>,
    k: int,
)
    requires
        nodes.len() < usize::MAX,
        spec_validate(nodes, parents, feeds) is Ok,
        0 <= k < feeds.len(),
    ensures
        ({
            let order = spec_validate(nodes, parents, feeds)->Ok_0.0;
            exists|i: int, j: int|
                0 <= i < j < order.len() && Some(order[i]) == index_of(nodes, feeds[k].source) && Some(order[j])
                    == index_of(nodes, feeds[k].target)
        }),
{
    let arcs = feeds_pass(nodes, feeds)->Ok_0.2;
    let order = spec_validate(nodes, parents, feeds)->Ok_0.0;
    let n = nodes.len() as int;
    lemma_feeds_arcs(nodes, feeds);
    let f = feeds[k];
    crate::kahn::lemma_fifo_order_respects_arcs(n, arcs, order);
    let t = arcs[k].1 as int;
    let s = arcs[k].0 as int;
    assert(index_of(nodes, f.target) == Some(t));
    lemma_index_in_range(nodes, f.target);
    lemma_index_in_range(nodes, f.source);
    assert(order.contains(t));
    let j = choose|j: int| 0 <= j < order.len() && order[j] == t;
    assert(order[j] == arcs[k].1);
    let i = choose|i: int| 0 <= i < j && order[i] == arcs[k].0;
    assert(0 <= i < j < order.len() && Some(order[i]) == index_of(nodes, f.source) && Some(order[j]) == index_of(nodes, f.target));
}

/// A found node index is in range.
proof fn lemma_index_in_range(nodes: Seq<StructureNode>, e: u64)
    ensures
        index_of(nodes, e) matches Some(i) ==> 0 <= i < nodes.len(),
{
    reveal(index_of);
}


/// The text that reports `e`: it names the offending nodes, slots and
/// capabilities.
pub open spec fn structure_message(e: StructureError) -> Seq<char> {
    match e {
        StructureError::MissingEndpoint { edge, missing } => "edge "@ + entity_text(edge) + " names "@ + entity_text(
            missing,
        ) + ", which is not a node in this graph"@,
        StructureError::NotSpatial { node, kind_name, role } => "node "@ + entity_text(node) + " ("@ + kind_name@
            + ") cannot be "@ + role@ + " — only spatial nodes take part in the hierarchy"@,
        StructureError::DuplicateParent { child, first, second } => "node "@ + entity_text(child)
            + " already has parent "@ + entity_text(first) + "; a second parent edge to "@ + entity_text(second)
            + " is illegal — a scene node has one parent"@,
        StructureError::ParentCycle { nodes } => "parenting cycle: "@ + entities_joined(nodes@, " → "@),
        StructureError::SlotOutOfRange { node, slot, arity } => "node "@ + entity_text(node) + ": slot ordinal "@
            + decimal(slot as nat) + " is out of range — the node has "@ + decimal(arity as nat) + " slot(s)"@,
        StructureError::SourceProducesNothing { source, kind_name, target, slot } => "node "@ + entity_text(source)
            + " ("@ + kind_name@ + ") produces nothing, so it cannot fill slot `"@ + slot@ + "` of node "@
            + entity_text(target),
        StructureError::SlotTypeMismatch { target, slot, expected, source, produces } => "node "@ + entity_text(
            target,
        ) + ": slot `"@ + slot@ + "` expects `"@ + expected@ + "`, but node "@ + entity_text(source) + " produces `"@
            + produces@ + "`"@,
        StructureError::DuplicateSlot { target, slot, first, second } => "node "@ + entity_text(target) + ": slot `"@
            + slot@ + "` is already filled by node "@ + entity_text(first) + "; a second edge from node "@
            + entity_text(second) + " is illegal — every slot takes exactly one edge"@,
        StructureError::FeedsCycle { nodes } => "cycle: these nodes could not be ordered: "@ + entities_joined(
            nodes@,
            ", "@,
        ),
    }
}

impl StructureError {
    /// The text that reports this error, naming the offending nodes, slots
    /// and capabilities.
    pub fn message(&self) -> (r: String)
        ensures
            r@ == structure_message(*self),
    {
        match self {
            StructureError::MissingEndpoint { edge, missing } => {
                let mut s = String::from_str("edge ");
                push_entity(&mut s, *edge);
                s.append(" names ");
                push_entity(&mut s, *missing);
                s.append(", which is not a node in this graph");
                s
            },
            StructureError::NotSpatial { node, kind_name, role } => {
                let mut s = String::from_str("node ");
                push_entity(&mut s, *node);
                s.append(" (");
                s.append(kind_name);
                s.append(") cannot be ");
                s.append(role);
                s.append(" — only spatial nodes take part in the hierarchy");
                s
            },
            StructureError::DuplicateParent { child, first, second } => {
                let mut s = String::from_str("node ");
                push_entity(&mut s, *child);
                s.append(" already has parent ");
                push_entity(&mut s, *first);
                s.append("; a second parent edge to ");
                push_entity(&mut s, *second);
                s.append(" is illegal — a scene node has one parent");
                s
            },
            StructureError::ParentCycle { nodes } => {
                let mut s = String::from_str("parenting cycle: ");
                push_entities(&mut s, nodes, " → ");
                s
            },
            StructureError::SlotOutOfRange { node, slot, arity } => {
                let mut s = String::from_str("node ");
                push_entity(&mut s, *node);
                s.append(": slot ordinal ");
                push_decimal(&mut s, *slot as u64);
                s.append(" is out of range — the node has ");
                push_decimal(&mut s, *arity as u64);
                s.append(" slot(s)");
                s
            },
            StructureError::SourceProducesNothing { source, kind_name, target, slot } => {
                let mut s = String::from_str("node ");
                push_entity(&mut s, *source);
                s.append(" (");
                s.append(kind_name);
                s.append(") produces nothing, so it cannot fill slot `");
                s.append(slot);
                s.append("` of node ");
                push_entity(&mut s, *target);
                s
            },
            StructureError::SlotTypeMismatch { target, slot, expected, source, produces } => {
                let mut s = String::from_str("node ");
                push_entity(&mut s, *target);
                s.append(": slot `");
                s.append(slot);
                s.append("` expects `");
                s.append(expected);
                s.append("`, but node ");
                push_entity(&mut s, *source);
                s.append(" produces `");
                s.append(produces);
                s.append("`");
                s
            },
            StructureError::DuplicateSlot { target, slot, first, second } => {
                let mut s = String::from_str("node ");
                push_entity(&mut s, *target);
                s.append(": slot `");
                s.append(slot);
                s.append("` is already filled by node ");
                push_entity(&mut s, *first);
                s.append("; a second edge from node ");
                push_entity(&mut s, *second);
                s.append(" is illegal — every slot takes exactly one edge");
                s
            },
            StructureError::FeedsCycle { nodes } => {
                let mut s = String::from_str("cycle: these nodes could not be ordered: ");
                push_entities(&mut s, nodes, ", ");
                s
            },
        }
    }
}


/// The parent table a passed parent pass builds has one entry per node.
proof fn lemma_parent_pass_len(nodes: Seq<StructureNode>, links: Seq<ParentLink>)
    requires
        parent_pass(nodes, links) is Ok,
    ensures
        parent_pass(nodes, links)->Ok_0.0.len() == nodes.len(),
    decreases links.len(),
{
    if links.len() > 0 {
        lemma_parent_pass_len(nodes, links.drop_last());
        lemma_index_in_range(nodes, links.last().child);
    }
}

/// A validated structure's hierarchy has no parenting cycle: no node is its
/// own ancestor through one or more parent edges.
pub proof fn lemma_validated_hierarchy_is_acyclic(
    nodes: Seq<StructureNode>,
    parents: Seq<ParentLink>,
    feeds: Seq<FeedsLink>,
    i: int,
    k: nat,
)
    requires
        spec_validate(nodes, parents, feeds) is Ok,
        0 <= i < nodes.len(),
        k >= 1,
    ensures
        crate::parents::ancestor(spec_validate(nodes, parents, feeds)->Ok_0.2, i, k) != Some(i),
{
    lemma_parent_pass_len(nodes, parents);
    let ps = parent_pass(nodes, parents)->Ok_0.0;
    if crate::parents::ancestor(ps, i, k) == Some(i) {
        crate::parents::lemma_parent_cycle_found(ps, i, k);
    }
}

} // verus!
