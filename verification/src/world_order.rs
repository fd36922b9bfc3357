//! The step list of the wire-and-behaviour engine.
//!
//! Every wire instance is a link from a producing entity to a consuming one;
//! every behaviour runs on one entity. The vertices are everything a link
//! touches and everything carrying a behaviour. They are sorted with the
//! links, and then, entity by entity in that order, everything inbound is
//! propagated before the entity's behaviours run, so a driven behaviour sees
//! this tick's inputs.

use vstd::prelude::*;
use crate::id::NodeId;
use crate::order::{appended, cycle_members, topological_order, acyclic_order, Link};

verus! {

/// One wire instance, as collected from the world.
#[derive(Clone, Copy, Debug, PartialEq, Eq, Structural)]
pub struct WireLink {
    /// The producing entity.
    pub src: NodeId,
    /// The consuming entity.
    pub dst: NodeId,
    /// The wire's type, by registration index.
    pub wire: usize,
    /// Whether the producer carries the wire's source component.
    pub source_present: bool,
    /// Whether the consumer carries the wire's target component.
    pub target_present: bool,
}

/// One behaviour instance: a registered behaviour on one entity.
#[derive(Clone, Copy, Debug, PartialEq, Eq, Structural)]
pub struct BehaviourAt {
    /// The entity it runs on.
    pub entity: NodeId,
    /// The behaviour, by registration index.
    pub behaviour: usize,
}

/// One unit of work.
#[derive(Clone, Copy, Debug, PartialEq, Eq, Structural)]
pub enum WorldStep {
    /// Propagate one wire instance.
    Propagate {
        /// The producing entity.
        src: NodeId,
        /// The consuming entity.
        dst: NodeId,
        /// The wire's type.
        wire: usize,
    },
    /// Run one behaviour on one entity.
    Run {
        /// The behaviour.
        behaviour: usize,
        /// The entity.
        entity: NodeId,
    },
}

/// The rebuilt step list and what is wrong with the wiring.
#[derive(Clone, Debug)]
pub struct WorldPlan {
    /// Every step, in the order the tick walks them.
    pub steps: Vec<WorldStep>,
    /// The entity order the steps were derived from.
    pub order: Vec<NodeId>,
    /// Entities on a cycle. They still run, appended after the acyclic part.
    pub cycles: Vec<NodeId>,
    /// `(producer, wire)` for each wire instance whose producer lacks the
    /// wire's source, in link order.
    pub missing_source: Vec<(NodeId, usize)>,
    /// `(consumer, wire)` for each wire instance whose consumer lacks the
    /// wire's target, in link order.
    pub missing_target: Vec<(NodeId, usize)>,
}

/// `s` with later repeats of an element dropped.
pub open spec fn first_occurrences(s: Seq<NodeId>) -> Seq<NodeId>
    decreases s.len(),
{
    if s.len() == 0 {
        Seq::empty()
    } else if first_occurrences(s.drop_last()).contains(s.last()) {
        first_occurrences(s.drop_last())
    } else {
        first_occurrences(s.drop_last()).push(s.last())
    }
}

/// Both ends of every link, in link order, then every behaviour's entity.
pub open spec fn ends(links: Seq<WireLink>, behaviours: Seq<BehaviourAt>) -> Seq<NodeId> {
    links.map_values(|l: WireLink| seq![l.src, l.dst]).flatten() + behaviours.map_values(|b: BehaviourAt| b.entity)
}

/// The vertices: every entity a link touches or a behaviour runs on, once.
pub open spec fn world_vertices(links: Seq<WireLink>, behaviours: Seq<BehaviourAt>) -> Seq<NodeId> {
    first_occurrences(ends(links, behaviours))
}

/// The links, as the sort sees them.
pub open spec fn sort_links(links: Seq<WireLink>) -> Seq<Link> {
    links.map_values(|l: WireLink| Link { src: l.src, dst: l.dst })
}

/// The steps for entity `e`: every link into it, in link order, then every
/// behaviour on it, in behaviour order.
pub open spec fn entity_block(links: Seq<WireLink>, behaviours: Seq<BehaviourAt>, e: NodeId) -> Seq<WorldStep> {
    links.filter(|l: WireLink| l.dst == e).map_values(
        |l: WireLink| WorldStep::Propagate { src: l.src, dst: l.dst, wire: l.wire },
    ) + behaviours.filter(|b: BehaviourAt| b.entity == e).map_values(
        |b: BehaviourAt| WorldStep::Run { behaviour: b.behaviour, entity: b.entity },
    )
}

/// The steps for the entities of `order`, one block after another.
pub open spec fn world_steps(links: Seq<WireLink>, behaviours: Seq<BehaviourAt>, order: Seq<NodeId>) -> Seq<WorldStep>
    decreases order.len(),
{
    if order.len() == 0 {
        Seq::empty()
    } else {
        world_steps(links, behaviours, order.drop_last()) + entity_block(links, behaviours, order.last())
    }
}

/// Whether `id` occurs in `s`.
fn has_id(s: &Vec<NodeId>, id: NodeId) -> (r: bool)
    ensures
        r == s@.contains(id),
{
    let mut i: usize = 0;
    while i < s.len()
        invariant
            i <= s@.len(),
            forall|k: int| 0 <= k < i ==> s@[k] != id,
        decreases s@.len() - i,
    {
        if s[i].same(id) {
            assert(s@[i as int] == id);
            return true;
        }
        i = i + 1;
    }
    false
}

/// Appends `x` to `v` unless it is there already.
fn push_new(v: &mut Vec<NodeId>, x: NodeId, Ghost(s): Ghost<Seq<NodeId>>)
    requires
        old(v)@ == first_occurrences(s),
    ensures
        final(v)@ == first_occurrences(s.push(x)),
{
    assert(s.push(x).drop_last() =~= s);
    if !has_id(v, x) {
        v.push(x);
    }
}

/// The vertices of the wiring.
fn vertices_of(links: &[WireLink], behaviours: &[BehaviourAt]) -> (r: Vec<NodeId>)
    ensures
        r@ == world_vertices(links@, behaviours@),
{
    let ghost pairs = links@.map_values(|l: WireLink| seq![l.src, l.dst]);
    let mut r: Vec<NodeId> = Vec::new();
    let ghost mut seen: Seq<NodeId> = Seq::empty();
    let mut k: usize = 0;
    while k < links.len()
        invariant
            k <= links@.len(),
            pairs == links@.map_values(|l: WireLink| seq![l.src, l.dst]),
            seen == pairs.subrange(0, k as int).flatten(),
            r@ == first_occurrences(seen),
        decreases links@.len() - k,
    {
        let l = links[k];
        push_new(&mut r, l.src, Ghost(seen));
        push_new(&mut r, l.dst, Ghost(seen.push(l.src)));
        proof {
            pairs.subrange(0, k as int).lemma_flatten_push(seq![l.src, l.dst]);
            assert(pairs.subrange(0, k + 1) =~= pairs.subrange(0, k as int).push(seq![l.src, l.dst]));
            assert(seen + seq![l.src, l.dst] =~= seen.push(l.src).push(l.dst));
            seen = seen.push(l.src).push(l.dst);
        }
        k = k + 1;
    }
    proof {
        assert(pairs.subrange(0, links@.len() as int) =~= pairs);
    }
    let ghost ents = behaviours@.map_values(|b: BehaviourAt| b.entity);
    let ghost base = seen;
    let mut j: usize = 0;
    while j < behaviours.len()
        invariant
            j <= behaviours@.len(),
            ents == behaviours@.map_values(|b: BehaviourAt| b.entity),
            base == links@.map_values(|l: WireLink| seq![l.src, l.dst]).flatten(),
            seen == base + ents.subrange(0, j as int),
            r@ == first_occurrences(seen),
        decreases behaviours@.len() - j,
    {
        let e = behaviours[j].entity;
        push_new(&mut r, e, Ghost(seen));
        proof {
            assert(base + ents.subrange(0, j + 1) =~= (base + ents.subrange(0, j as int)).push(e));
            seen = seen.push(e);
        }
        j = j + 1;
    }
    proof {
        assert(ents.subrange(0, behaviours@.len() as int) =~= ents);
    }
    r
}

/// The links, as the sort sees them.
fn sort_links_of(links: &[WireLink]) -> (r: Vec<Link>)
    ensures
        r@ == sort_links(links@),
{
    let mut r: Vec<Link> = Vec::new();
    let mut k: usize = 0;
    while k < links.len()
        invariant
            k <= links@.len(),
            r@ == sort_links(links@.subrange(0, k as int)),
        decreases links@.len() - k,
    {
        r.push(Link { src: links[k].src, dst: links[k].dst });
        proof {
            assert(sort_links(links@.subrange(0, k + 1)) =~= sort_links(links@.subrange(0, k as int)).push(
                Link { src: links@[k as int].src, dst: links@[k as int].dst },
            ));
        }
        k = k + 1;
    }
    proof {
        assert(links@.subrange(0, links@.len() as int) =~= links@);
    }
    r
}

/// Appends entity `e`'s block to `steps`.
fn push_block(steps: &mut Vec<WorldStep>, links: &[WireLink], behaviours: &[BehaviourAt], e: NodeId)
    ensures
        final(steps)@ == old(steps)@ + entity_block(links@, behaviours@, e),
{
    let ghost start = old(steps)@;
    let ghost into = |l: WireLink| l.dst == e;
    let ghost prop = |l: WireLink| WorldStep::Propagate { src: l.src, dst: l.dst, wire: l.wire };
    let mut k: usize = 0;
    proof {
        assert(links@.subrange(0, 0).filter(into) =~= Seq::<WireLink>::empty());
        assert(steps@ =~= start + links@.subrange(0, 0).filter(into).map_values(prop));
    }
    while k < links.len()
        invariant
            k <= links@.len(),
            into == (|l: WireLink| l.dst == e),
            prop == (|l: WireLink| WorldStep::Propagate { src: l.src, dst: l.dst, wire: l.wire }),
            steps@ == start + links@.subrange(0, k as int).filter(into).map_values(prop),
        decreases links@.len() - k,
    {
        let l = links[k];
        proof {
            assert(links@.subrange(0, k + 1) =~= links@.subrange(0, k as int).push(l));
            links@.subrange(0, k as int).lemma_filter_push(l, into);
        }
        if l.dst.same(e) {
            steps.push(WorldStep::Propagate { src: l.src, dst: l.dst, wire: l.wire });
            proof {
                let f = links@.subrange(0, k as int).filter(into);
                assert(f.push(l).map_values(prop) =~= f.map_values(prop).push(prop(l)));
            }
        }
        k = k + 1;
    }
    proof {
        assert(links@.subrange(0, links@.len() as int) =~= links@);
    }
    let ghost mid = steps@;
    let ghost on = |b: BehaviourAt| b.entity == e;
    let ghost run = |b: BehaviourAt| WorldStep::Run { behaviour: b.behaviour, entity: b.entity };
    let mut j: usize = 0;
    proof {
        assert(behaviours@.subrange(0, 0).filter(on) =~= Seq::<BehaviourAt>::empty());
        assert(steps@ =~= mid + behaviours@.subrange(0, 0).filter(on).map_values(run));
    }
    while j < behaviours.len()
        invariant
            j <= behaviours@.len(),
            on == (|b: BehaviourAt| b.entity == e),
            run == (|b: BehaviourAt| WorldStep::Run { behaviour: b.behaviour, entity: b.entity }),
            steps@ == mid + behaviours@.subrange(0, j as int).filter(on).map_values(run),
        decreases behaviours@.len() - j,
    {
        let b = behaviours[j];
        proof {
            assert(behaviours@.subrange(0, j + 1) =~= behaviours@.subrange(0, j as int).push(b));
            behaviours@.subrange(0, j as int).lemma_filter_push(b, on);
        }
        if b.entity.same(e) {
            steps.push(WorldStep::Run { behaviour: b.behaviour, entity: b.entity });
            proof {
                let f = behaviours@.subrange(0, j as int).filter(on);
                assert(f.push(b).map_values(run) =~= f.map_values(run).push(run(b)));
            }
        }
        j = j + 1;
    }
    proof {
        assert(behaviours@.subrange(0, behaviours@.len() as int) =~= behaviours@);
        assert(steps@ =~= start + entity_block(links@, behaviours@, e));
    }
}

/// `(entity, wire)` for each link lacking its source (`source` true) or its
/// target, in link order.
pub open spec fn missing(links: Seq<WireLink>, source: bool) -> Seq<(NodeId, usize)>
    decreases links.len(),
{
    if links.len() == 0 {
        Seq::empty()
    } else {
        let l = links.last();
        let rest = missing(links.drop_last(), source);
        if source && !l.source_present {
            rest.push((l.src, l.wire))
        } else if !source && !l.target_present {
            rest.push((l.dst, l.wire))
        } else {
            rest
        }
    }
}

/// The diagnostics for one side of the links.
fn missing_of(links: &[WireLink], source: bool) -> (r: Vec<(NodeId, usize)>)
    ensures
        r@ == missing(links@, source),
{
    let mut r: Vec<(NodeId, usize)> = Vec::new();
    let mut k: usize = 0;
    while k < links.len()
        invariant
            k <= links@.len(),
            r@ == missing(links@.subrange(0, k as int), source),
        decreases links@.len() - k,
    {
        let l = links[k];
        proof {
            assert(links@.subrange(0, k + 1).drop_last() =~= links@.subrange(0, k as int));
        }
        if source && !l.source_present {
            r.push((l.src, l.wire));
        } else if !source && !l.target_present {
            r.push((l.dst, l.wire));
        }
        k = k + 1;
    }
    proof {
        assert(links@.subrange(0, links@.len() as int) =~= links@);
    }
    r
}

/// Rebuilds the step list from the wire and behaviour instances. The entity
/// order is the sort of the vertices under the links, ties by ascending id,
/// with the entities it cannot place appended in ascending order; the
/// cycles are those of them on a cycle. Each entity's block propagates its
/// inbound links and then runs its behaviours.
pub fn rebuild_world_order(links: &[WireLink], behaviours: &[BehaviourAt]) -> (r: WorldPlan)
    ensures
        ({
            let vs = world_vertices(links@, behaviours@);
            let ls = sort_links(links@);
            &&& r.order@ == acyclic_order(vs, ls) + appended(vs, ls, r.order@)
            &&& crate::order::nondescending(appended(vs, ls, r.order@))
            &&& appended(vs, ls, r.order@).to_multiset() == crate::order::unplaced(vs, ls).to_multiset()
            &&& r.cycles@ == cycle_members(vs, ls, appended(vs, ls, r.order@))
            &&& r.steps@ == world_steps(links@, behaviours@, r.order@)
            &&& r.missing_source@ == missing(links@, true)
            &&& r.missing_target@ == missing(links@, false)
        }),
{
    let vertices = vertices_of(links, behaviours);
    let sort = sort_links_of(links);
    let sorted = topological_order(vertices.as_slice(), sort.as_slice());
    let mut steps: Vec<WorldStep> = Vec::new();
    let mut k: usize = 0;
    while k < sorted.order.len()
        invariant
            k <= sorted.order@.len(),
            steps@ == world_steps(links@, behaviours@, sorted.order@.subrange(0, k as int)),
        decreases sorted.order@.len() - k,
    {
        let e = sorted.order[k];
        push_block(&mut steps, links, behaviours, e);
        proof {
            assert(sorted.order@.subrange(0, k + 1).drop_last() =~= sorted.order@.subrange(0, k as int));
        }
        k = k + 1;
    }
    proof {
        assert(sorted.order@.subrange(0, sorted.order@.len() as int) =~= sorted.order@);
    }
    let missing_source = missing_of(links, true);
    let missing_target = missing_of(links, false);
    WorldPlan { steps, order: sorted.order, cycles: sorted.cycles, missing_source, missing_target }
}

} // verus!
