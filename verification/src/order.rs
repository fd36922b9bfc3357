//! Evaluation order over `NodeId`.
//!
//! The unit of ordering is the node: a node's evaluation reads every inlet
//! and writes every outlet. A cycle never stops the tick: its members are
//! appended after the acyclic part and read the previous tick's values.

use vstd::prelude::*;
use crate::id::{EdgeId, NodeId};
use crate::edge::{sort_key_lt, Edge};
use crate::id::{lemma_node_id_eq, lemma_edge_id_eq};
use crate::legality::Compat;
use crate::model::Graph;
use crate::legality::Shape;
use crate::node::{distinct_paths, is_list_field, Field, Node, Part};
use crate::path::{parse, reflect_path_valid, spec_absolute_path};
use crate::text::{lemma_text_lt_order, str_eq, str_less, text_lt};

verus! {

/// One ordering constraint, flattened for the sort.
#[derive(Clone, Copy, Debug, PartialEq, Eq, Structural)]
pub struct Link {
    /// The producing node.
    pub src: NodeId,
    /// The consuming node.
    pub dst: NodeId,
}

/// The result of the topological sort.
#[derive(Clone, Debug)]
pub struct Sorted {
    /// Evaluation order: the acyclic part first, then the nodes the sort
    /// could not place (cycle members and what they feed) in ascending
    /// `NodeId` order.
    pub order: Vec<NodeId>,
    /// Nodes participating in a cycle, ascending. Empty in a well-formed
    /// graph.
    pub cycles: Vec<NodeId>,
}

/// One value-carrying edge, resolved for the tick.
#[derive(Clone, Debug)]
pub struct PropagateStep {
    /// The edge this step carries.
    pub edge: EdgeId,
    /// The producing node.
    pub src: NodeId,
    /// `outlets.<path>`, as accepted by the path parser.
    pub src_path: String,
    /// The consuming node.
    pub dst: NodeId,
    /// `inlets.<path>`, as accepted by the path parser.
    pub dst_path: String,
    /// How the destination accepts the value.
    pub compat: Compat,
    /// Which element of a variadic inlet this step writes: the edge's
    /// position in its inlet's slot order.
    pub index: usize,
}

/// One unit of work. Data, not a closure.
#[derive(Clone, Debug)]
pub enum GraphStep {
    /// Shrink a list-shaped inlet to the number of value edges landing on it.
    TruncateList {
        /// The node holding the list.
        node: NodeId,
        /// `inlets.<path>`, as accepted by the path parser.
        path: String,
        /// The number of value edges landing on it.
        len: usize,
    },
    /// Copy one outlet field into one inlet field.
    Propagate(PropagateStep),
    /// Run the node.
    Evaluate {
        /// The node to run.
        node: NodeId,
    },
}

/// The rebuilt plan for one graph shape.
#[derive(Clone, Debug)]
pub struct EvalOrder {
    /// Every step, in the order the tick walks them.
    pub steps: Vec<GraphStep>,
    /// The node order the steps were derived from.
    pub order: Vec<NodeId>,
    /// Nodes in a cycle, ascending. They still run, appended after the
    /// acyclic part together with the nodes they feed.
    pub cycles: Vec<NodeId>,
}

/// `v` can be placed next: a vertex not yet placed, every producer of which
/// (through a link whose both ends are vertices) is placed.
pub open spec fn ready(vs: Seq<NodeId>, links: Seq<Link>, placed: Seq<NodeId>, v: NodeId) -> bool {
    &&& vs.contains(v)
    &&& !placed.contains(v)
    &&& forall|i: int| 0 <= i < links.len() && #[trigger] links[i].dst == v && vs.contains(links[i].src) ==> placed.contains(
        links[i].src,
    )
}

/// `v` is the ready vertex with the smallest id.
pub open spec fn min_ready(vs: Seq<NodeId>, links: Seq<Link>, placed: Seq<NodeId>, v: NodeId) -> bool {
    &&& ready(vs, links, placed, v)
    &&& forall|w: NodeId| #[trigger] ready(vs, links, placed, w) ==> v.key() <= w.key()
}

/// Kahn's algorithm from `placed`: repeatedly place the ready vertex with the
/// smallest id, for at most `fuel` more steps.
pub open spec fn kahn(vs: Seq<NodeId>, links: Seq<Link>, placed: Seq<NodeId>, fuel: nat) -> Seq<NodeId>
    decreases fuel,
{
    if fuel == 0 {
        placed
    } else if exists|v: NodeId| ready(vs, links, placed, v) {
        let v = choose|v: NodeId| min_ready(vs, links, placed, v);
        kahn(vs, links, placed.push(v), (fuel - 1) as nat)
    } else {
        placed
    }
}

/// The acyclic part of the evaluation order: Kahn's algorithm over the
/// vertices, ties broken by ascending id.
pub open spec fn acyclic_order(vs: Seq<NodeId>, links: Seq<Link>) -> Seq<NodeId> {
    kahn(vs, links, Seq::empty(), vs.len())
}

/// `s` ascends by id, ties allowed.
pub open spec fn nondescending(s: Seq<NodeId>) -> bool {
    forall|i: int, j: int| 0 <= i < j < s.len() ==> s[i].key() <= s[j].key()
}

/// The vertices the sort could not place: those in a cycle, or downstream of
/// one.
pub open spec fn unplaced(vs: Seq<NodeId>, links: Seq<Link>) -> Seq<NodeId> {
    vs.filter(|v: NodeId| !acyclic_order(vs, links).contains(v))
}

/// What an order holds after the acyclic part: the vertices the sort could
/// not place.
pub open spec fn appended(vs: Seq<NodeId>, links: Seq<Link>, order: Seq<NodeId>) -> Seq<NodeId> {
    order.skip(acyclic_order(vs, links).len() as int)
}

/// Two minimal ready vertices are the same vertex.
proof fn lemma_min_ready_unique(vs: Seq<NodeId>, links: Seq<Link>, placed: Seq<NodeId>, a: NodeId, b: NodeId)
    requires
        min_ready(vs, links, placed, a),
        min_ready(vs, links, placed, b),
    ensures
        a == b,
{
    lemma_node_id_eq(a, b);
}

/// With a ready vertex left, one more step of the sort places the minimal one.
proof fn lemma_kahn_step(vs: Seq<NodeId>, links: Seq<Link>, placed: Seq<NodeId>, v: NodeId, fuel: nat)
    requires
        fuel > 0,
        min_ready(vs, links, placed, v),
    ensures
        kahn(vs, links, placed, fuel) == kahn(vs, links, placed.push(v), (fuel - 1) as nat),
{
    let w = choose|w: NodeId| min_ready(vs, links, placed, w);
    lemma_min_ready_unique(vs, links, placed, v, w);
}

/// With no ready vertex left, the sort is done.
proof fn lemma_kahn_done(vs: Seq<NodeId>, links: Seq<Link>, placed: Seq<NodeId>, fuel: nat)
    requires
        forall|v: NodeId| !ready(vs, links, placed, v),
    ensures
        kahn(vs, links, placed, fuel) == placed,
{
}

/// A duplicate-free sequence of vertices that misses one vertex is shorter
/// than the vertex list.
proof fn lemma_room(vs: Seq<NodeId>, placed: Seq<NodeId>, v: NodeId)
    requires
        placed.no_duplicates(),
        forall|i: int| 0 <= i < placed.len() ==> vs.contains(#[trigger] placed[i]),
        vs.contains(v),
        !placed.contains(v),
    ensures
        placed.len() < vs.len(),
{
    let s = placed.push(v);
    assert(s.no_duplicates()) by {
        assert forall|i: int, j: int| 0 <= i < j < s.len() implies s[i] != s[j] by {
            if j == s.len() - 1 {
                assert(placed.contains(s[i]));
            }
        }
    }
    s.unique_seq_to_set();
    assert(s.to_set().subset_of(vs.to_set())) by {
        assert forall|x: NodeId| s.to_set().contains(x) implies vs.to_set().contains(x) by {
            let k = choose|k: int| 0 <= k < s.len() && s[k] == x;
            if k < placed.len() {
                assert(vs.contains(placed[k]));
            }
        }
    }
    vstd::seq_lib::seq_to_set_is_finite(vs);
    vstd::set_lib::lemma_len_subset(s.to_set(), vs.to_set());
    vs.lemma_cardinality_of_set();
}

/// Whether `id` occurs in `s`.
fn contains_id(s: &[NodeId], id: NodeId) -> (r: bool)
    ensures
        r == s@.contains(id),
{
    let mut i: usize = 0;
    while i < s.len()
        invariant
            i <= s@.len(),
            forall|k: int| 0 <= k < i ==> s@[k] != id,
        decreases s@.len() - i,
    {
        if s[i].same(id) {
            assert(s@[i as int] == id);
            return true;
        }
        i = i + 1;
    }
    false
}

/// Sorts `s` by ascending id, keeping equal ids together.
fn sort_ids(s: Vec<NodeId>) -> (r: Vec<NodeId>)
    ensures
        nondescending(r@),
        r@.to_multiset() == s@.to_multiset(),
{
    broadcast use vstd::seq_lib::group_to_multiset_ensures;

    let mut r: Vec<NodeId> = Vec::new();
    let mut i: usize = 0;
    while i < s.len()
        invariant
            i <= s@.len(),
            nondescending(r@),
            r@.to_multiset() == s@.subrange(0, i as int).to_multiset(),
        decreases s@.len() - i,
    {
        let x = s[i];
        let mut p: usize = 0;
        while p < r.len() && !x.precedes(r[p])
            invariant
                p <= r@.len(),
                forall|k: int| 0 <= k < p ==> r@[k].key() <= x.key(),
            decreases r@.len() - p,
        {
            p = p + 1;
        }
        let ghost before = r@;
        r.insert(p, x);
        proof {
            assert(r@ =~= before.insert(p as int, x));
            assert forall|a: int, b: int| 0 <= a < b < r@.len() implies r@[a].key() <= r@[b].key() by {
                if a < p && b > p {
                    assert(r@[a] == before[a]);
                    assert(r@[b] == before[b - 1]);
                } else if a == p && b > p {
                    assert(r@[b] == before[b - 1]);
                } else if b == p {
                    assert(r@[a] == before[a]);
                } else if a > p {
                    assert(r@[a] == before[a - 1]);
                    assert(r@[b] == before[b - 1]);
                } else {
                    assert(r@[a] == before[a]);
                    assert(r@[b] == before[b]);
                }
            }
            let left = before.subrange(0, p as int);
            let right = before.subrange(p as int, before.len() as int);
            assert(before =~= left + right);
            assert(r@ =~= left.push(x) + right);
            vstd::seq_lib::lemma_multiset_commutative(left.push(x), right);
            vstd::seq_lib::lemma_multiset_commutative(left, right);
            left.to_multiset_ensures();
            assert(left.push(x).to_multiset() =~= left.to_multiset().insert(x));
            assert(r@.to_multiset() =~= before.to_multiset().insert(x));
            s@.subrange(0, i as int).to_multiset_ensures();
            assert(s@.subrange(0, i + 1) =~= s@.subrange(0, i as int).push(x));
        }
        i = i + 1;
    }
    proof {
        assert(s@.subrange(0, s@.len() as int) =~= s@);
    }
    r
}

/// The vertices one link leads to from a vertex of `from`, counting only
/// the first `k` links, and of those only the links between two vertices.
pub open spec fn successors_upto(vs: Seq<NodeId>, ls: Seq<Link>, from: Set<NodeId>, k: int) -> Set<NodeId> {
    Set::new(
        |w: NodeId|
            exists|j: int|
                0 <= j < k && j < ls.len() && #[trigger] ls[j].dst == w && from.contains(ls[j].src) && vs.contains(
                    ls[j].src,
                ) && vs.contains(w),
    )
}

/// The vertices one link leads to from a vertex of `from`.
pub open spec fn successors(vs: Seq<NodeId>, ls: Seq<Link>, from: Set<NodeId>) -> Set<NodeId> {
    successors_upto(vs, ls, from, ls.len() as int)
}

/// The vertices reachable from `v` through one to `steps` links.
pub open spec fn reach(vs: Seq<NodeId>, ls: Seq<Link>, v: NodeId, steps: nat) -> Set<NodeId>
    decreases steps,
{
    if steps == 0 {
        Set::empty()
    } else {
        successors(vs, ls, reach(vs, ls, v, (steps - 1) as nat).insert(v))
    }
}

/// `v` lies on a cycle: it reaches itself through links between vertices. A
/// cycle through `v` that repeats no vertex has no more links than there are
/// vertices, so that many steps suffice.
pub open spec fn on_cycle(vs: Seq<NodeId>, ls: Seq<Link>, v: NodeId) -> bool {
    reach(vs, ls, v, vs.len()).contains(v)
}

/// The members of `s` that lie on a cycle, in the order of `s`.
pub open spec fn cycle_members(vs: Seq<NodeId>, ls: Seq<Link>, s: Seq<NodeId>) -> Seq<NodeId> {
    s.filter(|v: NodeId| on_cycle(vs, ls, v))
}

/// Pushing `x` adds exactly `x` to the set of a sequence's elements.
proof fn lemma_push_to_set(s: Seq<NodeId>, x: NodeId)
    ensures
        s.push(x).to_set() == s.to_set().insert(x),
{
    assert forall|w: NodeId| #[trigger] s.push(x).to_set().contains(w) == s.to_set().insert(x).contains(w) by {
        if s.push(x).contains(w) {
            let i = choose|i: int| 0 <= i < s.push(x).len() && s.push(x)[i] == w;
            if i < s.len() {
                assert(s[i] == w);
            }
        }
        if s.contains(w) {
            let i = choose|i: int| 0 <= i < s.len() && s[i] == w;
            assert(s.push(x)[i] == w);
        }
        if w == x {
            assert(s.push(x)[s.len() as int] == w);
        }
    }
    assert(s.push(x).to_set() =~= s.to_set().insert(x));
}

/// One round of the reachability search: the vertices one link leads to from
/// `v` or from a vertex of `cur`.
fn reach_round(
    vertices: &[NodeId],
    links: &[Link],
    src_in: &Vec<bool>,
    dst_in: &Vec<bool>,
    v: NodeId,
    cur: &Vec<NodeId>,
) -> (next: Vec<NodeId>)
    requires
        src_in@.len() == links@.len(),
        dst_in@.len() == links@.len(),
        forall|k: int| 0 <= k < links@.len() ==> #[trigger] src_in@[k] == vertices@.contains(links@[k].src),
        forall|k: int| 0 <= k < links@.len() ==> #[trigger] dst_in@[k] == vertices@.contains(links@[k].dst),
    ensures
        next@.to_set() == successors(vertices@, links@, cur@.to_set().insert(v)),
{
    let ghost vs = vertices@;
    let ghost ls = links@;
    let ghost from = cur@.to_set().insert(v);
    let mut next: Vec<NodeId> = Vec::new();
    proof {
        assert(next@.to_set() =~= successors_upto(vs, ls, from, 0));
    }
    let mut k: usize = 0;
    while k < links.len()
        invariant
            vs == vertices@,
            ls == links@,
            from == cur@.to_set().insert(v),
            k <= ls.len(),
            src_in@.len() == ls.len(),
            dst_in@.len() == ls.len(),
            forall|j: int| 0 <= j < ls.len() ==> #[trigger] src_in@[j] == vs.contains(ls[j].src),
            forall|j: int| 0 <= j < ls.len() ==> #[trigger] dst_in@[j] == vs.contains(ls[j].dst),
            next@.to_set() == successors_upto(vs, ls, from, k as int),
        decreases ls.len() - k,
    {
        let l = links[k];
        let counts = src_in[k] && dst_in[k] && (l.src.same(v) || contains_id(cur.as_slice(), l.src));
        let ghost before = next@;
        proof {
            assert(l == ls[k as int]);
            assert(counts == (from.contains(l.src) && vs.contains(l.src) && vs.contains(l.dst)));
        }
        if counts {
            next.push(l.dst);
            proof {
                lemma_push_to_set(before, l.dst);
            }
        }
        proof {
            let a = successors_upto(vs, ls, from, k as int);
            let b = successors_upto(vs, ls, from, k + 1);
            assert forall|w: NodeId| #[trigger] b.contains(w) == (a.contains(w) || (counts && w == l.dst)) by {
                if b.contains(w) {
                    let j = choose|j: int|
                        0 <= j < k + 1 && j < ls.len() && #[trigger] ls[j].dst == w && from.contains(ls[j].src)
                            && vs.contains(ls[j].src) && vs.contains(w);
                    if j < k {
                        assert(a.contains(w));
                    }
                }
                if a.contains(w) {
                    let j = choose|j: int|
                        0 <= j < k && j < ls.len() && #[trigger] ls[j].dst == w && from.contains(ls[j].src)
                            && vs.contains(ls[j].src) && vs.contains(w);
                    assert(b.contains(w));
                }
                if counts && w == l.dst {
                    assert(ls[k as int].dst == w);
                }
            }
            if counts {
                assert(b =~= a.insert(l.dst));
            } else {
                assert(b =~= a);
            }
        }
        k = k + 1;
    }
    next
}

/// Whether `v` lies on a cycle of the links between vertices.
fn on_cycle_exec(vertices: &[NodeId], links: &[Link], src_in: &Vec<bool>, dst_in: &Vec<bool>, v: NodeId) -> (r: bool)
    requires
        src_in@.len() == links@.len(),
        dst_in@.len() == links@.len(),
        forall|k: int| 0 <= k < links@.len() ==> #[trigger] src_in@[k] == vertices@.contains(links@[k].src),
        forall|k: int| 0 <= k < links@.len() ==> #[trigger] dst_in@[k] == vertices@.contains(links@[k].dst),
    ensures
        r == on_cycle(vertices@, links@, v),
{
    let mut cur: Vec<NodeId> = Vec::new();
    proof {
        assert(cur@.to_set() =~= reach(vertices@, links@, v, 0));
    }
    let mut s: usize = 0;
    while s < vertices.len()
        invariant
            s <= vertices@.len(),
            src_in@.len() == links@.len(),
            dst_in@.len() == links@.len(),
            forall|k: int| 0 <= k < links@.len() ==> #[trigger] src_in@[k] == vertices@.contains(links@[k].src),
            forall|k: int| 0 <= k < links@.len() ==> #[trigger] dst_in@[k] == vertices@.contains(links@[k].dst),
            cur@.to_set() == reach(vertices@, links@, v, s as nat),
        decreases vertices@.len() - s,
    {
        cur = reach_round(vertices, links, src_in, dst_in, v, &cur);
        s = s + 1;
    }
    contains_id(cur.as_slice(), v)
}

/// Kahn's algorithm over nodes.
///
/// Ties are broken by ascending [`NodeId`] so the order is deterministic. A
/// link naming a node outside `vertices` is ignored: the sort orders what
/// exists. Vertices the sort cannot place — cycle members and what depends on
/// them — are appended in ascending id order; of those, the ones that lie on a
/// cycle are reported as cycles.
pub fn topological_order(vertices: &[NodeId], links: &[Link]) -> (r: Sorted)
    ensures
        r.order@ == acyclic_order(vertices@, links@) + appended(vertices@, links@, r.order@),
        nondescending(appended(vertices@, links@, r.order@)),
        appended(vertices@, links@, r.order@).to_multiset() == unplaced(vertices@, links@).to_multiset(),
        r.cycles@ == cycle_members(vertices@, links@, appended(vertices@, links@, r.order@)),
        forall|k: int| 0 <= k < r.order@.len() ==> vertices@.contains(#[trigger] r.order@[k]),
{
    let ghost vs = vertices@;
    let ghost ls = links@;
    let ghost n = vs.len();
    // Whether each link's source is a vertex; only such links constrain.
    let mut counts: Vec<bool> = Vec::new();
    let mut i: usize = 0;
    while i < links.len()
        invariant
            vs == vertices@,
            ls == links@,
            n == vs.len(),
            i <= ls.len(),
            counts@.len() == i,
            forall|k: int| 0 <= k < i ==> #[trigger] counts@[k] == vs.contains(ls[k].src),
        decreases ls.len() - i,
    {
        counts.push(contains_id(vertices, links[i].src));
        i = i + 1;
    }
    // Whether each link's target is a vertex.
    let mut dst_in: Vec<bool> = Vec::new();
    let mut i: usize = 0;
    while i < links.len()
        invariant
            vs == vertices@,
            ls == links@,
            i <= ls.len(),
            dst_in@.len() == i,
            forall|k: int| 0 <= k < i ==> #[trigger] dst_in@[k] == vs.contains(ls[k].dst),
        decreases ls.len() - i,
    {
        dst_in.push(contains_id(vertices, links[i].dst));
        i = i + 1;
    }
    // Whether each link's source has been placed.
    let mut src_placed: Vec<bool> = Vec::new();
    let mut i: usize = 0;
    while i < links.len()
        invariant
            vs == vertices@,
            ls == links@,
            n == vs.len(),
            i <= ls.len(),
            src_placed@.len() == i,
            forall|k: int| 0 <= k < i ==> !#[trigger] src_placed@[k],
        decreases ls.len() - i,
    {
        src_placed.push(false);
        i = i + 1;
    }

    let mut order: Vec<NodeId> = Vec::new();
    loop
        invariant
            vs == vertices@,
            ls == links@,
            n == vs.len(),
            counts@.len() == ls.len(),
            forall|k: int| 0 <= k < ls.len() ==> #[trigger] counts@[k] == vs.contains(ls[k].src),
            src_placed@.len() == ls.len(),
            forall|k: int| 0 <= k < ls.len() ==> #[trigger] src_placed@[k] == order@.contains(ls[k].src),
            order@.no_duplicates(),
            forall|k: int| 0 <= k < order@.len() ==> vs.contains(#[trigger] order@[k]),
            order@.len() <= n,
            acyclic_order(vs, ls) == kahn(vs, ls, order@, (n - order@.len()) as nat),
        ensures
            acyclic_order(vs, ls) == order@,
            forall|k: int| 0 <= k < order@.len() ==> vs.contains(#[trigger] order@[k]),
        decreases n - order@.len(),
    {
        // The ready vertex with the smallest id, if any.
        let mut best: Option<NodeId> = None;
        let mut k: usize = 0;
        while k < vertices.len()
            invariant
                vs == vertices@,
                ls == links@,
            vs == vertices@,
            ls == links@,
            n == vs.len(),
                k <= vs.len(),
                counts@.len() == ls.len(),
                forall|j: int| 0 <= j < ls.len() ==> #[trigger] counts@[j] == vs.contains(ls[j].src),
                src_placed@.len() == ls.len(),
                forall|j: int| 0 <= j < ls.len() ==> #[trigger] src_placed@[j] == order@.contains(ls[j].src),
                best matches Some(b) ==> ready(vs, ls, order@, b),
                best matches Some(b) ==> forall|j: int| 0 <= j < k && ready(vs, ls, order@, #[trigger] vs[j]) ==> b.key() <= vs[j].key(),
                best is None ==> forall|j: int| 0 <= j < k ==> !ready(vs, ls, order@, #[trigger] vs[j]),
            decreases vs.len() - k,
        {
            let v = vertices[k];
            if !contains_id(order.as_slice(), v) {
                let mut is_ready = true;
                let mut i: usize = 0;
                while i < links.len()
                    invariant
                        vs == vertices@,
                        ls == links@,
                vs == vertices@,
                ls == links@,
            vs == vertices@,
            ls == links@,
            n == vs.len(),
                        i <= ls.len(),
                        counts@.len() == ls.len(),
                        forall|j: int| 0 <= j < ls.len() ==> #[trigger] counts@[j] == vs.contains(ls[j].src),
                        src_placed@.len() == ls.len(),
                        forall|j: int| 0 <= j < ls.len() ==> #[trigger] src_placed@[j] == order@.contains(ls[j].src),
                        is_ready == forall|j: int| 0 <= j < i && #[trigger] ls[j].dst == v && vs.contains(ls[j].src)
                            ==> order@.contains(ls[j].src),
                    decreases ls.len() - i,
                {
                    if links[i].dst.same(v) && counts[i] && !src_placed[i] {
                        is_ready = false;
                    }
                    i = i + 1;
                }
                proof {
                    assert(vs.contains(v)) by {
                        assert(vs[k as int] == v);
                    }
                }
                if is_ready {
                    match best {
                        None => {
                            best = Some(v);
                        },
                        Some(b) => {
                            if v.precedes(b) {
                                best = Some(v);
                            }
                        },
                    }
                }
            }
            k = k + 1;
        }
        let v = match best {
            None => {
                proof {
                    assert forall|w: NodeId| !ready(vs, ls, order@, w) by {
                        if ready(vs, ls, order@, w) {
                            let j = choose|j: int| 0 <= j < vs.len() && vs[j] == w;
                            assert(!ready(vs, ls, order@, vs[j]));
                        }
                    }
                    lemma_kahn_done(vs, ls, order@, (n - order@.len()) as nat);
                }
                break;
            },
            Some(b) => b,
        };
        proof {
            assert forall|w: NodeId| #[trigger] ready(vs, ls, order@, w) implies v.key() <= w.key() by {
                let j = choose|j: int| 0 <= j < vs.len() && vs[j] == w;
                assert(ready(vs, ls, order@, vs[j]));
            }
            assert(min_ready(vs, ls, order@, v));
            lemma_room(vs, order@, v);
            lemma_kahn_step(vs, ls, order@, v, (n - order@.len()) as nat);
        }
        let ghost before = order@;
        order.push(v);
        let mut i: usize = 0;
        while i < links.len()
            invariant
                vs == vertices@,
                ls == links@,
            vs == vertices@,
            ls == links@,
            n == vs.len(),
                i <= ls.len(),
                order@ == before.push(v),
                src_placed@.len() == ls.len(),
                forall|j: int| i <= j < ls.len() ==> #[trigger] src_placed@[j] == before.contains(ls[j].src),
                forall|j: int| 0 <= j < i ==> #[trigger] src_placed@[j] == order@.contains(ls[j].src),
            decreases ls.len() - i,
        {
            if links[i].src.same(v) {
                src_placed.set(i, true);
            }
            proof {
                broadcast use vstd::seq_lib::group_seq_properties;
                assert(order@[before.len() as int] == v);
                assert(order@.contains(ls[i as int].src) == (before.contains(ls[i as int].src) || ls[i as int].src == v));
            }
            i = i + 1;
        }
        proof {
            assert forall|j: int| 0 <= j < ls.len() implies #[trigger] src_placed@[j] == order@.contains(ls[j].src) by {
                if src_placed@[j] != order@.contains(ls[j].src) {
                    assert(false);
                }
            }
            assert(order@.no_duplicates()) by {
                assert forall|a: int, b: int| 0 <= a < b < order@.len() implies order@[a] != order@[b] by {
                    if b == order@.len() - 1 {
                        assert(before.contains(order@[a]));
                    } else {
                        assert(before[a] == order@[a]);
                        assert(before[b] == order@[b]);
                    }
                }
            }
        }
    }

    // Cycle members, ascending.
    let ghost acyclic = order@;
    let mut rest: Vec<NodeId> = Vec::new();
    let ghost pred = |x: NodeId| !acyclic.contains(x);
    let mut k: usize = 0;
    while k < vertices.len()
        invariant
            vs == vertices@,
            ls == links@,
            n == vs.len(),
            k <= vs.len(),
            order@ == acyclic,
            forall|j: int| 0 <= j < acyclic.len() ==> vs.contains(#[trigger] acyclic[j]),
            pred == (|x: NodeId| !acyclic.contains(x)),
            rest@ == vs.subrange(0, k as int).filter(pred),
        decreases vs.len() - k,
    {
        proof {
            assert(vs.subrange(0, k + 1) =~= vs.subrange(0, k as int).push(vs[k as int]));
            vs.subrange(0, k as int).lemma_filter_push(vs[k as int], pred);
        }
        if !contains_id(order.as_slice(), vertices[k]) {
            rest.push(vertices[k]);
        }
        k = k + 1;
    }
    proof {
        assert(vs.subrange(0, vs.len() as int) =~= vs);
    }
    let ghost rest_v = rest@;
    let tail = sort_ids(rest);
    let mut full = order;
    let mut cycles: Vec<NodeId> = Vec::new();
    let mut c: usize = 0;
    while c < tail.len()
        invariant
            vs == vertices@,
            ls == links@,
            n == vs.len(),
            c <= tail@.len(),
            forall|j: int| 0 <= j < acyclic.len() ==> vs.contains(#[trigger] acyclic[j]),
            full@ == acyclic + tail@.subrange(0, c as int),
            cycles@ == cycle_members(vs, ls, tail@.subrange(0, c as int)),
            counts@.len() == ls.len(),
            forall|k: int| 0 <= k < ls.len() ==> #[trigger] counts@[k] == vs.contains(ls[k].src),
            dst_in@.len() == ls.len(),
            forall|k: int| 0 <= k < ls.len() ==> #[trigger] dst_in@[k] == vs.contains(ls[k].dst),
        decreases tail@.len() - c,
    {
        let x = tail[c];
        full.push(x);
        proof {
            assert(tail@.subrange(0, c + 1) =~= tail@.subrange(0, c as int).push(x));
            tail@.subrange(0, c as int).lemma_filter_push(x, |v: NodeId| on_cycle(vs, ls, v));
        }
        if on_cycle_exec(vertices, links, &counts, &dst_in, x) {
            cycles.push(x);
        }
        c = c + 1;
    }
    proof {
        broadcast use vstd::seq_lib::group_to_multiset_ensures;
        assert(tail@.subrange(0, tail@.len() as int) =~= tail@);
        assert(full@.skip(acyclic.len() as int) =~= tail@);
        assert forall|k: int| 0 <= k < full@.len() implies vs.contains(#[trigger] full@[k]) by {
            if k >= acyclic.len() {
                let x = tail@[k - acyclic.len()];
                assert(full@[k] == x);
                assert(tail@.contains(x));
                assert(tail@.to_multiset().count(x) > 0);
                assert(rest_v.contains(x));
                assert(rest_v == vs.filter(pred));
                vs.lemma_filter_contains_rev(pred, x);
            } else {
                assert(full@[k] == acyclic[k]);
            }
        }
    }
    Sorted { order: full, cycles }
}

/// A value-carrying edge landing on node `id`.
pub open spec fn value_into(e: Edge, id: NodeId) -> bool {
    e.dst.node == id && !e.valueless
}

/// Both of the edge's paths are accepted by the path parser, so the edge
/// produces a propagate step.
pub open spec fn parses(e: Edge) -> bool {
    reflect_path_valid(spec_absolute_path(Part::Outlets, e.src.path@)) && reflect_path_valid(
        spec_absolute_path(Part::Inlets, e.dst.path@),
    )
}

/// How many value edges land on the inlet `(id, path)`: the length of a
/// list-shaped inlet there.
pub open spec fn port_len(edges: Seq<Edge>, id: NodeId, path: Seq<char>) -> nat {
    edges.filter(|e: Edge| value_into(e, id) && e.dst.path@ == path).len()
}

/// The position of `e` within its inlet: how many value edges on the same
/// inlet come before it in slot order.
pub open spec fn port_rank(edges: Seq<Edge>, e: Edge) -> nat {
    edges.filter(|x: Edge| value_into(x, e.dst.node) && x.dst.path@ == e.dst.path@ && sort_key_lt(x, e)).len()
}

/// The order of a node's inbound edges in the plan: by inlet path, then by
/// slot order.
pub open spec fn port_key_lt(a: Edge, b: Edge) -> bool {
    text_lt(a.dst.path@, b.dst.path@) || (a.dst.path@ == b.dst.path@ && sort_key_lt(a, b))
}

/// `p` is a list-shaped inlet path of `n` that the parser accepts: an inlet
/// whose length the edge set decides.
pub open spec fn truncated_path(n: Node, p: Seq<char>) -> bool {
    &&& exists|i: int|
        0 <= i < n.spec_part(Part::Inlets).len() && is_list_field(#[trigger] n.spec_part(Part::Inlets)[i])
            && n.spec_part(Part::Inlets)[i].path@ == p
    &&& reflect_path_valid(spec_absolute_path(Part::Inlets, p))
}

/// `step` shrinks the inlet list `(id, path)` to `len` elements.
pub open spec fn is_truncate(step: GraphStep, id: NodeId, path: Seq<char>, len: nat) -> bool {
    &&& step matches GraphStep::TruncateList { node, path: p, len: l }
    &&& node == id
    &&& p@ == spec_absolute_path(Part::Inlets, path)
    &&& l == len
}

/// `step` copies along edge `e`, into element `index` of a variadic inlet.
pub open spec fn is_propagate(step: GraphStep, e: Edge, index: nat) -> bool {
    &&& step matches GraphStep::Propagate(ps)
    &&& ps.edge == e.id
    &&& ps.src == e.src.node
    &&& ps.src_path@ == spec_absolute_path(Part::Outlets, e.src.path@)
    &&& ps.dst == e.dst.node
    &&& ps.dst_path@ == spec_absolute_path(Part::Inlets, e.dst.path@)
    &&& ps.compat == e.compat
    &&& ps.index == index
}

/// `block` is node `id`'s part of the plan: one truncation per list-shaped
/// inlet (`rels`, by path), one propagation per value edge landing on it
/// (`es`, by inlet path then slot order), then the node's evaluation.
pub open spec fn node_block(g: &Graph, id: NodeId, block: Seq<GraphStep>, rels: Seq<Seq<char>>, es: Seq<Edge>) -> bool {
    let edges = g.spec_edges();
    &&& forall|a: int, b: int| 0 <= a < b < rels.len() ==> text_lt(rels[a], rels[b])
    &&& forall|p: Seq<char>| truncated_path(g.node(id), p) <==> rels.contains(p)
    &&& forall|a: int, b: int| 0 <= a < b < es.len() ==> port_key_lt(es[a], es[b])
    &&& forall|e: Edge| (edges.contains(e) && value_into(e, id) && parses(e)) <==> es.contains(e)
    &&& block.len() == rels.len() + es.len() + 1
    &&& forall|t: int| 0 <= t < rels.len() ==> is_truncate(#[trigger] block[t], id, rels[t], port_len(edges, id, rels[t]))
    &&& forall|q: int| 0 <= q < es.len() ==> is_propagate(#[trigger] block[rels.len() + q], es[q], port_rank(edges, es[q]))
    &&& block.last() == GraphStep::Evaluate { node: id }
}

/// The ordering constraints of the graph's edges.
pub open spec fn graph_links(g: &Graph) -> Seq<Link> {
    g.spec_edges().map_values(|e: Edge| Link { src: e.src.node, dst: e.dst.node })
}

/// The order of inbound edges is a strict total order on edges with
/// different ids.
proof fn lemma_port_key_order(a: Edge, b: Edge, c: Edge)
    ensures
        a.id != b.id ==> (port_key_lt(a, b) || port_key_lt(b, a)),
        !(port_key_lt(a, b) && port_key_lt(b, a)),
        port_key_lt(a, b) && port_key_lt(b, c) ==> port_key_lt(a, c),
{
    lemma_text_lt_order(a.dst.path@, b.dst.path@, c.dst.path@);
    lemma_text_lt_order(b.dst.path@, a.dst.path@, c.dst.path@);
    lemma_node_id_eq(a.src.node, b.src.node);
    lemma_edge_id_eq(a.id, b.id);
}

/// The texts of a list of strings.
pub open spec fn texts(v: Seq<String>) -> Seq<Seq<char>> {
    v.map_values(|s: String| s@)
}

/// `s` ascends strictly in `str` order.
pub open spec fn strictly_ascending(s: Seq<Seq<char>>) -> bool {
    forall|a: int, b: int| 0 <= a < b < s.len() ==> text_lt(s[a], s[b])
}

/// Inserts path `x` into the strictly ascending list of paths `v`.
fn insert_path_sorted(v: &mut Vec<String>, x: String)
    requires
        strictly_ascending(texts(old(v)@)),
        !texts(old(v)@).contains(x@),
    ensures
        strictly_ascending(texts(final(v)@)),
        final(v)@.len() == old(v)@.len() + 1,
        forall|q: Seq<char>| #[trigger] texts(final(v)@).contains(q) <==> (texts(old(v)@).contains(q) || q == x@),
{
    let mut p: usize = 0;
    while p < v.len() && str_less(v[p].as_str(), x.as_str())
        invariant
            v@ == old(v)@,
            p <= v@.len(),
            forall|k: int| 0 <= k < p ==> text_lt(v@[k]@, x@),
        decreases v@.len() - p,
    {
        p = p + 1;
    }
    let ghost before = texts(v@);
    let ghost xv = x@;
    proof {
        if p < before.len() {
            lemma_text_lt_order(before[p as int], xv, xv);
            if before[p as int] == xv {
                assert(before.contains(xv));
            }
        }
    }
    v.insert(p, x);
    let ghost after = texts(v@);
    proof {
        assert(after =~= before.insert(p as int, xv));
        assert forall|a: int, b: int| 0 <= a < b < after.len() implies text_lt(after[a], after[b]) by {
            if a < p && b == p {
            } else if a < p && b > p {
                lemma_text_lt_order(after[a], xv, before[b - 1]);
                lemma_text_lt_order(xv, before[p as int], before[b - 1]);
            } else if a == p {
                lemma_text_lt_order(xv, before[p as int], before[b - 1]);
            }
        }
        assert forall|q: Seq<char>| #[trigger] after.contains(q) <==> (before.contains(q) || q == xv) by {
            if after.contains(q) {
                let a = choose|a: int| 0 <= a < after.len() && after[a] == q;
                if a < p {
                    assert(before[a] == q);
                } else if a > p {
                    assert(before[a - 1] == q);
                }
            }
            if before.contains(q) {
                let a = choose|a: int| 0 <= a < before.len() && before[a] == q;
                if a < p {
                    assert(after[a] == q);
                } else {
                    assert(after[a + 1] == q);
                }
            }
            if q == xv {
                assert(after[p as int] == q);
            }
        }
    }
}

/// `s` ascends strictly in the order of a node's inbound edges.
pub open spec fn sorted_by_port(s: Seq<Edge>) -> bool {
    forall|a: int, b: int| 0 <= a < b < s.len() ==> port_key_lt(s[a], s[b])
}

/// Whether `a` comes before `b` among a node's inbound edges.
fn port_key_less(a: &Edge, b: &Edge) -> (r: bool)
    ensures
        r == port_key_lt(*a, *b),
{
    if str_less(a.dst.path.as_str(), b.dst.path.as_str()) {
        return true;
    }
    if !str_eq(a.dst.path.as_str(), b.dst.path.as_str()) {
        return false;
    }
    a.slot < b.slot || (a.slot == b.slot && (a.src.node.precedes(b.src.node) || (a.src.node.same(b.src.node)
        && a.id.get() < b.id.get())))
}

/// Inserts `e` into the list `v`, kept in the order of inbound edges.
fn insert_edge_sorted(v: &mut Vec<Edge>, e: Edge)
    requires
        sorted_by_port(old(v)@),
        forall|k: int| 0 <= k < old(v)@.len() ==> (#[trigger] old(v)@[k]).id != e.id,
    ensures
        sorted_by_port(final(v)@),
        final(v)@.len() == old(v)@.len() + 1,
        forall|x: Edge| #[trigger] final(v)@.contains(x) <==> (old(v)@.contains(x) || x == e),
{
    let mut p: usize = 0;
    while p < v.len() && port_key_less(&v[p], &e)
        invariant
            v@ == old(v)@,
            p <= v@.len(),
            forall|k: int| 0 <= k < p ==> port_key_lt(v@[k], e),
        decreases v@.len() - p,
    {
        p = p + 1;
    }
    let ghost before = v@;
    proof {
        if p < before.len() {
            lemma_port_key_order(before[p as int], e, e);
        }
    }
    v.insert(p, e);
    proof {
        let after = v@;
        assert(after =~= before.insert(p as int, e));
        assert forall|a: int, b: int| 0 <= a < b < after.len() implies port_key_lt(after[a], after[b]) by {
            if a < p && b == p {
            } else if a < p && b > p {
                lemma_port_key_order(after[a], e, before[b - 1]);
                lemma_port_key_order(e, before[p as int], before[b - 1]);
            } else if a == p {
                lemma_port_key_order(e, before[p as int], before[b - 1]);
            }
        }
        assert forall|x: Edge| #[trigger] after.contains(x) <==> (before.contains(x) || x == e) by {
            if after.contains(x) {
                let a = choose|a: int| 0 <= a < after.len() && after[a] == x;
                if a < p {
                    assert(before[a] == x);
                } else if a > p {
                    assert(before[a - 1] == x);
                }
            }
            if before.contains(x) {
                let a = choose|a: int| 0 <= a < before.len() && before[a] == x;
                if a < p {
                    assert(after[a] == x);
                } else {
                    assert(after[a + 1] == x);
                }
            }
            if x == e {
                assert(after[p as int] == x);
            }
        }
    }
}

/// How many value edges of `edges` land on the inlet `(id, path)`.
fn count_port(edges: &[Edge], id: NodeId, path: &str) -> (n: usize)
    ensures
        n == port_len(edges@, id, path@),
{
    let ghost es = edges@;
    let ghost pred = |e: Edge| value_into(e, id) && e.dst.path@ == path@;
    let mut n: usize = 0;
    let mut j: usize = 0;
    while j < edges.len()
        invariant
            es == edges@,
            pred == (|e: Edge| value_into(e, id) && e.dst.path@ == path@),
            j <= es.len(),
            n == es.subrange(0, j as int).filter(pred).len(),
            n <= j,
        decreases es.len() - j,
    {
        proof {
            assert(es.subrange(0, j + 1) =~= es.subrange(0, j as int).push(es[j as int]));
            es.subrange(0, j as int).lemma_filter_push(es[j as int], pred);
        }
        let x = &edges[j];
        if x.dst.node.same(id) && x.carries_value() && str_eq(x.dst.path.as_str(), path) {
            n = n + 1;
        }
        j = j + 1;
    }
    assert(es.subrange(0, es.len() as int) =~= es);
    assert(port_len(es, id, path@) == es.filter(pred).len());
    n
}

/// How many value edges on `e`'s inlet come before `e` in slot order.
fn count_rank(edges: &[Edge], e: &Edge) -> (n: usize)
    ensures
        n == port_rank(edges@, *e),
{
    let ghost es = edges@;
    let ghost pred = |x: Edge| value_into(x, e.dst.node) && x.dst.path@ == e.dst.path@ && sort_key_lt(x, *e);
    let mut n: usize = 0;
    let mut j: usize = 0;
    while j < edges.len()
        invariant
            es == edges@,
            pred == (|x: Edge| value_into(x, e.dst.node) && x.dst.path@ == e.dst.path@ && sort_key_lt(x, *e)),
            j <= es.len(),
            n == es.subrange(0, j as int).filter(pred).len(),
            n <= j,
        decreases es.len() - j,
    {
        proof {
            assert(es.subrange(0, j + 1) =~= es.subrange(0, j as int).push(es[j as int]));
            es.subrange(0, j as int).lemma_filter_push(es[j as int], pred);
        }
        let x = &edges[j];
        let before = x.slot < e.slot || (x.slot == e.slot && (x.src.node.precedes(e.src.node) || (
        x.src.node.same(e.src.node) && x.id.get() < e.id.get())));
        if x.dst.node.same(e.dst.node) && x.carries_value() && str_eq(x.dst.path.as_str(), e.dst.path.as_str())
            && before {
            n = n + 1;
        }
        j = j + 1;
    }
    assert(es.subrange(0, es.len() as int) =~= es);
    assert(port_rank(es, *e) == es.filter(pred).len());
    n
}

/// Whether the field holds a list.
fn field_is_list(f: &Field) -> (r: bool)
    ensures
        r == is_list_field(*f),
{
    match &f.ty {
        Some(t) => match t.shape {
            Shape::List(_) => true,
            _ => false,
        },
        None => false,
    }
}

/// The list-shaped inlet paths of `node` that the path parser accepts, in
/// ascending order.
fn truncated_paths(node: &Node) -> (paths: Vec<String>)
    requires
        node.wf(),
    ensures
        strictly_ascending(texts(paths@)),
        forall|q: Seq<char>| #[trigger] texts(paths@).contains(q) <==> truncated_path(*node, q),
{
    let fields = node.part(Part::Inlets);
    let ghost f = fields@;
    let mut paths: Vec<String> = Vec::new();
    let mut i: usize = 0;
    while i < fields.len()
        invariant
            f == fields@,
            f == node.spec_part(Part::Inlets),
            distinct_paths(f),
            i <= f.len(),
            strictly_ascending(texts(paths@)),
            forall|q: Seq<char>| #[trigger] texts(paths@).contains(q) <==> ((exists|k: int|
                0 <= k < i && is_list_field(#[trigger] f[k]) && f[k].path@ == q) && reflect_path_valid(
                spec_absolute_path(Part::Inlets, q),
            )),
        decreases f.len() - i,
    {
        let fd = &fields[i];
        let ghost q = fd.path@;
        if field_is_list(fd) && parse(Part::Inlets, fd.path.as_str()).is_some() {
            proof {
                if texts(paths@).contains(q) {
                    let k = choose|k: int| 0 <= k < i && is_list_field(#[trigger] f[k]) && f[k].path@ == q;
                    assert(f[k].path@ != f[i as int].path@);
                }
            }
            insert_path_sorted(&mut paths, fd.path.clone());
            proof {
                assert forall|p: Seq<char>| #[trigger] texts(paths@).contains(p) <==> ((exists|k: int|
                    0 <= k < i + 1 && is_list_field(#[trigger] f[k]) && f[k].path@ == p) && reflect_path_valid(
                    spec_absolute_path(Part::Inlets, p),
                )) by {
                    if p == q {
                        assert(is_list_field(f[i as int]));
                    }
                }
            }
        } else {
            proof {
                assert forall|p: Seq<char>| #[trigger] texts(paths@).contains(p) <==> ((exists|k: int|
                    0 <= k < i + 1 && is_list_field(#[trigger] f[k]) && f[k].path@ == p) && reflect_path_valid(
                    spec_absolute_path(Part::Inlets, p),
                )) by {
                    if exists|k: int| 0 <= k < i + 1 && is_list_field(#[trigger] f[k]) && f[k].path@ == p {
                        let k = choose|k: int| 0 <= k < i + 1 && is_list_field(#[trigger] f[k]) && f[k].path@ == p;
                        if k == i && reflect_path_valid(spec_absolute_path(Part::Inlets, p)) {
                            assert(false);
                        }
                    }
                }
            }
        }
        i = i + 1;
    }
    paths
}

/// The value edges of `edges` landing on `id` whose paths both parse, in the
/// order of inbound edges.
fn inbound_edges(edges: &[Edge], id: NodeId) -> (es: Vec<Edge>)
    requires
        forall|i: int, j: int| 0 <= i < j < edges@.len() ==> edges@[i].id.spec_get() < edges@[j].id.spec_get(),
    ensures
        sorted_by_port(es@),
        forall|e: Edge| #[trigger] es@.contains(e) <==> (edges@.contains(e) && value_into(e, id) && parses(e)),
{
    let ghost all = edges@;
    let mut es: Vec<Edge> = Vec::new();
    let mut j: usize = 0;
    while j < edges.len()
        invariant
            all == edges@,
            forall|i: int, k: int| 0 <= i < k < all.len() ==> all[i].id.spec_get() < all[k].id.spec_get(),
            j <= all.len(),
            sorted_by_port(es@),
            forall|e: Edge| #[trigger] es@.contains(e) <==> ((exists|m: int| 0 <= m < j && all[m] == e) && value_into(
                e,
                id,
            ) && parses(e)),
            forall|k: int, m: int| 0 <= k < es@.len() && j <= m < all.len() ==> (#[trigger] es@[k]).id.spec_get()
                < (#[trigger] all[m]).id.spec_get(),
        decreases all.len() - j,
    {
        let x = &edges[j];
        let ghost xe = *x;
        if x.dst.node.same(id) && x.carries_value() && parse(Part::Outlets, x.src.path.as_str()).is_some() && parse(
            Part::Inlets,
            x.dst.path.as_str(),
        ).is_some() {
            proof {
                assert forall|k: int| 0 <= k < es@.len() implies (#[trigger] es@[k]).id != xe.id by {
                    assert(es@[k].id.spec_get() < all[j as int].id.spec_get());
                }
            }
            let ghost before = es@;
            insert_edge_sorted(&mut es, x.duplicate());
            proof {
                assert forall|e: Edge| #[trigger] es@.contains(e) <==> ((exists|m: int| 0 <= m < j + 1 && all[m] == e)
                    && value_into(e, id) && parses(e)) by {
                    if e == xe {
                        assert(all[j as int] == e);
                    }
                    if exists|m: int| 0 <= m < j + 1 && all[m] == e {
                        let m = choose|m: int| 0 <= m < j + 1 && all[m] == e;
                        if m < j {
                            assert(exists|m: int| 0 <= m < j && all[m] == e);
                        }
                    }
                }
                assert forall|k: int, m: int| 0 <= k < es@.len() && j + 1 <= m < all.len() implies (#[trigger] es@[k]).id.spec_get()
                    < (#[trigger] all[m]).id.spec_get() by {
                    assert(es@.contains(es@[k]));
                    if es@[k] != xe {
                        assert(before.contains(es@[k]));
                        let k2 = choose|k2: int| 0 <= k2 < before.len() && before[k2] == es@[k];
                        assert(before[k2].id.spec_get() < all[m].id.spec_get());
                    }
                }
            }
        } else {
            proof {
                assert forall|e: Edge| #[trigger] es@.contains(e) <==> ((exists|m: int| 0 <= m < j + 1 && all[m] == e)
                    && value_into(e, id) && parses(e)) by {
                    if exists|m: int| 0 <= m < j + 1 && all[m] == e {
                        let m = choose|m: int| 0 <= m < j + 1 && all[m] == e;
                        if m < j {
                            assert(exists|m: int| 0 <= m < j && all[m] == e);
                        }
                    }
                }
            }
        }
        j = j + 1;
    }
    es
}

/// Node `id`'s part of the plan.
fn node_steps(graph: &Graph, id: NodeId, node: &Node) -> (block: Vec<GraphStep>)
    requires
        graph.wf(),
        graph.live(id),
        *node == graph.node(id),
    ensures
        exists|rels: Seq<Seq<char>>, es: Seq<Edge>| node_block(graph, id, block@, rels, es),
{
    proof {
        assert(node.wf()) by {
            let i = id.spec_index() as int;
            assert(graph.spec_slots()[i].1 matches Some(n) ==> n.wf());
        }
    }
    let ghost g_edges = graph.spec_edges();
    let edges = graph.edges();
    let paths = truncated_paths(node);
    let ghost rels = texts(paths@);
    let mut block: Vec<GraphStep> = Vec::new();
    let mut t: usize = 0;
    while t < paths.len()
        invariant
            edges@ == g_edges,
            g_edges == graph.spec_edges(),
            rels == texts(paths@),
            *node == graph.node(id),
            forall|q: Seq<char>| #[trigger] rels.contains(q) <==> truncated_path(*node, q),
            t <= paths@.len(),
            block@.len() == t,
            forall|u: int| 0 <= u < t ==> is_truncate(#[trigger] block@[u], id, rels[u], port_len(g_edges, id, rels[u])),
        decreases paths@.len() - t,
    {
        let path = paths[t].as_str();
        proof {
            assert(rels[t as int] == path@);
            assert(rels.contains(path@));
        }
        let len = count_port(edges, id, path);
        let parsed = parse(Part::Inlets, path);
        let pp = parsed.unwrap();
        block.push(GraphStep::TruncateList { node: id, path: pp, len });
        t = t + 1;
    }
    let es = inbound_edges(edges, id);
    let mut q: usize = 0;
    while q < es.len()
        invariant
            edges@ == g_edges,
            g_edges == graph.spec_edges(),
            rels == texts(paths@),
            rels.len() == paths@.len(),
            q <= es@.len(),
            block@.len() == rels.len() + q,
            forall|u: int| 0 <= u < rels.len() ==> is_truncate(#[trigger] block@[u], id, rels[u], port_len(g_edges, id, rels[u])),
            forall|u: int| 0 <= u < q ==> is_propagate(#[trigger] block@[rels.len() + u], es@[u], port_rank(g_edges, es@[u])),
            forall|e: Edge| #[trigger] es@.contains(e) <==> (g_edges.contains(e) && value_into(e, id) && parses(e)),
        decreases es@.len() - q,
    {
        let e = &es[q];
        proof {
            assert(es@.contains(es@[q as int]));
        }
        let index = count_rank(edges, e);
        let src_path = parse(Part::Outlets, e.src.path.as_str()).unwrap();
        let dst_path = parse(Part::Inlets, e.dst.path.as_str()).unwrap();
        let ghost before = block@;
        block.push(
            GraphStep::Propagate(
                PropagateStep {
                    edge: e.id,
                    src: e.src.node,
                    src_path,
                    dst: e.dst.node,
                    dst_path,
                    compat: e.compat,
                    index,
                },
            ),
        );
        proof {
            assert forall|u: int| 0 <= u < rels.len() implies is_truncate(#[trigger] block@[u], id, rels[u], port_len(g_edges, id, rels[u])) by {
                assert(block@[u] == before[u]);
            }
            assert forall|u: int| 0 <= u < q + 1 implies is_propagate(#[trigger] block@[rels.len() + u], es@[u], port_rank(g_edges, es@[u])) by {
                if u < q {
                    assert(block@[rels.len() + u] == before[rels.len() + u]);
                }
            }
        }
        q = q + 1;
    }
    let ghost before = block@;
    block.push(GraphStep::Evaluate { node: id });
    proof {
        assert forall|u: int| 0 <= u < rels.len() implies is_truncate(#[trigger] block@[u], id, rels[u], port_len(g_edges, id, rels[u])) by {
            assert(block@[u] == before[u]);
        }
        assert forall|u: int| 0 <= u < es@.len() implies is_propagate(#[trigger] block@[rels.len() + u], es@[u], port_rank(g_edges, es@[u])) by {
            assert(block@[rels.len() + u] == before[rels.len() + u]);
        }
        assert(node_block(graph, id, block@, rels, es@));
    }
    block
}

/// `r` is the evaluation plan of `g`: the node order is the sort of the live
/// nodes under the edges' links, the nodes it cannot place appended in
/// ascending order, the cycles are those of them that lie on a cycle, and the
/// steps are each node's block, node by node in that order.
pub open spec fn is_plan(g: &Graph, r: EvalOrder) -> bool {
    let vs = g.live_ids();
    let ls = graph_links(g);
    &&& r.order@ == acyclic_order(vs, ls) + appended(vs, ls, r.order@)
    &&& nondescending(appended(vs, ls, r.order@))
    &&& appended(vs, ls, r.order@).to_multiset() == unplaced(vs, ls).to_multiset()
    &&& r.cycles@ == cycle_members(vs, ls, appended(vs, ls, r.order@))
    &&& exists|blocks: Seq<Seq<GraphStep>>, relss: Seq<Seq<Seq<char>>>, ess: Seq<Seq<Edge>>|
        plan_blocks(g, r, blocks, relss, ess)
}

/// `blocks` cut the plan's steps into one block per node of its order, with
/// the truncated paths `relss` and the inbound edges `ess` of each.
pub open spec fn plan_blocks(
    g: &Graph,
    r: EvalOrder,
    blocks: Seq<Seq<GraphStep>>,
    relss: Seq<Seq<Seq<char>>>,
    ess: Seq<Seq<Edge>>,
) -> bool {
    &&& blocks.len() == r.order@.len()
    &&& relss.len() == r.order@.len()
    &&& ess.len() == r.order@.len()
    &&& r.steps@ == blocks.flatten()
    &&& forall|k: int| 0 <= k < blocks.len() ==> #[trigger] node_block(g, r.order@[k], blocks[k], relss[k], ess[k])
}

/// The links of every edge.
fn links_of(edges: &[Edge]) -> (links: Vec<Link>)
    ensures
        links@ == edges@.map_values(|e: Edge| Link { src: e.src.node, dst: e.dst.node }),
{
    let mut links: Vec<Link> = Vec::new();
    let mut j: usize = 0;
    while j < edges.len()
        invariant
            j <= edges@.len(),
            links@ == edges@.subrange(0, j as int).map_values(|e: Edge| Link { src: e.src.node, dst: e.dst.node }),
        decreases edges@.len() - j,
    {
        links.push(Link { src: edges[j].src.node, dst: edges[j].dst.node });
        proof {
            assert(edges@.subrange(0, j + 1) =~= edges@.subrange(0, j as int).push(edges@[j as int]));
            assert(links@ =~= edges@.subrange(0, j + 1).map_values(|e: Edge| Link { src: e.src.node, dst: e.dst.node }));
        }
        j = j + 1;
    }
    assert(edges@.subrange(0, edges@.len() as int) =~= edges@);
    links
}

/// Rebuilds the evaluation plan from the graph's current shape.
///
/// Authoring-time only: the tick reads the plan and never rebuilds it.
pub fn rebuild(graph: &Graph) -> (r: EvalOrder)
    requires
        graph.wf(),
    ensures
        is_plan(graph, r),
        forall|k: int| 0 <= k < r.order@.len() ==> graph.live(#[trigger] r.order@[k]),
{
    let vertices = graph.node_ids();
    let links = links_of(graph.edges());
    let sorted = topological_order(vertices.as_slice(), links.as_slice());
    let order = sorted.order;
    let cycles = sorted.cycles;
    let mut steps: Vec<GraphStep> = Vec::new();
    let ghost mut blocks: Seq<Seq<GraphStep>> = Seq::empty();
    let ghost mut relss: Seq<Seq<Seq<char>>> = Seq::empty();
    let ghost mut ess: Seq<Seq<Edge>> = Seq::empty();
    let mut k: usize = 0;
    while k < order.len()
        invariant
            graph.wf(),
            forall|j: int| 0 <= j < order@.len() ==> graph.live(#[trigger] order@[j]),
            k <= order@.len(),
            blocks.len() == k,
            relss.len() == k,
            ess.len() == k,
            steps@ == blocks.flatten(),
            forall|j: int| 0 <= j < k ==> #[trigger] node_block(graph, order@[j], blocks[j], relss[j], ess[j]),
        decreases order@.len() - k,
    {
        let id = order[k];
        proof {
            assert(graph.live(order@[k as int]));
        }
        let node = graph.get(id).unwrap();
        let mut block = node_steps(graph, id, node);
        let ghost b = block@;
        let ghost (rels, es) = choose|rels: Seq<Seq<char>>, es: Seq<Edge>| node_block(graph, id, b, rels, es);
        steps.append(&mut block);
        proof {
            blocks.lemma_flatten_push(b);
            blocks = blocks.push(b);
            relss = relss.push(rels);
            ess = ess.push(es);
        }
        k = k + 1;
    }
    let r = EvalOrder { steps, order, cycles };
    proof {
        assert(plan_blocks(graph, r, blocks, relss, ess));
    }
    r
}

/// Among the first `n` vertices, one that satisfies `p` and has the
/// smallest id among those that do.
proof fn lemma_min_prefix(vs: Seq<NodeId>, p: spec_fn(NodeId) -> bool, n: int) -> (m: int)
    requires
        0 <= n <= vs.len(),
        exists|j: int| 0 <= j < n && #[trigger] p(vs[j]),
    ensures
        0 <= m < n,
        p(vs[m]),
        forall|j: int| 0 <= j < n && #[trigger] p(vs[j]) ==> vs[m].key() <= vs[j].key(),
    decreases n,
{
    if exists|j: int| 0 <= j < n - 1 && #[trigger] p(vs[j]) {
        let m = lemma_min_prefix(vs, p, n - 1);
        if p(vs[n - 1]) && vs[n - 1].key() < vs[m].key() {
            n - 1
        } else {
            m
        }
    } else {
        n - 1
    }
}

/// If some vertex is ready, a minimal ready vertex exists.
proof fn lemma_min_ready_exists(vs: Seq<NodeId>, links: Seq<Link>, placed: Seq<NodeId>, w: NodeId)
    requires
        ready(vs, links, placed, w),
    ensures
        exists|v: NodeId| min_ready(vs, links, placed, v),
{
    let p = |x: NodeId| ready(vs, links, placed, x);
    let jw = choose|j: int| 0 <= j < vs.len() && vs[j] == w;
    assert(p(vs[jw]));
    let m = lemma_min_prefix(vs, p, vs.len() as int);
    assert forall|x: NodeId| #[trigger] ready(vs, links, placed, x) implies vs[m].key() <= x.key() by {
        let jx = choose|j: int| 0 <= j < vs.len() && vs[j] == x;
        assert(p(vs[jx]));
    }
    assert(min_ready(vs, links, placed, vs[m]));
}

/// Every node of `s` comes after each producer that feeds it through a link
/// whose source is a vertex.
pub open spec fn producers_first(vs: Seq<NodeId>, links: Seq<Link>, s: Seq<NodeId>) -> bool {
    forall|l: int, i: int|
        0 <= l < links.len() && 0 <= i < s.len() && #[trigger] s[i] == #[trigger] links[l].dst && vs.contains(
            links[l].src,
        ) ==> exists|j: int| 0 <= j < i && s[j] == links[l].src
}

/// Each step of the sort keeps producers ahead of their consumers.
proof fn lemma_kahn_producers_first(vs: Seq<NodeId>, links: Seq<Link>, placed: Seq<NodeId>, fuel: nat)
    requires
        producers_first(vs, links, placed),
    ensures
        producers_first(vs, links, kahn(vs, links, placed, fuel)),
    decreases fuel,
{
    if fuel > 0 && exists|v: NodeId| ready(vs, links, placed, v) {
        let v = choose|v: NodeId| min_ready(vs, links, placed, v);
        let w = choose|w: NodeId| ready(vs, links, placed, w);
        lemma_min_ready_exists(vs, links, placed, w);
        let next = placed.push(v);
        assert forall|l: int, i: int|
            0 <= l < links.len() && 0 <= i < next.len() && #[trigger] next[i] == #[trigger] links[l].dst
                && vs.contains(links[l].src) implies exists|j: int| 0 <= j < i && next[j] == links[l].src by {
            if i == placed.len() {
                assert(placed.contains(links[l].src));
                let j = choose|j: int| 0 <= j < placed.len() && placed[j] == links[l].src;
                assert(next[j] == links[l].src);
            } else {
                assert(next[i] == placed[i]);
                let j = choose|j: int| 0 <= j < i && placed[j] == links[l].src;
                assert(next[j] == links[l].src);
            }
        }
        lemma_kahn_producers_first(vs, links, next, (fuel - 1) as nat);
    }
}

/// A live node is among the live ids.
proof fn lemma_live_listed(g: &Graph, id: NodeId)
    requires
        g.live(id),
    ensures
        g.live_ids().contains(id),
{
    let all = Seq::new(g.spec_slots().len(), |i: int| NodeId::mk(i as u32, g.spec_slots()[i].0));
    let i = id.spec_index() as int;
    lemma_node_id_eq(all[i], id);
    crate::id::lemma_mk(i as u32, g.spec_slots()[i].0);
    assert(all[i] == id);
    all.filter_lemma(|x: NodeId| g.live(x));
}

/// In a rebuilt plan, a node in the acyclic part (the nodes the sort could
/// place) comes after every node that feeds it through an edge: the producer
/// is evaluated first.
pub proof fn lemma_plan_orders_producers_first(g: &Graph, r: EvalOrder, e: Edge, i: int)
    requires
        g.wf(),
        is_plan(g, r),
        g.spec_edges().contains(e),
        0 <= i < acyclic_order(g.live_ids(), graph_links(g)).len(),
        r.order@[i] == e.dst.node,
    ensures
        exists|j: int| 0 <= j < i && r.order@[j] == e.src.node,
{
    let vs = g.live_ids();
    let ls = graph_links(g);
    let acyclic = acyclic_order(vs, ls);
    lemma_kahn_producers_first(vs, ls, Seq::empty(), vs.len());
    let l = choose|l: int| 0 <= l < g.spec_edges().len() && g.spec_edges()[l] == e;
    assert(g.live(g.spec_edges()[l].src.node));
    lemma_live_listed(g, e.src.node);
    assert(ls[l] == Link { src: e.src.node, dst: e.dst.node });
    assert(acyclic[i] == r.order@[i]);
    assert(acyclic[i] == ls[l].dst);
    let j = choose|j: int| 0 <= j < i && acyclic[j] == ls[l].src;
    assert(r.order@[j] == acyclic[j]);
}

/// Rebuilding the same graph twice gives the same node order and the same
/// cycles.
pub proof fn lemma_plan_order_is_determined(g: &Graph, a: EvalOrder, b: EvalOrder)
    requires
        is_plan(g, a),
        is_plan(g, b),
    ensures
        a.order@ == b.order@,
        a.cycles@ == b.cycles@,
{
    let leq = |x: NodeId, y: NodeId| x.key() <= y.key();
    assert(vstd::relations::total_ordering(leq)) by {
        assert forall|x: NodeId, y: NodeId| #[trigger] leq(x, y) && #[trigger] leq(y, x) implies x == y by {
            lemma_node_id_eq(x, y);
        }
    }
    let vs = g.live_ids();
    let ls = graph_links(g);
    vstd::seq_lib::lemma_sorted_unique(appended(vs, ls, a.order@), appended(vs, ls, b.order@), leq);
    assert(a.order@ =~= b.order@);
}

impl EvalOrder {
    /// The plan of an empty graph.
    pub fn empty() -> (r: EvalOrder)
        ensures
            r.steps@.len() == 0,
            r.order@.len() == 0,
            r.cycles@.len() == 0,
    {
        EvalOrder { steps: Vec::new(), order: Vec::new(), cycles: Vec::new() }
    }
}


/// A vertex reached from `v` that sits in a producers-first sequence comes
/// after an occurrence of `v`.
proof fn lemma_reached_comes_after(vs: Seq<NodeId>, ls: Seq<Link>, order: Seq<NodeId>, v: NodeId, steps: nat, w: NodeId, p: int)
    requires
        producers_first(vs, ls, order),
        reach(vs, ls, v, steps).contains(w),
        0 <= p < order.len(),
        order[p] == w,
    ensures
        exists|q: int| 0 <= q < p && order[q] == v,
    decreases steps,
{
    if steps > 0 {
        let from = reach(vs, ls, v, (steps - 1) as nat).insert(v);
        let j = choose|j: int|
            0 <= j < ls.len() && j < ls.len() && #[trigger] ls[j].dst == w && from.contains(ls[j].src) && vs.contains(
                ls[j].src,
            ) && vs.contains(w);
        assert(order[p] == ls[j].dst);
        let q = choose|q: int| 0 <= q < p && order[q] == ls[j].src;
        if ls[j].src != v {
            lemma_reached_comes_after(vs, ls, order, v, (steps - 1) as nat, ls[j].src, q);
        }
    }
}

/// No position of a producers-first sequence holds a vertex on a cycle.
proof fn lemma_cycle_vertex_absent(vs: Seq<NodeId>, ls: Seq<Link>, order: Seq<NodeId>, v: NodeId, p: int)
    requires
        producers_first(vs, ls, order),
        on_cycle(vs, ls, v),
        0 <= p < order.len(),
    ensures
        forall|q: int| 0 <= q <= p ==> order[q] != v,
    decreases p,
{
    if p > 0 {
        lemma_cycle_vertex_absent(vs, ls, order, v, p - 1);
    }
    if order[p] == v {
        lemma_reached_comes_after(vs, ls, order, v, vs.len(), v, p);
    }
}

/// The sort's result places every vertex once, the sort proper first; its
/// cycles are exactly the vertices that lie on a cycle: a vertex on a cycle
/// is never placed by the sort proper, and a vertex it leaves over but which
/// lies on no cycle is appended without being reported.
pub proof fn lemma_cycles_are_the_cycle_vertices(vs: Seq<NodeId>, ls: Seq<Link>, r: Sorted)
    requires
        r.order@ == acyclic_order(vs, ls) + appended(vs, ls, r.order@),
        appended(vs, ls, r.order@).to_multiset() == unplaced(vs, ls).to_multiset(),
        r.cycles@ == cycle_members(vs, ls, appended(vs, ls, r.order@)),
    ensures
        forall|v: NodeId| vs.contains(v) ==> #[trigger] r.order@.contains(v),
        forall|v: NodeId| #[trigger] r.cycles@.contains(v) <==> vs.contains(v) && on_cycle(vs, ls, v),
{
    broadcast use vstd::seq_lib::group_to_multiset_ensures;

    let acyclic = acyclic_order(vs, ls);
    let tail = appended(vs, ls, r.order@);
    let pred = |x: NodeId| !acyclic.contains(x);
    let onc = |x: NodeId| on_cycle(vs, ls, x);
    lemma_kahn_producers_first(vs, ls, Seq::empty(), vs.len());
    assert forall|v: NodeId| vs.contains(v) implies #[trigger] r.order@.contains(v) by {
        if acyclic.contains(v) {
            let i = choose|i: int| 0 <= i < acyclic.len() && acyclic[i] == v;
            assert(r.order@[i] == v);
        } else {
            vs.filter_lemma(pred);
            let i = choose|i: int| 0 <= i < vs.len() && vs[i] == v;
            assert(pred(vs[i]));
            assert(vs.filter(pred).contains(v));
            assert(unplaced(vs, ls).to_multiset().count(v) > 0);
            assert(tail.contains(v));
            let k = choose|k: int| 0 <= k < tail.len() && tail[k] == v;
            assert(r.order@[acyclic.len() + k] == v);
        }
    }
    assert forall|v: NodeId| #[trigger] r.cycles@.contains(v) <==> vs.contains(v) && on_cycle(vs, ls, v) by {
        tail.filter_lemma(onc);
        assert(r.cycles@ == tail.filter(onc));
        if r.cycles@.contains(v) {
            let k = choose|k: int| 0 <= k < r.cycles@.len() && r.cycles@[k] == v;
            assert(tail.filter(onc)[k] == v);
            tail.lemma_filter_contains_rev(onc, v);
            assert(tail.contains(v));
            assert(tail.to_multiset().count(v) > 0);
            assert(unplaced(vs, ls).contains(v));
            vs.lemma_filter_contains_rev(pred, v);
        }
        if vs.contains(v) && on_cycle(vs, ls, v) {
            if acyclic.contains(v) {
                let p = choose|p: int| 0 <= p < acyclic.len() && acyclic[p] == v;
                lemma_cycle_vertex_absent(vs, ls, acyclic, v, p);
            }
            vs.filter_lemma(pred);
            let i = choose|i: int| 0 <= i < vs.len() && vs[i] == v;
            assert(pred(vs[i]));
            assert(vs.filter(pred).contains(v));
            assert(unplaced(vs, ls).to_multiset().count(v) > 0);
            assert(tail.contains(v));
            let k = choose|k: int| 0 <= k < tail.len() && tail[k] == v;
            tail.lemma_filter_contains(onc, k);
        }
    }
}

} // verus!
