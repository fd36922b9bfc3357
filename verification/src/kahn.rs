//! Kahn's algorithm over node indices, first in first out.
//!
//! Nodes are `0..n`; an arc `(u, w)` says `u` must come before `w`. The
//! queue is seeded with every node that has no incoming arc, in index order,
//! and each node popped frees, in index order, the nodes whose last pending
//! arc it was. Ties the arcs leave open are therefore broken the same way on
//! every run.

use vstd::prelude::*;

verus! {

/// How many arcs of `arcs` run from `v` to `w`.
pub open spec fn multiplicity(arcs: Seq<(usize, usize)>, v: int, w: int) -> nat
    decreases arcs.len(),
{
    if arcs.len() == 0 {
        0
    } else {
        multiplicity(arcs.drop_last(), v, w) + if arcs.last().0 == v && arcs.last().1 == w {
            1nat
        } else {
            0nat
        }
    }
}

/// How many arcs of `arcs` into `w` start at a node outside `done`.
pub open spec fn pending(arcs: Seq<(usize, usize)>, done: Set<int>, w: int) -> nat
    decreases arcs.len(),
{
    if arcs.len() == 0 {
        0
    } else {
        pending(arcs.drop_last(), done, w) + if arcs.last().1 == w && !done.contains(arcs.last().0 as int) {
            1nat
        } else {
            0nat
        }
    }
}

/// The sort between two pops: the queue still to pop, the order so far, and
/// every node's count of arcs still pending.
pub struct KahnState {
    /// Nodes freed and not yet placed, in the order they were freed.
    pub queue: Seq<int>,
    /// Nodes placed, in order.
    pub order: Seq<int>,
    /// Per node, the arcs into it from nodes not yet placed.
    pub indeg: Seq<int>,
}

/// The nodes `0..n` that satisfy `p`, ascending.
pub open spec fn nodes_where(n: int, p: spec_fn(int) -> bool) -> Seq<int> {
    Seq::new(n as nat, |w: int| w).filter(p)
}

/// The state the sort starts from: every node with no incoming arc queued,
/// ascending.
pub open spec fn kahn_start(n: int, arcs: Seq<(usize, usize)>) -> KahnState {
    let indeg = Seq::new(n as nat, |w: int| pending(arcs, Set::empty(), w) as int);
    KahnState { queue: nodes_where(n, |w: int| indeg[w] == 0), order: Seq::empty(), indeg }
}

/// One pop: the head of the queue is placed, its arcs are no longer pending,
/// and the nodes whose last pending arc that was are queued, ascending.
pub open spec fn kahn_step(n: int, arcs: Seq<(usize, usize)>, s: KahnState) -> KahnState {
    let v = s.queue[0];
    let indeg = Seq::new(n as nat, |w: int| s.indeg[w] - multiplicity(arcs, v, w));
    let freed = nodes_where(n, |w: int| multiplicity(arcs, v, w) > 0 && indeg[w] == 0);
    KahnState { queue: s.queue.drop_first() + freed, order: s.order.push(v), indeg }
}

/// The sort run from `s` until its queue is empty, for at most `fuel` pops.
pub open spec fn kahn_run(n: int, arcs: Seq<(usize, usize)>, s: KahnState, fuel: nat) -> KahnState
    decreases fuel,
{
    if fuel == 0 || s.queue.len() == 0 {
        s
    } else {
        kahn_run(n, arcs, kahn_step(n, arcs, s), (fuel - 1) as nat)
    }
}

/// Where the sort of `0..n` under `arcs` stops.
pub open spec fn kahn_final(n: int, arcs: Seq<(usize, usize)>) -> KahnState {
    kahn_run(n, arcs, kahn_start(n, arcs), n as nat)
}

/// Placing `v` takes exactly its own arcs out of every count.
proof fn lemma_pending_place(arcs: Seq<(usize, usize)>, done: Set<int>, v: int, w: int)
    requires
        !done.contains(v),
    ensures
        pending(arcs, done, w) == pending(arcs, done.insert(v), w) + multiplicity(arcs, v, w),
    decreases arcs.len(),
{
    if arcs.len() > 0 {
        lemma_pending_place(arcs.drop_last(), done, v, w);
    }
}

/// Counting over a longer prefix counts at least as many arcs.
proof fn lemma_multiplicity_prefix(arcs: Seq<(usize, usize)>, v: int, w: int, k: int)
    requires
        0 <= k <= arcs.len(),
    ensures
        multiplicity(arcs.subrange(0, k), v, w) <= multiplicity(arcs, v, w),
    decreases arcs.len(),
{
    if k < arcs.len() {
        assert(arcs.drop_last().subrange(0, k) =~= arcs.subrange(0, k));
        lemma_multiplicity_prefix(arcs.drop_last(), v, w, k);
    } else {
        assert(arcs.subrange(0, k) =~= arcs);
    }
}

/// The invariant of the sort: the queue and the order hold distinct nodes,
/// exactly those with no pending arc, and each count is the arcs pending
/// from unplaced nodes.
pub open spec fn kahn_inv(n: int, arcs: Seq<(usize, usize)>, s: KahnState) -> bool {
    let placed = s.queue + s.order;
    &&& s.indeg.len() == n
    &&& placed.no_duplicates()
    &&& forall|i: int| 0 <= i < placed.len() ==> 0 <= #[trigger] placed[i] < n
    &&& forall|w: int| 0 <= w < n ==> #[trigger] s.indeg[w] == pending(arcs, s.order.to_set(), w)
    &&& forall|w: int| 0 <= w < n ==> (placed.contains(w) <==> #[trigger] s.indeg[w] == 0)
}

/// The nodes `0..n` that satisfy `p` are distinct nodes of `0..n`.
proof fn lemma_nodes_where(n: int, p: spec_fn(int) -> bool)
    requires
        n >= 0,
    ensures
        nodes_where(n, p).no_duplicates(),
        forall|w: int| #[trigger] nodes_where(n, p).contains(w) <==> 0 <= w < n && p(w),
        forall|i: int, j: int| 0 <= i < j < nodes_where(n, p).len() ==> nodes_where(n, p)[i] < nodes_where(n, p)[j],
{
    let all = Seq::new(n as nat, |w: int| w);
    lemma_filter_ascending(all, p);
    assert forall|w: int| #[trigger] nodes_where(n, p).contains(w) implies 0 <= w < n && p(w) by {
        all.lemma_filter_contains_rev(p, w);
        all.filter_lemma(p);
        let i = choose|i: int| 0 <= i < nodes_where(n, p).len() && nodes_where(n, p)[i] == w;
        assert(p(nodes_where(n, p)[i]));
    }
    assert forall|w: int| 0 <= w < n && p(w) implies #[trigger] nodes_where(n, p).contains(w) by {
        all.filter_lemma(p);
        assert(all[w] == w);
    }
}

/// Filtering a strictly ascending sequence keeps it strictly ascending.
proof fn lemma_filter_ascending(s: Seq<int>, p: spec_fn(int) -> bool)
    requires
        forall|i: int, j: int| 0 <= i < j < s.len() ==> s[i] < s[j],
    ensures
        forall|i: int, j: int| 0 <= i < j < s.filter(p).len() ==> s.filter(p)[i] < s.filter(p)[j],
        s.filter(p).no_duplicates(),
        forall|i: int| 0 <= i < s.filter(p).len() ==> s.contains(#[trigger] s.filter(p)[i]),
    decreases s.len(),
{
    reveal(Seq::filter);
    if s.len() > 0 {
        let rest = s.drop_last();
        lemma_filter_ascending(rest, p);
        assert forall|i: int| 0 <= i < rest.filter(p).len() implies #[trigger] rest.filter(p)[i] < s.last() by {
            assert(rest.contains(rest.filter(p)[i]));
            let k = choose|k: int| 0 <= k < rest.len() && rest[k] == rest.filter(p)[i];
            assert(s[k] == rest[k]);
        }
        assert forall|i: int| 0 <= i < s.filter(p).len() implies s.contains(#[trigger] s.filter(p)[i]) by {
            if p(s.last()) && i == s.filter(p).len() - 1 {
                assert(s[s.len() - 1] == s.last());
            } else {
                assert(rest.contains(rest.filter(p)[i]));
                let k = choose|k: int| 0 <= k < rest.len() && rest[k] == rest.filter(p)[i];
                assert(s[k] == rest[k]);
            }
        }
    }
}

/// The start state satisfies the invariant.
proof fn lemma_start(n: int, arcs: Seq<(usize, usize)>)
    requires
        n >= 0,
    ensures
        kahn_inv(n, arcs, kahn_start(n, arcs)),
{
    let s = kahn_start(n, arcs);
    let p = |w: int| s.indeg[w] == 0;
    lemma_nodes_where(n, p);
    assert(s.order.to_set() =~= Set::<int>::empty());
    assert(s.queue + s.order =~= s.queue);
    assert forall|w: int| 0 <= w < n implies #[trigger] s.indeg[w] == pending(arcs, s.order.to_set(), w) by {}
    assert forall|w: int| 0 <= w < n implies ((s.queue + s.order).contains(w) <==> #[trigger] s.indeg[w] == 0) by {
        assert(p(w) == (s.indeg[w] == 0));
    }
    assert forall|i: int| 0 <= i < (s.queue + s.order).len() implies 0 <= #[trigger] (s.queue + s.order)[i] < n by {
        assert(s.queue.contains(s.queue[i]));
    }
}

/// One pop keeps the invariant and places one more node.
proof fn lemma_step(n: int, arcs: Seq<(usize, usize)>, s: KahnState)
    requires
        n >= 0,
        kahn_inv(n, arcs, s),
        s.queue.len() > 0,
    ensures
        kahn_inv(n, arcs, kahn_step(n, arcs, s)),
        kahn_step(n, arcs, s).order.len() == s.order.len() + 1,
        forall|w: int| 0 <= w < n ==> kahn_step(n, arcs, s).indeg[w] >= 0,
{
    let v = s.queue[0];
    let t = kahn_step(n, arcs, s);
    let placed = s.queue + s.order;
    assert(placed[0] == v);
    assert(!s.order.contains(v)) by {
        if s.order.contains(v) {
            let k = choose|k: int| 0 <= k < s.order.len() && s.order[k] == v;
            assert(placed[s.queue.len() + k] == v);
        }
    }
    let done = s.order.to_set();
    assert(!done.contains(v));
    assert forall|x: int| #[trigger] t.order.to_set().contains(x) <==> done.insert(v).contains(x) by {
        if t.order.contains(x) {
            let i = choose|i: int| 0 <= i < t.order.len() && t.order[i] == x;
            if i < s.order.len() {
                assert(s.order[i] == x);
            }
        }
        if s.order.contains(x) {
            let i = choose|i: int| 0 <= i < s.order.len() && s.order[i] == x;
            assert(t.order[i] == x);
        }
        if x == v {
            assert(t.order[s.order.len() as int] == x);
        }
    }
    assert(t.order.to_set() =~= done.insert(v));
    assert forall|w: int| 0 <= w < n implies #[trigger] t.indeg[w] == pending(arcs, t.order.to_set(), w) && t.indeg[w] >= 0 by {
        lemma_pending_place(arcs, done, v, w);
    }
    let freed_p = |w: int| multiplicity(arcs, v, w) > 0 && t.indeg[w] == 0;
    let freed = nodes_where(n, freed_p);
    lemma_nodes_where(n, freed_p);
    let tplaced = t.queue + t.order;
    // Every freed node was unplaced: its count was positive.
    assert forall|w: int| #[trigger] freed.contains(w) implies !placed.contains(w) by {
        lemma_pending_place(arcs, done, v, w);
    }
    assert(tplaced =~= s.queue.drop_first() + freed + s.order.push(v));
    assert forall|x: int| #[trigger] tplaced.contains(x) <==> (placed.contains(x) || freed.contains(x)) by {
        if tplaced.contains(x) {
            let i = choose|i: int| 0 <= i < tplaced.len() && tplaced[i] == x;
            if i < s.queue.len() - 1 {
                assert(placed[i + 1] == x);
            } else if i < s.queue.len() - 1 + freed.len() {
                assert(freed[i - (s.queue.len() - 1)] == x);
            } else if i < tplaced.len() - 1 {
                assert(placed[i - freed.len() + 1] == x);
            } else {
                assert(placed[0] == x);
            }
        }
        if placed.contains(x) {
            let i = choose|i: int| 0 <= i < placed.len() && placed[i] == x;
            if i == 0 {
                assert(tplaced[tplaced.len() - 1] == x);
            } else if i < s.queue.len() {
                assert(tplaced[i - 1] == x);
            } else {
                assert(tplaced[i - 1 + freed.len()] == x);
            }
        }
        if freed.contains(x) {
            let i = choose|i: int| 0 <= i < freed.len() && freed[i] == x;
            assert(tplaced[s.queue.len() - 1 + i] == x);
        }
    }
    assert(tplaced.no_duplicates()) by {
        assert forall|i: int, j: int| 0 <= i < j < tplaced.len() implies tplaced[i] != tplaced[j] by {
            let q = s.queue.len() - 1;
            let f = freed.len();
            let o = s.order.len();
            // Positions in `placed` of the two entries, when they came from it.
            let pi = if i < q { i + 1 } else if i < q + f { -1 } else if i < q + f + o { i - f + 1 } else { 0 };
            let pj = if j < q { j + 1 } else if j < q + f { -1 } else if j < q + f + o { j - f + 1 } else { 0 };
            if pi >= 0 && pj >= 0 {
                assert(tplaced[i] == placed[pi]);
                assert(tplaced[j] == placed[pj]);
            } else if pi < 0 && pj < 0 {
                assert(tplaced[i] == freed[i - q]);
                assert(tplaced[j] == freed[j - q]);
            } else if pi < 0 {
                assert(tplaced[i] == freed[i - q]);
                assert(freed.contains(tplaced[i]));
                assert(tplaced[j] == placed[pj]);
            } else {
                assert(tplaced[j] == freed[j - q]);
                assert(freed.contains(tplaced[j]));
                assert(tplaced[i] == placed[pi]);
            }
        }
    }
    assert forall|i: int| 0 <= i < tplaced.len() implies 0 <= #[trigger] tplaced[i] < n by {
        assert(tplaced.contains(tplaced[i]));
        if placed.contains(tplaced[i]) {
            let k = choose|k: int| 0 <= k < placed.len() && placed[k] == tplaced[i];
        }
    }
    assert forall|w: int| 0 <= w < n implies (tplaced.contains(w) <==> #[trigger] t.indeg[w] == 0) by {
        lemma_pending_place(arcs, done, v, w);
        if multiplicity(arcs, v, w) == 0 {
            assert(t.indeg[w] == s.indeg[w]);
        }
    }
}

/// The sort ends with an empty queue, having placed at most every node.
proof fn lemma_run(n: int, arcs: Seq<(usize, usize)>, s: KahnState, fuel: nat)
    requires
        n >= 0,
        kahn_inv(n, arcs, s),
        s.order.len() + fuel >= n,
    ensures
        kahn_inv(n, arcs, kahn_run(n, arcs, s, fuel)),
        kahn_run(n, arcs, s, fuel).queue.len() == 0,
    decreases fuel,
{
    if fuel == 0 || s.queue.len() == 0 {
        if s.queue.len() > 0 {
            // Every node is placed, so nothing is left to queue.
            lemma_placed_bound(n, s);
        }
    } else {
        lemma_step(n, arcs, s);
        lemma_run(n, arcs, kahn_step(n, arcs, s), (fuel - 1) as nat);
    }
}

/// The queue and the order together hold at most `n` nodes.
proof fn lemma_placed_bound(n: int, s: KahnState)
    requires
        n >= 0,
        (s.queue + s.order).no_duplicates(),
        forall|i: int| 0 <= i < (s.queue + s.order).len() ==> 0 <= #[trigger] (s.queue + s.order)[i] < n,
    ensures
        s.queue.len() + s.order.len() <= n,
{
    let placed = s.queue + s.order;
    let all = Seq::new(n as nat, |w: int| w);
    placed.unique_seq_to_set();
    assert(placed.to_set().subset_of(all.to_set())) by {
        assert forall|x: int| placed.to_set().contains(x) implies all.to_set().contains(x) by {
            let i = choose|i: int| 0 <= i < placed.len() && placed[i] == x;
            assert(all[x] == x);
        }
    }
    vstd::seq_lib::seq_to_set_is_finite(all);
    vstd::set_lib::lemma_len_subset(placed.to_set(), all.to_set());
    all.lemma_cardinality_of_set();
}

/// Every node of `order` comes after the source of each arc into it.
pub open spec fn respects(arcs: Seq<(usize, usize)>, order: Seq<int>) -> bool {
    forall|k: int, i: int|
        0 <= k < arcs.len() && 0 <= i < order.len() && #[trigger] order[i] == #[trigger] arcs[k].1 ==> exists|j: int|
            0 <= j < i && order[j] == arcs[k].0
}

/// No arc pending into `w` means every arc into `w` starts at a node of
/// `done`.
proof fn lemma_nothing_pending(arcs: Seq<(usize, usize)>, done: Set<int>, w: int, k: int)
    requires
        pending(arcs, done, w) == 0,
        0 <= k < arcs.len(),
        arcs[k].1 == w,
    ensures
        done.contains(arcs[k].0 as int),
    decreases arcs.len(),
{
    if k < arcs.len() - 1 {
        assert(arcs.drop_last()[k] == arcs[k]);
        lemma_nothing_pending(arcs.drop_last(), done, w, k);
    }
}

/// An arc pending into `w` starts at a node outside `done`.
proof fn lemma_some_pending(arcs: Seq<(usize, usize)>, done: Set<int>, w: int) -> (k: int)
    requires
        pending(arcs, done, w) > 0,
    ensures
        0 <= k < arcs.len(),
        arcs[k].1 == w,
        !done.contains(arcs[k].0 as int),
    decreases arcs.len(),
{
    if pending(arcs.drop_last(), done, w) > 0 {
        let k = lemma_some_pending(arcs.drop_last(), done, w);
        assert(arcs[k] == arcs.drop_last()[k]);
        k
    } else {
        (arcs.len() - 1) as int
    }
}

/// The sort places a node only after the sources of all its arcs.
proof fn lemma_run_respects(n: int, arcs: Seq<(usize, usize)>, s: KahnState, fuel: nat)
    requires
        n >= 0,
        kahn_inv(n, arcs, s),
        respects(arcs, s.order),
    ensures
        respects(arcs, kahn_run(n, arcs, s, fuel).order),
    decreases fuel,
{
    if fuel > 0 && s.queue.len() > 0 {
        let v = s.queue[0];
        let t = kahn_step(n, arcs, s);
        lemma_step(n, arcs, s);
        assert((s.queue + s.order)[0] == v);
        assert(0 <= v < n);
        assert(s.indeg[v] == 0);
        assert forall|k: int, i: int|
            0 <= k < arcs.len() && 0 <= i < t.order.len() && #[trigger] t.order[i] == #[trigger] arcs[k].1
                implies exists|j: int| 0 <= j < i && t.order[j] == arcs[k].0 by {
            if i == s.order.len() {
                lemma_nothing_pending(arcs, s.order.to_set(), v, k);
                let j = choose|j: int| 0 <= j < s.order.len() && s.order[j] == arcs[k].0;
                assert(t.order[j] == arcs[k].0);
            } else {
                assert(t.order[i] == s.order[i]);
                let j = choose|j: int| 0 <= j < i && s.order[j] == arcs[k].0;
                assert(t.order[j] == arcs[k].0);
            }
        }
        lemma_run_respects(n, arcs, t, (fuel - 1) as nat);
    }
}

/// A completed sort places every node once, each after the sources of all
/// its arcs: a producer comes before its consumer.
pub proof fn lemma_fifo_order_respects_arcs(n: int, arcs: Seq<(usize, usize)>, order: Seq<int>)
    requires
        n >= 0,
        kahn_outcome(n, arcs) == Ok::<Seq<int>, Seq<int>>(order),
    ensures
        order.len() == n,
        order.no_duplicates(),
        forall|i: int| 0 <= i < order.len() ==> 0 <= #[trigger] order[i] < n,
        forall|w: int| 0 <= w < n ==> #[trigger] order.contains(w),
        respects(arcs, order),
{
    lemma_start(n, arcs);
    lemma_run(n, arcs, kahn_start(n, arcs), n as nat);
    lemma_run_respects(n, arcs, kahn_start(n, arcs), n as nat);
    let fin = kahn_final(n, arcs);
    assert(fin.queue + fin.order =~= fin.order);
    assert forall|w: int| 0 <= w < n implies #[trigger] order.contains(w) by {
        if !order.contains(w) {
            // One more distinct node than there are nodes.
            let more = KahnState { queue: seq![w], order, indeg: fin.indeg };
            let placed = more.queue + more.order;
            assert(placed.no_duplicates()) by {
                assert forall|a: int, b: int| 0 <= a < b < placed.len() implies placed[a] != placed[b] by {
                    if a == 0 {
                        assert(order[b - 1] == placed[b]);
                    } else {
                        assert(placed[a] == order[a - 1]);
                        assert(placed[b] == order[b - 1]);
                    }
                }
            }
            assert forall|i: int| 0 <= i < placed.len() implies 0 <= #[trigger] placed[i] < n by {
                if i > 0 {
                    assert(placed[i] == order[i - 1]);
                }
            }
            lemma_placed_bound(n, more);
        }
    }
}

/// When the sort cannot place every node, each node it reports waits on an
/// arc from another reported node: every one of them is in a cycle or
/// downstream of one.
pub proof fn lemma_fifo_cycle_report(n: int, arcs: Seq<(usize, usize)>, rest: Seq<int>, w: int)
    requires
        n >= 0,
        forall|i: int| 0 <= i < arcs.len() ==> (#[trigger] arcs[i]).0 < n && arcs[i].1 < n,
        kahn_outcome(n, arcs) == Err::<Seq<int>, Seq<int>>(rest),
        rest.contains(w),
    ensures
        rest.len() > 0,
        exists|k: int| 0 <= k < arcs.len() && arcs[k].1 == w && rest.contains(arcs[k].0 as int),
{
    lemma_start(n, arcs);
    lemma_run(n, arcs, kahn_start(n, arcs), n as nat);
    let fin = kahn_final(n, arcs);
    let not_placed = |x: int| !fin.order.contains(x);
    lemma_nodes_where(n, not_placed);
    assert(fin.queue + fin.order =~= fin.order);
    assert(0 <= w < n && !fin.order.contains(w));
    assert(fin.indeg[w] != 0);
    let k = lemma_some_pending(arcs, fin.order.to_set(), w);
    let u = arcs[k].0 as int;
    assert(0 <= u < n);
    assert(!fin.order.contains(u));
    assert(rest.contains(u));
}

/// The outcome of the sort: the full order, or, when arcs form a cycle, the
/// nodes it could not place, ascending.
pub open spec fn kahn_outcome(n: int, arcs: Seq<(usize, usize)>) -> Result<Seq<int>, Seq<int>> {
    let fin = kahn_final(n, arcs);
    if fin.order.len() == n {
        Ok(fin.order)
    } else {
        Err(nodes_where(n, |w: int| !fin.order.contains(w)))
    }
}

/// Sorts the nodes `0..n` under `arcs`, first in first out.
pub fn fifo_order(n: usize, arcs: &[(usize, usize)]) -> (r: Result<Vec<usize>, Vec<usize>>)
    requires
        forall|i: int| 0 <= i < arcs@.len() ==> (#[trigger] arcs@[i]).0 < n && arcs@[i].1 < n,
    ensures
        match r {
            Ok(order) => kahn_outcome(n as int, arcs@) == Ok::<Seq<int>, Seq<int>>(
                order@.map_values(|x: usize| x as int),
            ),
            Err(rest) => kahn_outcome(n as int, arcs@) == Err::<Seq<int>, Seq<int>>(
                rest@.map_values(|x: usize| x as int),
            ),
        },
        r matches Err(rest) ==> forall|j: int| 0 <= j < rest@.len() ==> (#[trigger] rest@[j]) < n,
{
    let ghost a = arcs@;
    // Every node's count of incoming arcs.
    let mut indeg: Vec<usize> = Vec::new();
    let mut w: usize = 0;
    while w < n
        invariant
            w <= n,
            indeg@.len() == w,
            forall|x: int| 0 <= x < w ==> indeg@[x] == 0,
        decreases n - w,
    {
        indeg.push(0);
        w = w + 1;
    }
    let mut k: usize = 0;
    while k < arcs.len()
        invariant
            a == arcs@,
            forall|i: int| 0 <= i < a.len() ==> (#[trigger] a[i]).0 < n && a[i].1 < n,
            k <= a.len(),
            indeg@.len() == n,
            forall|x: int| 0 <= x < n ==> #[trigger] indeg@[x] == pending(a.subrange(0, k as int), Set::empty(), x),
            forall|x: int| 0 <= x < n ==> #[trigger] indeg@[x] <= k,
        decreases a.len() - k,
    {
        let target = arcs[k].1;
        proof {
            assert(a.subrange(0, k + 1).drop_last() =~= a.subrange(0, k as int));
        }
        let old_count = indeg[target];
        indeg.set(target, old_count + 1);
        k = k + 1;
    }
    proof {
        assert(a.subrange(0, a.len() as int) =~= a);
    }
    let ghost start = kahn_start(n as int, a);
    // The initial queue: every node with no incoming arc, ascending.
    let mut queue: Vec<usize> = Vec::new();
    let mut w: usize = 0;
    while w < n
        invariant
            w <= n,
            indeg@.len() == n,
            start == kahn_start(n as int, a),
            forall|x: int| 0 <= x < n ==> #[trigger] indeg@[x] == start.indeg[x],
            queue@.map_values(|x: usize| x as int) == Seq::new(w as nat, |x: int| x).filter(|x: int| start.indeg[x] == 0),
        decreases n - w,
    {
        proof {
            let p = |x: int| start.indeg[x] == 0;
            assert(Seq::new((w + 1) as nat, |x: int| x) =~= Seq::new(w as nat, |x: int| x).push(w as int));
            Seq::new(w as nat, |x: int| x).lemma_filter_push(w as int, p);
        }
        if indeg[w] == 0 {
            queue.push(w);
            proof {
                assert(queue@.map_values(|x: usize| x as int) =~= Seq::new(w as nat, |x: int| x).filter(
                    |x: int| start.indeg[x] == 0,
                ).push(w as int));
            }
        }
        w = w + 1;
    }
    proof {
        lemma_start(n as int, a);
    }
    let mut head: usize = 0;
    let mut order: Vec<usize> = Vec::new();
    let ghost mut s = start;
    while head < queue.len()
        invariant
            a == arcs@,
            forall|i: int| 0 <= i < a.len() ==> (#[trigger] a[i]).0 < n && a[i].1 < n,
            indeg@.len() == n,
            head <= queue@.len(),
            kahn_inv(n as int, a, s),
            s.queue == queue@.subrange(head as int, queue@.len() as int).map_values(|x: usize| x as int),
            s.order == order@.map_values(|x: usize| x as int),
            forall|x: int| 0 <= x < n ==> #[trigger] indeg@[x] == s.indeg[x],
            kahn_final(n as int, a) == kahn_run(n as int, a, s, (n - s.order.len()) as nat),
            s.order.len() <= n,
            queue@.len() == head + s.queue.len(),
        decreases n - s.order.len(),
    {
        let v = queue[head];
        head = head + 1;
        proof {
            lemma_step(n as int, a, s);
            lemma_placed_bound(n as int, s);
            assert(s.queue[0] == v as int);
        }
        let ghost t = kahn_step(n as int, a, s);
        order.push(v);
        // Take `v`'s arcs out of the counts, noting whose count they touched.
        let mut touched: Vec<bool> = Vec::new();
        let mut x: usize = 0;
        while x < n
            invariant
                x <= n,
                touched@.len() == x,
                forall|y: int| 0 <= y < x ==> !touched@[y],
            decreases n - x,
        {
            touched.push(false);
            x = x + 1;
        }
        let mut k: usize = 0;
        while k < arcs.len()
            invariant
                a == arcs@,
                forall|i: int| 0 <= i < a.len() ==> (#[trigger] a[i]).0 < n && a[i].1 < n,
                k <= a.len(),
                indeg@.len() == n,
                touched@.len() == n,
                t == kahn_step(n as int, a, s),
                kahn_inv(n as int, a, s),
                s.queue.len() > 0,
                s.queue[0] == v as int,
                forall|y: int| 0 <= y < n ==> t.indeg[y] >= 0,
                forall|y: int| 0 <= y < n ==> #[trigger] indeg@[y] == s.indeg[y] - multiplicity(a.subrange(0, k as int), v as int, y),
                forall|y: int| 0 <= y < n ==> #[trigger] touched@[y] == (multiplicity(a.subrange(0, k as int), v as int, y) > 0),
            decreases a.len() - k,
        {
            let (from, to) = arcs[k];
            proof {
                assert(a.subrange(0, k + 1).drop_last() =~= a.subrange(0, k as int));
                assert(a.subrange(0, k + 1).last() == a[k as int]);
            }
            if from == v {
                proof {
                    lemma_multiplicity_prefix(a, v as int, to as int, k + 1);
                    assert(multiplicity(a.subrange(0, k + 1), v as int, to as int) == multiplicity(
                        a.subrange(0, k as int),
                        v as int,
                        to as int,
                    ) + 1);
                    assert(t.indeg[to as int] == s.indeg[to as int] - multiplicity(a, v as int, to as int));
                    assert(t.indeg[to as int] >= 0);
                }
                let c = indeg[to];
                indeg.set(to, c - 1);
                touched.set(to, true);
            }
            k = k + 1;
        }
        proof {
            assert(a.subrange(0, a.len() as int) =~= a);
        }
        // Queue the freed nodes, ascending.
        let ghost before = queue@;
        let ghost freed_p = |y: int| multiplicity(a, v as int, y) > 0 && t.indeg[y] == 0;
        let mut y: usize = 0;
        while y < n
            invariant
                y <= n,
                indeg@.len() == n,
                touched@.len() == n,
                t == kahn_step(n as int, a, s),
                freed_p == (|z: int| multiplicity(a, v as int, z) > 0 && t.indeg[z] == 0),
                forall|z: int| 0 <= z < n ==> #[trigger] indeg@[z] == t.indeg[z],
                forall|z: int| 0 <= z < n ==> #[trigger] touched@[z] == (multiplicity(a, v as int, z) > 0),
                queue@.subrange(0, before.len() as int) == before,
                queue@.len() >= before.len(),
                queue@.subrange(before.len() as int, queue@.len() as int).map_values(|z: usize| z as int) == Seq::new(
                    y as nat,
                    |z: int| z,
                ).filter(freed_p),
            decreases n - y,
        {
            proof {
                assert(Seq::new((y + 1) as nat, |z: int| z) =~= Seq::new(y as nat, |z: int| z).push(y as int));
                Seq::new(y as nat, |z: int| z).lemma_filter_push(y as int, freed_p);
            }
            if touched[y] && indeg[y] == 0 {
                let ghost q0 = queue@;
                queue.push(y);
                proof {
                    assert(queue@.subrange(0, before.len() as int) =~= q0.subrange(0, before.len() as int));
                    assert(queue@.subrange(before.len() as int, queue@.len() as int) =~= q0.subrange(
                        before.len() as int,
                        q0.len() as int,
                    ).push(y));
                    assert(queue@.subrange(before.len() as int, queue@.len() as int).map_values(|z: usize| z as int)
                        =~= Seq::new(y as nat, |z: int| z).filter(freed_p).push(y as int));
                }
            }
            y = y + 1;
        }
        proof {
            let fresh = queue@.subrange(before.len() as int, queue@.len() as int);
            assert(queue@.subrange(head as int, queue@.len() as int) =~= before.subrange(head as int, before.len() as int)
                + fresh);
            assert(s.queue.drop_first() =~= before.subrange(head as int, before.len() as int).map_values(
                |z: usize| z as int,
            ));
            assert(t.queue =~= queue@.subrange(head as int, queue@.len() as int).map_values(|z: usize| z as int));
            assert(t.order =~= order@.map_values(|z: usize| z as int));
            s = t;
        }
    }
    proof {
        assert(s.queue.len() == 0);
        assert(kahn_run(n as int, a, s, (n - s.order.len()) as nat) == s);
        lemma_placed_bound(n as int, s);
    }
    if order.len() == n {
        return Ok(order);
    }
    proof {
        assert forall|k: int| 0 <= k < order@.len() implies (order@[k] as int) < n by {
            assert(s.order[k] == order@[k] as int);
            assert((s.queue + s.order)[s.queue.len() + k] == s.order[k]);
        }
    }
    // The nodes left unplaced, ascending.
    let mut placed: Vec<bool> = Vec::new();
    let mut x: usize = 0;
    while x < n
        invariant
            x <= n,
            placed@.len() == x,
            forall|z: int| 0 <= z < x ==> !placed@[z],
        decreases n - x,
    {
        placed.push(false);
        x = x + 1;
    }
    let mut i: usize = 0;
    while i < order.len()
        invariant
            i <= order@.len(),
            placed@.len() == n,
            forall|k: int| 0 <= k < order@.len() ==> (order@[k] as int) < n,
            forall|z: int| 0 <= z < n ==> #[trigger] placed@[z] == order@.subrange(0, i as int).contains(z as usize),
        decreases order@.len() - i,
    {
        let p = order[i];
        placed.set(p, true);
        proof {
            assert forall|z: int| 0 <= z < n implies #[trigger] placed@[z] == order@.subrange(0, i + 1).contains(z as usize) by {
                assert(order@.subrange(0, i + 1) =~= order@.subrange(0, i as int).push(p));
                if z == p as int {
                    assert(order@.subrange(0, i + 1)[i as int] == p);
                }
            }
        }
        i = i + 1;
    }
    proof {
        assert(order@.subrange(0, order@.len() as int) =~= order@);
    }
    let ghost not_placed = |z: int| !s.order.contains(z);
    let mut rest: Vec<usize> = Vec::new();
    let mut z: usize = 0;
    while z < n
        invariant
            z <= n,
            placed@.len() == n,
            s.order == order@.map_values(|x: usize| x as int),
            not_placed == (|y: int| !s.order.contains(y)),
            forall|y: int| 0 <= y < n ==> #[trigger] placed@[y] == order@.contains(y as usize),
            rest@.map_values(|x: usize| x as int) == Seq::new(z as nat, |y: int| y).filter(not_placed),
            forall|j: int| 0 <= j < rest@.len() ==> (#[trigger] rest@[j]) < n,
        decreases n - z,
    {
        proof {
            assert(Seq::new((z + 1) as nat, |y: int| y) =~= Seq::new(z as nat, |y: int| y).push(z as int));
            Seq::new(z as nat, |y: int| y).lemma_filter_push(z as int, not_placed);
            if order@.contains(z) {
                let k = choose|k: int| 0 <= k < order@.len() && order@[k] == z;
                assert(s.order[k] == z as int);
            }
            if s.order.contains(z as int) {
                let k = choose|k: int| 0 <= k < s.order.len() && s.order[k] == z as int;
                assert(order@[k] == z);
            }
        }
        if !placed[z] {
            rest.push(z);
            proof {
                assert(rest@.map_values(|x: usize| x as int) =~= Seq::new(z as nat, |y: int| y).filter(not_placed).push(
                    z as int,
                ));
            }
        }
        z = z + 1;
    }
    proof {
        assert(order@.subrange(0, order@.len() as int) =~= order@);
    }
    Err(rest)
}

} // verus!
