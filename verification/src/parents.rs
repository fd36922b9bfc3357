//! Parenting acyclicity: walking each node's chain of parents.
//!
//! Each node has at most one parent. A node whose chain of parents comes back
//! to it, or runs longer than there are nodes, is in (or hangs below) a
//! parenting cycle.

use vstd::prelude::*;

verus! {

/// The `i`-th ancestor of `start` (`start` itself for `i == 0`), or `None`
/// when the chain ends sooner.
pub open spec fn ancestor(parents: Seq<Option<usize>>, start: int, i: nat) -> Option<int>
    decreases i,
{
    if i == 0 {
        Some(start)
    } else {
        match ancestor(parents, start, (i - 1) as nat) {
            None => None,
            Some(a) => if 0 <= a < parents.len() {
                match parents[a] {
                    None => None,
                    Some(p) => Some(p as int),
                }
            } else {
                None
            },
        }
    }
}

/// `start` and its first `m` ancestors.
pub open spec fn chain(parents: Seq<Option<usize>>, start: int, m: nat) -> Seq<int> {
    Seq::new(m + 1, |j: int| ancestor(parents, start, j as nat)->0)
}

/// Walking up from `start`, from the `i`-th ancestor on: the chain walked
/// when the walk comes back to `start`, or has taken `n + 1` steps without
/// ending; `None` when it ends first.
pub open spec fn walk_from(parents: Seq<Option<usize>>, start: int, n: nat, i: nat) -> Option<Seq<int>>
    decreases n + 2 - i,
{
    if i == 0 || i > n + 1 {
        None
    } else {
        match ancestor(parents, start, i) {
            None => None,
            Some(a) => if a == start {
                Some(chain(parents, start, (i - 1) as nat))
            } else if i == n + 1 {
                Some(chain(parents, start, i))
            } else {
                walk_from(parents, start, n, i + 1)
            },
        }
    }
}

/// The first node, by index, whose walk finds a cycle, with the chain walked.
pub open spec fn first_cycle(parents: Seq<Option<usize>>, n: nat, from: nat) -> Option<Seq<int>>
    decreases n - from,
{
    if from >= n {
        None
    } else {
        match walk_from(parents, from as int, n, 1) {
            Some(c) => Some(c),
            None => first_cycle(parents, n, from + 1),
        }
    }
}

/// Every parent names a node.
pub open spec fn parents_in_range(parents: Seq<Option<usize>>) -> bool {
    forall|i: int| 0 <= i < parents.len() ==> (#[trigger] parents[i] matches Some(p) ==> p < parents.len())
}

/// The walk from `start`: the chain of indices walked when it finds a cycle.
fn walk(parents: &[Option<usize>], start: usize) -> (r: Option<Vec<usize>>)
    requires
        start < parents@.len(),
        parents@.len() < usize::MAX,
        parents_in_range(parents@),
    ensures
        match r {
            None => walk_from(parents@, start as int, parents@.len(), 1) is None,
            Some(c) => walk_from(parents@, start as int, parents@.len(), 1) == Some(
                c@.map_values(|x: usize| x as int),
            ),
        },
        r matches Some(c) ==> forall|j: int| 0 <= j < c@.len() ==> (#[trigger] c@[j]) < parents@.len(),
{
    let n = parents.len();
    let ghost ps = parents@;
    let mut chain_v: Vec<usize> = Vec::new();
    chain_v.push(start);
    let mut cursor = parents[start];
    let mut seen: usize = 0;
    proof {
        assert(chain_v@.map_values(|x: usize| x as int) =~= chain(ps, start as int, 0));
        assert(ancestor(ps, start as int, 0) == Some(start as int));
        assert(parents_in_range(ps));
        assert(ps[start as int] matches Some(p) ==> p < n);
    }
    loop
        invariant
            ps == parents@,
            n == ps.len(),
            n < usize::MAX,
            start < n,
            parents_in_range(ps),
            seen <= n,
            chain_v@.map_values(|x: usize| x as int) == chain(ps, start as int, seen as nat),
            forall|j: int| 0 <= j < chain_v@.len() ==> (#[trigger] chain_v@[j]) < n,
            forall|j: int| 0 <= j <= seen ==> #[trigger] ancestor(ps, start as int, j as nat) is Some,
            forall|j: int| 1 <= j <= seen ==> #[trigger] ancestor(ps, start as int, j as nat) != Some(start as int),
            cursor == match ancestor(ps, start as int, (seen + 1) as nat) {
                None => None::<usize>,
                Some(a) => Some(a as usize),
            },
            ancestor(ps, start as int, (seen + 1) as nat) matches Some(a) ==> 0 <= a < n,
            walk_from(ps, start as int, n as nat, 1) == walk_from(ps, start as int, n as nat, (seen + 1) as nat),
        decreases n + 1 - seen,
    {
        let idx = match cursor {
            None => {
                return None;
            },
            Some(i) => i,
        };
        if idx == start {
            return Some(chain_v);
        }
        let ghost before = chain_v@;
        chain_v.push(idx);
        seen = seen + 1;
        proof {
            assert(ancestor(ps, start as int, seen as nat) == Some(idx as int));
            assert(chain(ps, start as int, seen as nat) =~= chain(ps, start as int, (seen - 1) as nat).push(idx as int));
            assert(chain_v@.map_values(|x: usize| x as int) =~= before.map_values(|x: usize| x as int).push(idx as int));
            assert(ps[idx as int] matches Some(p) ==> p < n);
        }
        if seen > n {
            // One step more than there are nodes: the walk never ends.
            return Some(chain_v);
        }
        cursor = parents[idx];
    }
}

/// The first node, by index, whose chain of parents is cyclic, with the chain
/// of indices walked from it.
pub fn find_parent_cycle(parents: &[Option<usize>]) -> (r: Option<Vec<usize>>)
    requires
        parents@.len() < usize::MAX,
        parents_in_range(parents@),
    ensures
        match r {
            None => first_cycle(parents@, parents@.len(), 0) is None,
            Some(c) => first_cycle(parents@, parents@.len(), 0) == Some(c@.map_values(|x: usize| x as int)),
        },
        r matches Some(c) ==> forall|j: int| 0 <= j < c@.len() ==> (#[trigger] c@[j]) < parents@.len(),
{
    let n = parents.len();
    let mut start: usize = 0;
    while start < n
        invariant
            n == parents@.len(),
            n < usize::MAX,
            parents_in_range(parents@),
            start <= n,
            first_cycle(parents@, n as nat, 0) == first_cycle(parents@, n as nat, start as nat),
        decreases n - start,
    {
        match walk(parents, start) {
            Some(c) => {
                return Some(c);
            },
            None => {},
        }
        start = start + 1;
    }
    None
}


/// Walking `a` steps and then `b` more is walking `a + b` steps.
proof fn lemma_ancestor_add(parents: Seq<Option<usize>>, start: int, a: nat, b: nat)
    requires
        ancestor(parents, start, a) is Some,
    ensures
        ancestor(parents, start, a + b) == ancestor(parents, ancestor(parents, start, a)->0, b),
    decreases b,
{
    if b > 0 {
        lemma_ancestor_add(parents, start, a, (b - 1) as nat);
        assert((a + b - 1) as nat == a + (b - 1) as nat);
    }
}

/// A chain that ends at some step has ended at every later step.
proof fn lemma_ancestor_ends(parents: Seq<Option<usize>>, start: int, j: nat, k: nat)
    requires
        j <= k,
        ancestor(parents, start, j) is None,
    ensures
        ancestor(parents, start, k) is None,
    decreases k - j,
{
    if j < k {
        lemma_ancestor_ends(parents, start, j, (k - 1) as nat);
    }
}

/// A node that is its own `k`-th ancestor has an ancestor at every step.
proof fn lemma_cycle_never_ends(parents: Seq<Option<usize>>, i: int, k: nat, j: nat)
    requires
        k >= 1,
        ancestor(parents, i, k) == Some(i),
    ensures
        ancestor(parents, i, j) is Some,
    decreases j,
{
    if j < k {
        if ancestor(parents, i, j) is None {
            lemma_ancestor_ends(parents, i, j, k);
        }
    } else {
        lemma_cycle_never_ends(parents, i, k, (j - k) as nat);
        lemma_ancestor_add(parents, i, k, (j - k) as nat);
        assert(k + (j - k) as nat == j);
    }
}

/// A walk whose every step has an ancestor finds a cycle.
proof fn lemma_walk_finds(parents: Seq<Option<usize>>, start: int, n: nat, i: nat)
    requires
        1 <= i <= n + 1,
        forall|j: nat| #[trigger] ancestor(parents, start, j) is Some,
    ensures
        walk_from(parents, start, n, i) is Some,
    decreases n + 2 - i,
{
    assert(ancestor(parents, start, i) is Some);
    if i < n + 1 {
        lemma_walk_finds(parents, start, n, i + 1);
    }
}

/// The search from `from` finds a cycle when some node at or after `from`
/// has a walk that does.
proof fn lemma_first_cycle_finds(parents: Seq<Option<usize>>, n: nat, from: nat, i: nat)
    requires
        from <= i < n,
        walk_from(parents, i as int, n, 1) is Some,
    ensures
        first_cycle(parents, n, from) is Some,
    decreases i - from,
{
    if from < i && walk_from(parents, from as int, n, 1) is None {
        lemma_first_cycle_finds(parents, n, from + 1, i);
    }
}

/// The parent-cycle search reports a cycle whenever one exists: if any
/// node, at any index, is its own ancestor through one or more parent links,
/// the search over all nodes is not `None`. So a `None` from
/// [`find_parent_cycle`] means no node's chain of parents comes back to it.
pub proof fn lemma_parent_cycle_found(parents: Seq<Option<usize>>, i: int, k: nat)
    requires
        0 <= i < parents.len(),
        k >= 1,
        ancestor(parents, i, k) == Some(i),
    ensures
        first_cycle(parents, parents.len(), 0) is Some,
{
    assert forall|j: nat| #[trigger] ancestor(parents, i, j) is Some by {
        lemma_cycle_never_ends(parents, i, k, j);
    }
    lemma_walk_finds(parents, i, parents.len(), 1);
    lemma_first_cycle_finds(parents, parents.len(), 0, i as nat);
}

/// A chain reported by the search is a real chain of parents: it starts at
/// some node and each entry is the parent of the one before.
pub proof fn lemma_parent_cycle_is_a_chain(parents: Seq<Option<usize>>, n: nat, from: nat)
    requires
        first_cycle(parents, n, from) is Some,
    ensures
        ({
            let c = first_cycle(parents, n, from)->0;
            &&& c.len() >= 1
            &&& forall|j: int| 0 < j < c.len() ==> parents[c[j - 1]] == Some(#[trigger] c[j] as usize) && 0 <= c[j - 1] < parents.len()
        }),
    decreases n - from,
{
    if walk_from(parents, from as int, n, 1) is None {
        lemma_parent_cycle_is_a_chain(parents, n, from + 1);
    } else {
        lemma_walk_is_a_chain(parents, from as int, n, 1);
    }
}

/// A chain a walk reports follows parent links.
proof fn lemma_walk_is_a_chain(parents: Seq<Option<usize>>, start: int, n: nat, i: nat)
    requires
        walk_from(parents, start, n, i) is Some,
    ensures
        ({
            let c = walk_from(parents, start, n, i)->0;
            &&& c.len() >= 1
            &&& forall|j: int| 0 < j < c.len() ==> parents[c[j - 1]] == Some(#[trigger] c[j] as usize) && 0 <= c[j - 1] < parents.len()
        }),
    decreases n + 2 - i,
{
    match ancestor(parents, start, i) {
        None => {},
        Some(a) => if a == start || i == n + 1 {
            let m = if a == start { (i - 1) as nat } else { i };
            let c = chain(parents, start, m);
            assert forall|j: int| 0 < j < c.len() implies parents[c[j - 1]] == Some(#[trigger] c[j] as usize) && 0 <= c[j - 1] < parents.len() by {
                lemma_ancestor_prefix(parents, start, j as nat, i);
                let prev = ancestor(parents, start, (j - 1) as nat);
                assert(ancestor(parents, start, j as nat) is Some);
            }
        } else {
            lemma_walk_is_a_chain(parents, start, n, i + 1);
        },
    }
}

/// A chain with an `i`-th ancestor has every earlier one.
proof fn lemma_ancestor_prefix(parents: Seq<Option<usize>>, start: int, j: nat, i: nat)
    requires
        j <= i,
        ancestor(parents, start, i) is Some,
    ensures
        ancestor(parents, start, j) is Some,
{
    if ancestor(parents, start, j) is None {
        lemma_ancestor_ends(parents, start, j, i);
    }
}

} // verus!
