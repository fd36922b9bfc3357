//! Sets of node ids kept as ascending vectors, so a drain comes out in a
//! deterministic order.

use vstd::prelude::*;
use crate::id::NodeId;

verus! {

/// `s` is strictly ascending in `(index, generation)` order.
pub open spec fn ascending(s: Seq<NodeId>) -> bool {
    forall|i: int, j: int| 0 <= i < j < s.len() ==> s[i].key() < s[j].key()
}

/// Adds `id` to the ascending vector `v`, keeping it ascending.
pub fn insert_sorted(v: &mut Vec<NodeId>, id: NodeId)
    requires
        ascending(old(v)@),
    ensures
        ascending(final(v)@),
        final(v)@.to_set() == old(v)@.to_set().insert(id),
{
    let mut pos: usize = 0;
    while pos < v.len() && v[pos].precedes(id)
        invariant
            v@ == old(v)@,
            pos <= v@.len(),
            forall|k: int| 0 <= k < pos ==> v@[k].key() < id.key(),
        decreases v@.len() - pos,
    {
        pos = pos + 1;
    }
    if pos < v.len() && v[pos].same(id) {
        assert(v@[pos as int] == id);
        assert(v@.contains(id));
        assert(v@.to_set() =~= v@.to_set().insert(id));
        return;
    }
    proof {
        if pos < v@.len() {
            assert(v@[pos as int].key() > id.key()) by {
                crate::id::lemma_node_id_eq(v@[pos as int], id);
            }
        }
    }
    let ghost before = v@;
    v.insert(pos, id);
    proof {
        assert forall|x: NodeId| #[trigger] v@.to_set().contains(x) == before.to_set().insert(id).contains(x) by {
            if v@.contains(x) {
                let k = choose|k: int| 0 <= k < v@.len() && v@[k] == x;
                if k < pos {
                    assert(before[k] == x);
                } else if k > pos {
                    assert(before[k - 1] == x);
                }
            }
            if before.contains(x) {
                let k = choose|k: int| 0 <= k < before.len() && before[k] == x;
                if k < pos {
                    assert(v@[k] == x);
                } else {
                    assert(v@[k + 1] == x);
                }
            }
            if x == id {
                assert(v@[pos as int] == x);
            }
        }
        assert(v@.to_set() =~= before.to_set().insert(id));
    }
}

/// Removes `id` from the ascending vector `v`, keeping it ascending.
pub fn remove_sorted(v: &mut Vec<NodeId>, id: NodeId)
    requires
        ascending(old(v)@),
    ensures
        ascending(final(v)@),
        final(v)@.to_set() == old(v)@.to_set().remove(id),
{
    let mut pos: usize = 0;
    while pos < v.len() && !v[pos].same(id)
        invariant
            v@ == old(v)@,
            pos <= v@.len(),
            forall|k: int| 0 <= k < pos ==> v@[k] != id,
        decreases v@.len() - pos,
    {
        pos = pos + 1;
    }
    if pos == v.len() {
        assert(v@.to_set() =~= v@.to_set().remove(id));
        return;
    }
    let ghost before = v@;
    v.remove(pos);
    proof {
        assert forall|x: NodeId| #[trigger] v@.to_set().contains(x) == before.to_set().remove(id).contains(x) by {
            if v@.contains(x) {
                let k = choose|k: int| 0 <= k < v@.len() && v@[k] == x;
                if k < pos {
                    assert(before[k] == x);
                } else {
                    assert(before[k + 1] == x);
                    assert(before[pos as int].key() < before[k + 1].key());
                    crate::id::lemma_node_id_eq(before[pos as int], x);
                }
            }
            if before.contains(x) && x != id {
                let k = choose|k: int| 0 <= k < before.len() && before[k] == x;
                if k < pos {
                    assert(v@[k] == x);
                } else {
                    assert(k != pos);
                    assert(v@[k - 1] == x);
                }
            }
        }
        assert(v@.to_set() =~= before.to_set().remove(id));
    }
}

} // verus!
