//! The decisions of one tick of the compiled graph, node by node.
//!
//! The tick walks the plans in compiled order. For each node it copies every
//! edge into the node's inlet slots, prefills the inlets when the node's
//! authored inlets changed since it last looked, runs the node, and then, for
//! a node that cooks, cooks it when a reason to has accumulated. Every event
//! slot is emptied before the first node runs. The values themselves live
//! outside the library; these functions take what was observed of them and
//! say what to do next and how the node's runtime record changes.

use vstd::prelude::*;

verus! {

/// What the tick remembers of one node between ticks.
#[derive(Debug, Clone)]
pub struct NodeRuntime {
    /// The change tick of the node's authored inlets when they were last
    /// prefilled.
    pub last_inlets_tick: Option<u32>,
    /// Whether a reason to cook has accumulated since the last cook.
    pub cook_dirty: bool,
    /// Per product inlet, the change tick of its source when the node last
    /// cooked.
    pub last_product_ticks: Vec<Option<u32>>,
}

/// Whether one copy changed the slot it wrote. `equal` is the comparison of
/// the old and new values; a pair that cannot be compared counts as changed.
pub fn copy_changed(equal: Option<bool>) -> (r: bool)
    ensures
        r == (match equal {
            Some(e) => !e,
            None => true,
        }),
{
    match equal {
        Some(e) => !e,
        None => true,
    }
}

/// The inlets' change tick the node last recorded; none without a record.
pub open spec fn recorded_inlets(rt: Option<NodeRuntime>) -> Option<u32> {
    match rt {
        Some(r) => r.last_inlets_tick,
        None => None,
    }
}

/// Before the node runs: `copies_changed` says whether any copy into it
/// changed a slot, `inlets_tick` is its inlets' current change tick. Returns
/// whether to prefill its inlets from its authored values. The record, if
/// any, takes the new inlets tick on a prefill, and marks the node dirty for
/// cooking when either happened; a reason raised earlier is kept.
pub fn before_node(rt: &mut Option<NodeRuntime>, copies_changed: bool, inlets_tick: Option<u32>) -> (prefill: bool)
    ensures
        prefill == (recorded_inlets(*old(rt)) != inlets_tick),
        match *old(rt) {
            None => *final(rt) is None,
            Some(before) => *final(rt) matches Some(after) && after.last_inlets_tick == (if prefill {
                inlets_tick
            } else {
                before.last_inlets_tick
            }) && after.cook_dirty == (before.cook_dirty || copies_changed || prefill)
                && after.last_product_ticks@ == before.last_product_ticks@,
        },
{
    let last = match rt {
        Some(r) => r.last_inlets_tick,
        None => None,
    };
    let prefill = last != inlets_tick;
    match rt {
        Some(r) => {
            if prefill {
                r.last_inlets_tick = inlets_tick;
            }
            if copies_changed || prefill {
                r.cook_dirty = true;
            }
        },
        None => {},
    }
    prefill
}

/// Whether two lists of source ticks are the same.
fn same_ticks(a: &Vec<Option<u32>>, b: &Vec<Option<u32>>) -> (r: bool)
    ensures
        r == (a@ == b@),
{
    if a.len() != b.len() {
        return false;
    }
    let mut i: usize = 0;
    while i < a.len()
        invariant
            a@.len() == b@.len(),
            i <= a@.len(),
            forall|j: int| 0 <= j < i ==> a@[j] == b@[j],
        decreases a@.len() - i,
    {
        if a[i] != b[i] {
            return false;
        }
        i = i + 1;
    }
    assert(a@ =~= b@);
    true
}

/// The cook gate, after a cooking node has run: `sources` are the current
/// change ticks of its product inlets' sources. Returns whether to cook: the
/// node has a record, and a reason accumulated or a source changed. A cook
/// clears the reason and records the sources; otherwise nothing changes.
pub fn cook_gate(rt: &mut Option<NodeRuntime>, sources: Vec<Option<u32>>) -> (cook: bool)
    ensures
        cook == (match *old(rt) {
            None => false,
            Some(before) => before.cook_dirty || before.last_product_ticks@ != sources@,
        }),
        cook ==> (*final(rt) matches Some(after) && !after.cook_dirty && after.last_product_ticks@ == sources@
            && after.last_inlets_tick == old(rt)->Some_0.last_inlets_tick),
        !cook ==> *final(rt) == *old(rt),
{
    let cook = match rt {
        Some(r) => r.cook_dirty || !same_ticks(&r.last_product_ticks, &sources),
        None => false,
    };
    if cook {
        match rt {
            Some(r) => {
                r.cook_dirty = false;
                r.last_product_ticks = sources;
            },
            None => {},
        }
    }
    cook
}

} // verus!
