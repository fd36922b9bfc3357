//! Reconciling one document-owned entity's components with its document.
//!
//! Every component the document names is written; a named component whose
//! payload then fails to resolve is skipped, not removed. Every other
//! authorable component the entity holds is removed, unless a named
//! component requires it.

use vstd::prelude::*;
use crate::doc::EntityDoc;
use crate::registry::{first_named, ComponentDocRegistry, ComponentEntry};

verus! {

/// What the registry makes of one component a document names.
#[derive(Clone, Copy, Debug, PartialEq, Eq, Structural)]
pub enum NamedItem {
    /// No registered component has that name: reported, and nothing written.
    Unknown,
    /// The registry entry at this index: written, and kept.
    Entry(usize),
}

/// `item` is what the registry `entries` make of the name `name`.
pub open spec fn names_item(entries: Seq<ComponentEntry>, name: Seq<char>, item: NamedItem) -> bool {
    match item {
        NamedItem::Unknown => forall|j: int| 0 <= j < entries.len() ==> (#[trigger] entries[j]).name@ != name,
        NamedItem::Entry(i) => first_named(entries, name, i as int),
    }
}

/// The index of the first entry named `name`.
fn index_by_name(entries: &Vec<ComponentEntry>, name: &str) -> (r: NamedItem)
    ensures
        names_item(entries@, name@, r),
{
    let mut i: usize = 0;
    while i < entries.len()
        invariant
            i <= entries@.len(),
            forall|j: int| 0 <= j < i ==> (#[trigger] entries@[j]).name@ != name@,
        decreases entries@.len() - i,
    {
        if crate::text::str_eq(entries[i].name, name) {
            return NamedItem::Entry(i);
        }
        i = i + 1;
    }
    NamedItem::Unknown
}

/// For each component `doc` names, in order, what the registry makes of it.
pub fn named_items(doc: &EntityDoc, registry: &ComponentDocRegistry) -> (r: Vec<NamedItem>)
    ensures
        r@.len() == doc.components@.len(),
        forall|k: int| 0 <= k < r@.len() ==> names_item(registry.entries@, doc.components@[k].0@, #[trigger] r@[k]),
{
    let mut r: Vec<NamedItem> = Vec::new();
    let mut k: usize = 0;
    while k < doc.components.len()
        invariant
            k <= doc.components@.len(),
            r@.len() == k,
            forall|q: int| 0 <= q < k ==> names_item(registry.entries@, doc.components@[q].0@, #[trigger] r@[q]),
        decreases doc.components@.len() - k,
    {
        let item = index_by_name(&registry.entries, doc.components[k].0.as_str());
        r.push(item);
        k = k + 1;
    }
    r
}

/// Whether the document named registry entry `i`.
pub open spec fn named(items: Seq<NamedItem>, i: int) -> bool {
    exists|k: int| 0 <= k < items.len() && #[trigger] items[k] == NamedItem::Entry(i as usize)
}

/// Entry `i` is removed: the document did not name it, nothing it named
/// requires it, and the entity holds it.
pub open spec fn removable(items: Seq<NamedItem>, required: Seq<bool>, present: Seq<bool>, i: int) -> bool {
    !named(items, i) && !required[i] && present[i]
}

/// The removable entries among the first `n`, ascending.
pub open spec fn removals(items: Seq<NamedItem>, required: Seq<bool>, present: Seq<bool>, n: int) -> Seq<usize>
    decreases n,
{
    if n <= 0 {
        Seq::empty()
    } else if removable(items, required, present, n - 1) {
        removals(items, required, present, n - 1).push((n - 1) as usize)
    } else {
        removals(items, required, present, n - 1)
    }
}

/// Whether `items` names entry `i`.
fn names_entry(items: &[NamedItem], i: usize) -> (r: bool)
    ensures
        r == named(items@, i as int),
{
    let mut k: usize = 0;
    while k < items.len()
        invariant
            k <= items@.len(),
            forall|q: int| 0 <= q < k ==> items@[q] != NamedItem::Entry(i),
        decreases items@.len() - k,
    {
        if items[k] == NamedItem::Entry(i) {
            return true;
        }
        k = k + 1;
    }
    false
}

/// The registry entries to remove from the entity, ascending: those the
/// document did not name, that no named component requires, and that the
/// entity holds. `required` and `present` are per registry entry.
pub fn components_to_remove(items: &[NamedItem], required: &[bool], present: &[bool]) -> (r: Vec<usize>)
    requires
        required@.len() == present@.len(),
    ensures
        r@ == removals(items@, required@, present@, present@.len() as int),
{
    let mut r: Vec<usize> = Vec::new();
    let mut i: usize = 0;
    while i < present.len()
        invariant
            i <= present@.len(),
            required@.len() == present@.len(),
            r@ == removals(items@, required@, present@, i as int),
        decreases present@.len() - i,
    {
        if !names_entry(items, i) && !required[i] && present[i] {
            r.push(i);
        }
        i = i + 1;
    }
    r
}


/// The removal list is exactly the registry entries below `n` that the
/// entity holds, that nothing named requires, and that no component of the
/// document names, at any position of its list; and it ascends. In
/// particular a component the document names is never removed.
pub proof fn lemma_removals_exact(items: Seq<NamedItem>, required: Seq<bool>, present: Seq<bool>, n: int, i: int)
    requires
        0 <= n <= required.len(),
        n <= present.len(),
        n <= usize::MAX,
    ensures
        removals(items, required, present, n).contains(i as usize) && 0 <= i <= usize::MAX <==> (0 <= i < n
            && present[i] && !required[i] && forall|k: int| 0 <= k < items.len() ==> items[k] != NamedItem::Entry(
            i as usize,
        )),
        forall|a: int, b: int|
            0 <= a < b < removals(items, required, present, n).len() ==> removals(items, required, present, n)[a]
                < removals(items, required, present, n)[b],
        forall|a: int|
            0 <= a < removals(items, required, present, n).len() ==> removals(items, required, present, n)[a] < n,
    decreases n,
{
    if n > 0 {
        lemma_removals_exact(items, required, present, n - 1, i);
        let prev = removals(items, required, present, n - 1);
        let r = removals(items, required, present, n);
        let m = n - 1;
        if removable(items, required, present, m) {
            assert(r == prev.push(m as usize));
            assert forall|a: int| 0 <= a < r.len() implies r[a] < n by {
                if a < prev.len() {
                    assert(r[a] == prev[a]);
                }
            }
            assert forall|a: int, b: int| 0 <= a < b < r.len() implies r[a] < r[b] by {
                if b < prev.len() {
                    assert(r[a] == prev[a] && r[b] == prev[b]);
                } else {
                    assert(r[a] == prev[a]);
                }
            }
            if r.contains(i as usize) && 0 <= i <= usize::MAX {
                let a = choose|a: int| 0 <= a < r.len() && r[a] == i as usize;
                if a < prev.len() {
                    assert(prev[a] == r[a]);
                    assert(prev.contains(i as usize));
                } else {
                    assert(i == m);
                    assert forall|k: int| 0 <= k < items.len() implies items[k] != NamedItem::Entry(i as usize) by {
                        if items[k] == NamedItem::Entry(i as usize) {
                            assert(named(items, m));
                        }
                    }
                }
            }
            if 0 <= i < n && present[i] && !required[i] && forall|k: int| 0 <= k < items.len() ==> items[k]
                != NamedItem::Entry(i as usize) {
                if i == m {
                    assert(r[r.len() - 1] == i as usize);
                } else {
                    let a = choose|a: int| 0 <= a < prev.len() && prev[a] == i as usize;
                    assert(r[a] == prev[a]);
                }
            }
        } else {
            assert(r == prev);
            if 0 <= i < n && present[i] && !required[i] && forall|k: int| 0 <= k < items.len() ==> items[k]
                != NamedItem::Entry(i as usize) {
                if i == m {
                    assert(!named(items, m));
                    assert(false);
                }
            }
            if r.contains(i as usize) && 0 <= i <= usize::MAX {
                if i == m {
                    let a = choose|a: int| 0 <= a < prev.len() && prev[a] == i as usize;
                    assert(prev[a] < m);
                }
            }
        }
    }
}

} // verus!
