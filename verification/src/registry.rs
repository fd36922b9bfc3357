//! Which components a document may name, and what they are called there.
//!
//! Short names, not type paths: nobody should type a module path into a
//! hand-authored file, and a type path pins an internal module layout into the
//! file format.

use vstd::prelude::*;
use std::any::TypeId;

verus! {

/// A Rust type's identity, carried through unchanged.
#[verifier::external_type_specification]
#[verifier::external_body]
pub struct ExTypeId(TypeId);

/// Compares two type identities with `TypeId`'s `==`.
///
/// Trusted: `TypeId`'s equality is taken to be the identity of the two
/// values, which is what std documents (two `TypeId`s are equal exactly when
/// they identify the same type).
#[verifier::external_body]
pub(crate) fn same_type(a: &TypeId, b: &TypeId) -> (r: bool)
    ensures
        r == (*a == *b),
{
    a == b
}

/// One component a document may name.
pub struct ComponentEntry {
    /// The key used in a document, e.g. `"Lfo"`.
    pub name: &'static str,
    /// The component's type.
    pub type_id: TypeId,
    /// For diagnostics and the inspector's fallback rendering.
    pub type_path: &'static str,
}

/// Every nameable component, in registration order.
pub struct ComponentDocRegistry {
    /// The entries, in registration order.
    pub entries: Vec<ComponentEntry>,
}

/// The first entry of `entries` named `name` is at `i`.
pub open spec fn first_named(entries: Seq<ComponentEntry>, name: Seq<char>, i: int) -> bool {
    &&& 0 <= i < entries.len()
    &&& entries[i].name@ == name
    &&& forall|j: int| 0 <= j < i ==> (#[trigger] entries[j]).name@ != name
}

/// The first entry of `entries` of type `ty` is at `i`.
pub open spec fn first_typed(entries: Seq<ComponentEntry>, ty: TypeId, i: int) -> bool {
    &&& 0 <= i < entries.len()
    &&& entries[i].type_id == ty
    &&& forall|j: int| 0 <= j < i ==> (#[trigger] entries[j]).type_id != ty
}

/// No two entries share a name.
pub open spec fn names_unique(entries: Seq<ComponentEntry>) -> bool {
    forall|i: int, j: int| 0 <= i < j < entries.len() ==> entries[i].name@ != entries[j].name@
}

impl ComponentDocRegistry {
    /// An empty registry.
    pub fn new() -> (r: ComponentDocRegistry)
        ensures
            r.entries@.len() == 0,
    {
        ComponentDocRegistry { entries: Vec::new() }
    }

    /// The entry a document names `name`, the first registered if several.
    pub fn by_name(&self, name: &str) -> (r: Option<&ComponentEntry>)
        ensures
            r is None <==> forall|j: int| 0 <= j < self.entries@.len() ==> (#[trigger] self.entries@[j]).name@ != name@,
            r matches Some(e) ==> exists|i: int| first_named(self.entries@, name@, i) && *e == self.entries@[i],
    {
        let mut i: usize = 0;
        while i < self.entries.len()
            invariant
                i <= self.entries@.len(),
                forall|j: int| 0 <= j < i ==> (#[trigger] self.entries@[j]).name@ != name@,
            decreases self.entries@.len() - i,
        {
            if crate::text::str_eq(self.entries[i].name, name) {
                proof {
                    assert(first_named(self.entries@, name@, i as int));
                }
                return Some(&self.entries[i]);
            }
            i = i + 1;
        }
        None
    }

    /// The entry of type `type_id`, the first registered if several.
    pub fn by_type(&self, type_id: TypeId) -> (r: Option<&ComponentEntry>)
        ensures
            r is None <==> forall|j: int| 0 <= j < self.entries@.len() ==> (#[trigger] self.entries@[j]).type_id != type_id,
            r matches Some(e) ==> exists|i: int| first_typed(self.entries@, type_id, i) && *e == self.entries@[i],
    {
        let mut i: usize = 0;
        while i < self.entries.len()
            invariant
                i <= self.entries@.len(),
                forall|j: int| 0 <= j < i ==> (#[trigger] self.entries@[j]).type_id != type_id,
            decreases self.entries@.len() - i,
        {
            if same_type(&self.entries[i].type_id, &type_id) {
                proof {
                    assert(first_typed(self.entries@, type_id, i as int));
                }
                return Some(&self.entries[i]);
            }
            i = i + 1;
        }
        None
    }

    /// Makes `entry` nameable in a document. Refused, and nothing recorded,
    /// when its name is taken: document keys must be unique.
    pub fn register(&mut self, entry: ComponentEntry) -> (r: bool)
        ensures
            r == forall|j: int| 0 <= j < old(self).entries@.len() ==> (#[trigger] old(self).entries@[j]).name@
                != entry.name@,
            r ==> final(self).entries@ == old(self).entries@.push(entry),
            !r ==> final(self).entries@ == old(self).entries@,
            names_unique(old(self).entries@) ==> names_unique(final(self).entries@),
    {
        if self.by_name(entry.name).is_some() {
            return false;
        }
        self.entries.push(entry);
        true
    }
}

} // verus!
