//! The project document, and the checks a document must pass before anything
//! in it is applied.
//!
//! A document is data: every failure decided here is a whole-document
//! failure, so the applier can assume a coherent one.

use vstd::prelude::*;
use crate::text::str_eq;

verus! {

/// Bumped when the document shape changes incompatibly. An unknown version is
/// rejected rather than guessed at.
pub const FORMAT_VERSION: u32 = 1;

/// One entity of a document.
#[derive(Debug, Clone, PartialEq)]
pub struct EntityDoc {
    /// Stable identity across reloads. Renaming is a delete plus an add.
    pub id: String,
    /// Short registered component name and its payload, left unparsed, in
    /// name order.
    pub components: Vec<(String, String)>,
    /// Wire name and the id of its producer, in name order.
    pub wires: Vec<(String, String)>,
}

/// A whole document.
#[derive(Debug, Clone, PartialEq)]
pub struct ProjectDoc {
    /// The document format's version.
    pub version: u32,
    /// The entities, in document order.
    pub entities: Vec<EntityDoc>,
}

/// Why a document was rejected.
#[derive(Debug, Clone, PartialEq)]
pub enum ParseError {
    /// The text is not valid RON, or does not match the document shape.
    Ron(String),
    /// The document's version is not the one this build reads.
    UnsupportedVersion(u32),
    /// Two entities share an id, so nothing in the document can be resolved
    /// unambiguously.
    DuplicateId(String),
}

/// The ids of a document's entities, in order.
pub open spec fn entity_ids(doc: ProjectDoc) -> Seq<Seq<char>> {
    doc.entities@.map_values(|e: EntityDoc| e.id@)
}

/// `ids[i]` is the first id, in document order, that repeats an earlier one.
pub open spec fn first_repeat(ids: Seq<Seq<char>>, i: int) -> bool {
    &&& 0 <= i < ids.len()
    &&& exists|j: int| 0 <= j < i && ids[j] == ids[i]
    &&& forall|k: int, j: int| 0 <= j < k < i ==> ids[j] != ids[k]
}

/// No id repeats.
pub open spec fn ids_unique(ids: Seq<Seq<char>>) -> bool {
    forall|k: int, j: int| 0 <= j < k < ids.len() ==> ids[j] != ids[k]
}

/// Accepts a document of this build's version whose entity ids are unique,
/// unchanged. Rejects any other version, and otherwise the first entity, in
/// document order, whose id an earlier entity already has.
pub fn validate(doc: ProjectDoc) -> (r: Result<ProjectDoc, ParseError>)
    ensures
        doc.version != FORMAT_VERSION ==> r == Err::<ProjectDoc, ParseError>(ParseError::UnsupportedVersion(doc.version)),
        doc.version == FORMAT_VERSION && ids_unique(entity_ids(doc)) ==> r == Ok::<ProjectDoc, ParseError>(doc),
        doc.version == FORMAT_VERSION && !ids_unique(entity_ids(doc)) ==> (r matches Err(ParseError::DuplicateId(id))
            && exists|i: int| first_repeat(entity_ids(doc), i) && id@ == entity_ids(doc)[i]),
{
    if doc.version != FORMAT_VERSION {
        return Err(ParseError::UnsupportedVersion(doc.version));
    }
    let ghost ids = entity_ids(doc);
    let mut k: usize = 0;
    while k < doc.entities.len()
        invariant
            ids == entity_ids(doc),
            doc.version == FORMAT_VERSION,
            k <= ids.len(),
            ids.len() == doc.entities@.len(),
            forall|b: int, a: int| 0 <= a < b < k ==> ids[a] != ids[b],
        decreases ids.len() - k,
    {
        let mut j: usize = 0;
        while j < k
            invariant
                ids == entity_ids(doc),
                doc.version == FORMAT_VERSION,
                ids.len() == doc.entities@.len(),
                j <= k < ids.len(),
                forall|b: int, a: int| 0 <= a < b < k ==> ids[a] != ids[b],
                forall|a: int| 0 <= a < j ==> ids[a] != ids[k as int],
            decreases k - j,
        {
            if str_eq(doc.entities[j].id.as_str(), doc.entities[k].id.as_str()) {
                let id = doc.entities[k].id.clone();
                proof {
                    assert(ids[j as int] == doc.entities@[j as int].id@);
                    assert(ids[k as int] == doc.entities@[k as int].id@);
                    assert(first_repeat(ids, k as int));
                }
                return Err(ParseError::DuplicateId(id));
            }
            j = j + 1;
        }
        k = k + 1;
    }
    Ok(doc)
}

} // verus!
