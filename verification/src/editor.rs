//! Editor decisions that do not need the world: how an integer field takes a
//! written value, what deleting a scene entity does to its children and the
//! selection, and which producer a saved wire names.

use vstd::prelude::*;

verus! {

/// The integer type of a field.
#[derive(Clone, Copy, Debug, PartialEq, Eq, Structural)]
pub enum IntKind {
    I8,
    I16,
    I32,
    I64,
    Isize,
    U8,
    U16,
    U32,
    U64,
    Usize,
}

/// The smallest value of `k`.
pub open spec fn int_min(k: IntKind) -> int {
    match k {
        IntKind::I8 => i8::MIN as int,
        IntKind::I16 => i16::MIN as int,
        IntKind::I32 => i32::MIN as int,
        IntKind::I64 => i64::MIN as int,
        IntKind::Isize => isize::MIN as int,
        _ => 0,
    }
}

/// The largest value of `k`.
pub open spec fn int_max(k: IntKind) -> int {
    match k {
        IntKind::I8 => i8::MAX as int,
        IntKind::I16 => i16::MAX as int,
        IntKind::I32 => i32::MAX as int,
        IntKind::I64 => i64::MAX as int,
        IntKind::Isize => isize::MAX as int,
        IntKind::U8 => u8::MAX as int,
        IntKind::U16 => u16::MAX as int,
        IntKind::U32 => u32::MAX as int,
        IntKind::U64 => u64::MAX as int,
        IntKind::Usize => usize::MAX as int,
    }
}

/// `value` as a field of kind `k` takes it: itself when it fits, else the
/// bound on its side.
pub open spec fn saturated(value: int, k: IntKind) -> int {
    if value < int_min(k) {
        int_min(k)
    } else if value > int_max(k) {
        int_max(k)
    } else {
        value
    }
}

/// The value an integer field of kind `k` takes when `value` is written to
/// it: `value` when it fits, else the bound on its side.
pub fn saturate(value: i64, k: IntKind) -> (r: i128)
    ensures
        r == saturated(value as int, k),
{
    let (min, max): (i128, i128) = match k {
        IntKind::I8 => (i8::MIN as i128, i8::MAX as i128),
        IntKind::I16 => (i16::MIN as i128, i16::MAX as i128),
        IntKind::I32 => (i32::MIN as i128, i32::MAX as i128),
        IntKind::I64 => (i64::MIN as i128, i64::MAX as i128),
        IntKind::Isize => (isize::MIN as i128, isize::MAX as i128),
        IntKind::U8 => (0, u8::MAX as i128),
        IntKind::U16 => (0, u16::MAX as i128),
        IntKind::U32 => (0, u32::MAX as i128),
        IntKind::U64 => (0, u64::MAX as i128),
        IntKind::Usize => (0, usize::MAX as i128),
    };
    let v = value as i128;
    if v < min {
        min
    } else if v > max {
        max
    } else {
        v
    }
}

/// What deleting a scene entity does besides despawning it.
#[derive(Clone, Debug, PartialEq)]
pub struct DeletePlan {
    /// Each child of the entity with its new parent: the entity's own
    /// parent, or none, which makes it a root.
    pub reparent: Vec<(u64, Option<u64>)>,
    /// The selection afterwards: cleared when it was the deleted entity.
    pub selection: Option<u64>,
}

/// Deleting `entity`, whose parent is `parent` and whose children are
/// `children`, with `selection` selected: every child moves to the entity's
/// parent, in order, and a selection of the entity is cleared.
pub fn delete_plan(entity: u64, parent: Option<u64>, children: &[u64], selection: Option<u64>) -> (r: DeletePlan)
    ensures
        r.reparent@ == children@.map_values(|c: u64| (c, parent)),
        r.selection == (if selection == Some(entity) {
            None
        } else {
            selection
        }),
{
    let mut reparent: Vec<(u64, Option<u64>)> = Vec::new();
    let mut i: usize = 0;
    while i < children.len()
        invariant
            i <= children@.len(),
            reparent@ == children@.subrange(0, i as int).map_values(|c: u64| (c, parent)),
        decreases children@.len() - i,
    {
        reparent.push((children[i], parent));
        proof {
            assert(children@.subrange(0, i + 1).map_values(|c: u64| (c, parent)) =~= children@.subrange(
                0,
                i as int,
            ).map_values(|c: u64| (c, parent)).push((children@[i as int], parent)));
        }
        i = i + 1;
    }
    proof {
        assert(children@.subrange(0, children@.len() as int) =~= children@);
    }
    let selection = match selection {
        Some(s) => if s == entity {
            None
        } else {
            Some(s)
        },
        None => None,
    };
    DeletePlan { reparent, selection }
}

/// The document id of the first carrier that is entity `src`; none when the
/// document does not own it.
pub open spec fn owned_id(carriers: Seq<(String, u64)>, src: u64) -> Option<Seq<char>>
    decreases carriers.len(),
{
    if carriers.len() == 0 {
        None
    } else if carriers[0].1 == src {
        Some(carriers[0].0@)
    } else {
        owned_id(carriers.drop_first(), src)
    }
}

/// The id under which a saved wire names its producer `src`: the document
/// id of that entity, or none when the document does not own it, in which
/// case the wire is not saved.
pub fn wire_source_id(carriers: &[(String, u64)], src: u64) -> (r: Option<String>)
    ensures
        match r {
            None => owned_id(carriers@, src) is None,
            Some(id) => owned_id(carriers@, src) == Some(id@),
        },
{
    let mut i: usize = 0;
    assert(carriers@.skip(0) =~= carriers@);
    while i < carriers.len()
        invariant
            i <= carriers@.len(),
            owned_id(carriers@, src) == owned_id(carriers@.skip(i as int), src),
        decreases carriers@.len() - i,
    {
        proof {
            assert(carriers@.skip(i as int).drop_first() =~= carriers@.skip(i + 1));
        }
        if carriers[i].1 == src {
            return Some(carriers[i].0.clone());
        }
        i = i + 1;
    }
    None
}

} // verus!
