//! The legality rule for a connection.
//!
//! ```text
//! outlet type S -> inlet type D is legal iff
//!   D == S            direct
//!   D == Option<S>    optional inlet
//!   D == Vec<S>       variadic inlet, and multiple edges may land here
//! ```
//!
//! Decided once, at connect time, from the type description of the value at
//! each end of the edge — never at evaluation.

use vstd::prelude::*;

verus! {

/// What a type is, as far as the legality rule can tell.
#[derive(Clone, Copy, PartialEq, Eq, Hash, Debug, Structural)]
pub enum Shape {
    /// Neither an `Option` nor a list.
    Plain,
    /// `Option<S>`, carrying the id of `S`.
    Optional(u64),
    /// A list of `S` (`Vec<S>` and anything else reported as a list),
    /// carrying the id of `S`.
    List(u64),
}

/// The static type of a value at a path.
#[derive(Clone, Debug)]
pub struct TypeDesc {
    /// The type's identity. Two values have the same type exactly when their
    /// ids are equal.
    pub id: u64,
    /// The type's path, as reported to an author when a connection is refused.
    pub path: String,
    /// Whether the type is an `Option` or a list, and of what.
    pub shape: Shape,
    /// Whether a value of the type occupies no bytes: a marker/protocol value.
    pub zero_sized: bool,
}

impl TypeDesc {
    /// A copy of this description.
    pub fn duplicate(&self) -> (r: TypeDesc)
        ensures
            r == *self,
    {
        TypeDesc { id: self.id, path: self.path.clone(), shape: self.shape, zero_sized: self.zero_sized }
    }
}

/// A copy of an optional type description.
pub fn duplicate_type(t: &Option<TypeDesc>) -> (r: Option<TypeDesc>)
    ensures
        r == *t,
{
    match t {
        Some(d) => Some(d.duplicate()),
        None => None,
    }
}

/// How the destination accepts the source type — the rule's verdict.
#[derive(Clone, Copy, PartialEq, Eq, Hash, Debug, Structural)]
pub enum Compat {
    /// `D == S`. The value is copied straight across.
    Direct,
    /// `D == Option<S>`. The value is wrapped in `Some`.
    Optional,
    /// `D == Vec<S>`. Many edges may land here.
    Variadic,
}

/// The rule. `D == S` is checked first, so `Vec<f32> -> Vec<f32>` is direct.
pub open spec fn spec_compatibility(src: TypeDesc, dst: TypeDesc) -> Option<Compat> {
    if dst.id == src.id {
        Some(Compat::Direct)
    } else if dst.shape == Shape::Optional(src.id) {
        Some(Compat::Optional)
    } else if dst.shape == Shape::List(src.id) {
        Some(Compat::Variadic)
    } else {
        None
    }
}

/// Applies the rule to two types. `None` means the connection is illegal.
pub fn compatibility(src: &TypeDesc, dst: &TypeDesc) -> (r: Option<Compat>)
    ensures
        r == spec_compatibility(*src, *dst),
{
    if dst.id == src.id {
        return Some(Compat::Direct);
    }
    match dst.shape {
        Shape::Optional(inner) => {
            if inner == src.id {
                Some(Compat::Optional)
            } else {
                None
            }
        },
        Shape::List(item) => {
            if item == src.id {
                Some(Compat::Variadic)
            } else {
                None
            }
        },
        Shape::Plain => None,
    }
}

/// Applies the rule to the types of two resolved values. `None` when either
/// value has no static type, or the pair is illegal.
pub fn compatibility_of_values(src: &Option<TypeDesc>, dst: &Option<TypeDesc>) -> (r: Option<Compat>)
    ensures
        r == (match (*src, *dst) {
            (Some(s), Some(d)) => spec_compatibility(s, d),
            _ => None,
        }),
{
    match (src, dst) {
        (Some(s), Some(d)) => compatibility(s, d),
        _ => None,
    }
}

/// Whether a value of this type carries nothing — a marker/protocol source.
pub fn is_valueless(ty: &TypeDesc) -> (r: bool)
    ensures
        r == ty.zero_sized,
{
    ty.zero_sized
}

} // verus!
