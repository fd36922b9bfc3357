//! The node container: a kind and three parts, each a table of addressable
//! fields.
//!
//! A node kind has exactly three parts — `inlets`, `state` and `outlets` — an
//! absent part being an empty one. Each part lists the paths that resolve
//! within it, relative to the part (`"frequency"`, `"point.y"`), with the
//! static type of the value at that path and the value itself.

use vstd::prelude::*;
use crate::legality::{duplicate_type, TypeDesc};
use crate::text::str_eq;

verus! {

/// Which of a node kind's three parts a path is relative to.
#[derive(Clone, Copy, PartialEq, Eq, Hash, Debug, Structural)]
pub enum Part {
    /// Values the node consumes. Authorable, written by edges.
    Inlets,
    /// Memory that persists between evaluations.
    State,
    /// Values other nodes may consume.
    Outlets,
}

impl Part {
    /// The field name this part occupies on a node kind.
    pub open spec fn name(self) -> Seq<char> {
        match self {
            Part::Inlets => seq!['i', 'n', 'l', 'e', 't', 's'],
            Part::State => seq!['s', 't', 'a', 't', 'e'],
            Part::Outlets => seq!['o', 'u', 't', 'l', 'e', 't', 's'],
        }
    }

    /// The field name this part occupies on a node kind.
    pub fn as_str(self) -> (r: &'static str)
        ensures
            r@ == self.name(),
    {
        match self {
            Part::Inlets => {
                proof {
                    reveal_strlit("inlets");
                }
                let r = "inlets";
                assert(r@ =~= self.name());
                r
            },
            Part::State => {
                proof {
                    reveal_strlit("state");
                }
                let r = "state";
                assert(r@ =~= self.name());
                r
            },
            Part::Outlets => {
                proof {
                    reveal_strlit("outlets");
                }
                let r = "outlets";
                assert(r@ =~= self.name());
                r
            },
        }
    }

    /// Every part, in declaration order.
    pub fn all() -> (r: Vec<Part>)
        ensures
            r@ == seq![Part::Inlets, Part::State, Part::Outlets],
    {
        let mut r = Vec::new();
        r.push(Part::Inlets);
        r.push(Part::State);
        r.push(Part::Outlets);
        assert(r@ =~= seq![Part::Inlets, Part::State, Part::Outlets]);
        r
    }
}

/// How a value's contents are encoded, which decides when two are equal.
#[derive(Clone, Copy, PartialEq, Eq, Hash, Debug, Structural)]
pub enum ValueKind {
    /// Any value compared by its encoding: equal exactly when the bits are.
    Plain,
    /// An `f32`, its IEEE bits in the low half: compared as a float, so
    /// `-0.0` equals `0.0` and a NaN equals nothing.
    F32,
    /// An `f64`, by its IEEE bits: compared as a float.
    F64,
}

/// A field's value, as the graph compares and copies it: the id of its type,
/// how its contents are encoded, and the contents.
#[derive(Clone, Copy, PartialEq, Eq, Hash, Debug, Structural)]
pub struct Value {
    /// The id of the value's type.
    pub type_id: u64,
    /// How `bits` encodes the value.
    pub kind: ValueKind,
    /// The value's contents, encoded.
    pub bits: u64,
}

/// IEEE equality of two floats given by their bits: `sign` is the sign bit's
/// weight, and `inf` the bits of positive infinity. A NaN (magnitude above
/// infinity) equals nothing; the two zeros are equal; otherwise equal floats
/// have equal bits.
pub open spec fn float_bits_equal(a: int, b: int, sign: int, inf: int) -> bool {
    let ma = a % sign;
    let mb = b % sign;
    if ma > inf || mb > inf {
        false
    } else if ma == 0 && mb == 0 {
        true
    } else {
        a == b
    }
}

/// Whether two values are equal as the graph compares them: the same type
/// and encoding, and equal contents, floats compared as floats.
pub open spec fn same_value(a: Value, b: Value) -> bool {
    &&& a.type_id == b.type_id
    &&& a.kind == b.kind
    &&& match a.kind {
        ValueKind::Plain => a.bits == b.bits,
        ValueKind::F32 => float_bits_equal(
            (a.bits % 0x1_0000_0000) as int,
            (b.bits % 0x1_0000_0000) as int,
            0x8000_0000,
            0x7f80_0000,
        ),
        ValueKind::F64 => float_bits_equal(a.bits as int, b.bits as int, 0x8000_0000_0000_0000, 0x7ff0_0000_0000_0000),
    }
}

/// IEEE equality of two floats given by their bits; see [`float_bits_equal`].
fn float_bits_eq(a: u64, b: u64, sign: u64, inf: u64) -> (r: bool)
    requires
        sign > 0,
    ensures
        r == float_bits_equal(a as int, b as int, sign as int, inf as int),
{
    let ma = a % sign;
    let mb = b % sign;
    if ma > inf || mb > inf {
        false
    } else if ma == 0 && mb == 0 {
        true
    } else {
        a == b
    }
}

/// Whether two values are equal as the graph compares them.
pub fn values_equal(a: Value, b: Value) -> (r: bool)
    ensures
        r == same_value(a, b),
{
    if a.type_id != b.type_id || a.kind != b.kind {
        return false;
    }
    match a.kind {
        ValueKind::Plain => a.bits == b.bits,
        ValueKind::F32 => float_bits_eq(a.bits % 0x1_0000_0000, b.bits % 0x1_0000_0000, 0x8000_0000, 0x7f80_0000),
        ValueKind::F64 => float_bits_eq(a.bits, b.bits, 0x8000_0000_0000_0000, 0x7ff0_0000_0000_0000),
    }
}

/// One addressable field within a part.
#[derive(Clone, Debug)]
pub struct Field {
    /// The path of the field, relative to its part. Empty addresses the
    /// whole part.
    pub path: String,
    /// The static type of the value at this path; `None` for a dynamic value
    /// that has none.
    pub ty: Option<TypeDesc>,
    /// For a named field of a struct: its position among that struct's
    /// fields, which a `#k` access names. `None` for a list or tuple element
    /// and for a whole part.
    pub index: Option<usize>,
    /// The value at this path.
    pub value: Value,
}

/// The first field of `fields` whose path is `path`.
pub open spec fn lookup(fields: Seq<Field>, path: Seq<char>) -> Option<Field>
    decreases fields.len(),
{
    if fields.len() == 0 {
        None
    } else if fields[0].path@ == path {
        Some(fields[0])
    } else {
        lookup(fields.drop_first(), path)
    }
}

/// The field `lookup` finds has the path it was asked for.
pub proof fn lemma_lookup_path(fields: Seq<Field>, path: Seq<char>)
    ensures
        lookup(fields, path) matches Some(f) ==> f.path@ == path,
    decreases fields.len(),
{
    if fields.len() > 0 && fields[0].path@ != path {
        lemma_lookup_path(fields.drop_first(), path);
    }
}

/// No two fields of `fields` share a path.
pub open spec fn distinct_paths(fields: Seq<Field>) -> bool {
    forall|i: int, j: int| 0 <= i < j < fields.len() ==> fields[i].path@ != fields[j].path@
}

/// `fields` with the value at `path` replaced by `value`.
pub open spec fn with_value(fields: Seq<Field>, path: Seq<char>, value: Value) -> Seq<Field> {
    fields.map_values(|f: Field| if f.path@ == path { Field { path: f.path, ty: f.ty, index: f.index, value } } else { f })
}

/// Whether a field holds a list: the paths whose length the edge set decides.
pub open spec fn is_list_field(f: Field) -> bool {
    f.ty matches Some(t) && t.shape is List
}

/// What writing an inlet field did.
#[derive(Clone, Copy, Debug, PartialEq, Eq, Structural)]
pub enum FieldWrite {
    /// The field took the new value.
    Written,
    /// The value equalled the field's current one. Nothing was written.
    Unchanged,
    /// No such field, or the value does not fit the type at that path. The
    /// field keeps its previous value.
    Rejected,
}

/// One node: its kind and its three parts.
#[derive(Debug)]
pub struct Node {
    kind: String,
    inlets: Vec<Field>,
    state: Vec<Field>,
    outlets: Vec<Field>,
}

impl Field {
    /// A copy of this field.
    pub fn duplicate(&self) -> (r: Field)
        ensures
            r == *self,
    {
        Field { path: self.path.clone(), ty: duplicate_type(&self.ty), index: self.index, value: self.value }
    }
}

impl Node {
    /// The node kind's reflected type path.
    pub closed spec fn spec_kind(&self) -> Seq<char> {
        self.kind@
    }

    /// The fields of one part.
    pub closed spec fn spec_part(&self, part: Part) -> Seq<Field> {
        match part {
            Part::Inlets => self.inlets@,
            Part::State => self.state@,
            Part::Outlets => self.outlets@,
        }
    }

    /// Every part names each of its paths once.
    pub open spec fn wf(&self) -> bool {
        &&& distinct_paths(self.spec_part(Part::Inlets))
        &&& distinct_paths(self.spec_part(Part::State))
        &&& distinct_paths(self.spec_part(Part::Outlets))
    }

    /// Builds a node of kind `kind` from its three parts.
    pub fn new(kind: &str, inlets: Vec<Field>, state: Vec<Field>, outlets: Vec<Field>) -> (n: Node)
        requires
            distinct_paths(inlets@),
            distinct_paths(state@),
            distinct_paths(outlets@),
        ensures
            n.wf(),
            n.spec_kind() == kind@,
            n.spec_part(Part::Inlets) == inlets@,
            n.spec_part(Part::State) == state@,
            n.spec_part(Part::Outlets) == outlets@,
    {
        Node { kind: kind.to_owned(), inlets, state, outlets }
    }

    /// The node kind's reflected type path.
    pub fn kind(&self) -> (r: &str)
        ensures
            r@ == self.spec_kind(),
    {
        self.kind.as_str()
    }

    /// One of the three parts, whole.
    pub fn part(&self, part: Part) -> (r: &[Field])
        ensures
            r@ == self.spec_part(part),
    {
        match part {
            Part::Inlets => self.inlets.as_slice(),
            Part::State => self.state.as_slice(),
            Part::Outlets => self.outlets.as_slice(),
        }
    }

    /// Writes the inlet field at `path`, relative to `inlets`. An equal value
    /// is not written.
    pub fn write_inlet(&mut self, path: &str, value: Value) -> (r: FieldWrite)
        ensures
            final(self).spec_kind() == old(self).spec_kind(),
            final(self).spec_part(Part::State) == old(self).spec_part(Part::State),
            final(self).spec_part(Part::Outlets) == old(self).spec_part(Part::Outlets),
            match lookup(old(self).spec_part(Part::Inlets), path@) {
                None => r == FieldWrite::Rejected && final(self).spec_part(Part::Inlets) == old(self).spec_part(Part::Inlets),
                Some(f) => if same_value(f.value, value) {
                    r == FieldWrite::Unchanged && final(self).spec_part(Part::Inlets) == old(self).spec_part(Part::Inlets)
                } else if f.value.type_id != value.type_id {
                    r == FieldWrite::Rejected && final(self).spec_part(Part::Inlets) == old(self).spec_part(Part::Inlets)
                } else {
                    r == FieldWrite::Written
                        && final(self).spec_part(Part::Inlets) == with_value(old(self).spec_part(Part::Inlets), path@, value)
                },
            },
            old(self).wf() ==> final(self).wf(),
            r != FieldWrite::Written ==> *final(self) == *old(self),
    {
        let found = find_field(self.inlets.as_slice(), path);
        match found {
            None => FieldWrite::Rejected,
            Some(i) => {
                let current = self.inlets[i].value;
                if values_equal(current, value) {
                    return FieldWrite::Unchanged;
                }
                if current.type_id != value.type_id {
                    return FieldWrite::Rejected;
                }
                let ghost before = self.inlets@;
                let mut written = Vec::new();
                let mut k: usize = 0;
                while k < self.inlets.len()
                    invariant
                        self.inlets@ == before,
                        k <= before.len(),
                        written@.len() == k,
                        forall|m: int| 0 <= m < k ==> written@[m] == with_value(before, path@, value)[m],
                    decreases before.len() - k,
                {
                    let f = &self.inlets[k];
                    let path_k = f.path.clone();
                    let is_target = str_eq(path_k.as_str(), path);
                    if is_target {
                        written.push(Field { path: path_k, ty: duplicate_type(&f.ty), index: f.index, value });
                    } else {
                        written.push(Field { path: path_k, ty: duplicate_type(&f.ty), index: f.index, value: f.value });
                    }
                    k = k + 1;
                }
                assert(written@ =~= with_value(before, path@, value));
                self.inlets = written;
                proof {
                    lemma_with_value_keeps_paths(before, path@, value);
                }
                FieldWrite::Written
            },
        }
    }
}

/// Replacing a value keeps every path where it was.
pub proof fn lemma_with_value_keeps_paths(fields: Seq<Field>, path: Seq<char>, value: Value)
    ensures
        with_value(fields, path, value).len() == fields.len(),
        forall|i: int| 0 <= i < fields.len() ==> #[trigger] with_value(fields, path, value)[i].path == fields[i].path,
        distinct_paths(fields) ==> distinct_paths(with_value(fields, path, value)),
{
}

/// The index of the first field of `fields` whose path is `path`.
pub fn find_field(fields: &[Field], path: &str) -> (r: Option<usize>)
    ensures
        match r {
            None => lookup(fields@, path@) is None,
            Some(i) => i < fields@.len() && lookup(fields@, path@) == Some(fields@[i as int])
                && fields@[i as int].path@ == path@,
        },
{
    let mut i: usize = 0;
    assert(fields@.subrange(0, fields@.len() as int) =~= fields@);
    while i < fields.len()
        invariant
            i <= fields@.len(),
            lookup(fields@, path@) == lookup(fields@.subrange(i as int, fields@.len() as int), path@),
        decreases fields.len() - i,
    {
        let ghost rest = fields@.subrange(i as int, fields@.len() as int);
        if str_eq(fields[i].path.as_str(), path) {
            assert(rest[0] == fields@[i as int]);
            return Some(i);
        }
        assert(rest.drop_first() =~= fields@.subrange(i + 1, fields@.len() as int));
        i = i + 1;
    }
    None
}

} // verus!
