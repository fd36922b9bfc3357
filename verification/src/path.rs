//! Path resolution over a node's three parts.
//!
//! Stored paths are relative to the part. This module is the only place the
//! part prefix is added, so everything else speaks the short form.

use vstd::prelude::*;
use crate::node::{find_field, lookup, Field, Node, Part};
use crate::display::{decimal, decimal_text};
use crate::text::{chars_of, str_eq};
use vstd::string::*;

verus! {

/// One access of a parsed path.
#[derive(Debug)]
pub enum PathAccess {
    /// A struct field, by name: `.name`.
    Field(String),
    /// A struct field, by position: `#k`.
    FieldIndex(usize),
    /// A tuple element: `.k`.
    TupleIndex(usize),
    /// A list element: `[k]`.
    ListIndex(usize),
}

/// [`PathAccess`] as a plain value.
pub enum AccessView {
    /// A struct field, by name.
    Field(Seq<char>),
    /// A struct field, by position.
    FieldIndex(usize),
    /// A tuple element.
    TupleIndex(usize),
    /// A list element.
    ListIndex(usize),
}

impl View for PathAccess {
    type V = AccessView;

    open spec fn view(&self) -> AccessView {
        match self {
            PathAccess::Field(name) => AccessView::Field(name@),
            PathAccess::FieldIndex(k) => AccessView::FieldIndex(*k),
            PathAccess::TupleIndex(k) => AccessView::TupleIndex(*k),
            PathAccess::ListIndex(k) => AccessView::ListIndex(*k),
        }
    }
}

/// The accesses the reflection library parses `path` into, in order; `None`
/// when it refuses the path.
pub uninterp spec fn reflect_path_accesses(path: Seq<char>) -> Option<Seq<AccessView>>;

/// Whether the reflection library accepts `path` as a path string: named
/// fields, `.0` tuple fields, `#0` field indices and `[2]` list indices.
pub open spec fn reflect_path_valid(path: Seq<char>) -> bool {
    reflect_path_accesses(path) is Some
}

/// Parses `path` with `bevy_reflect::ParsedPath::parse`, each access
/// converted to a [`PathAccess`].
///
/// Trusted: the result is taken to be a function of the path text alone,
/// named by [`reflect_path_accesses`]; nothing more about which texts parse,
/// or into what, is stated.
#[verifier::external_body]
fn reflect_path_parse(path: &str) -> (r: Option<Vec<PathAccess>>)
    ensures
        match r {
            None => reflect_path_accesses(path@) is None,
            Some(v) => reflect_path_accesses(path@) == Some(v@.map_values(|a: PathAccess| a@)),
        },
{
    match bevy_reflect::ParsedPath::parse(path) {
        Ok(parsed) => Some(parsed.0.iter().map(|step| match &step.access {
            bevy_reflect::Access::Field(name) => PathAccess::Field(name.to_string()),
            bevy_reflect::Access::FieldIndex(k) => PathAccess::FieldIndex(*k),
            bevy_reflect::Access::TupleIndex(k) => PathAccess::TupleIndex(*k),
            bevy_reflect::Access::ListIndex(k) => PathAccess::ListIndex(*k),
        }).collect()),
        Err(_) => None,
    }
}

/// The absolute path for `relative` within `part`.
///
/// An empty `relative` addresses the whole part. A `relative` that starts
/// with an access token (`[`, `.`, `#`) is appended without a separating dot.
pub open spec fn spec_absolute_path(part: Part, relative: Seq<char>) -> Seq<char> {
    if relative.len() == 0 {
        part.name()
    } else if relative[0] == '[' || relative[0] == '.' || relative[0] == '#' {
        part.name() + relative
    } else {
        part.name() + seq!['.'] + relative
    }
}

/// Builds the absolute path for `relative` within `part`.
pub fn absolute_path(part: Part, relative: &str) -> (r: String)
    ensures
        r@ == spec_absolute_path(part, relative@),
{
    let name = part.as_str();
    let mut out = name.to_owned();
    if relative.is_empty() {
        return out;
    }
    let first = relative.get_char(0);
    if first == '[' || first == '.' || first == '#' {
        out.append(relative);
        return out;
    }
    proof {
        reveal_strlit(".");
    }
    out.append(".");
    out.append(relative);
    out
}

/// Parses `relative` within `part`: the absolute path, when the reflection
/// library accepts it.
pub fn parse(part: Part, relative: &str) -> (r: Option<String>)
    ensures
        r is Some <==> reflect_path_valid(spec_absolute_path(part, relative@)),
        r matches Some(s) ==> s@ == spec_absolute_path(part, relative@),
{
    let path = absolute_path(part, relative);
    match reflect_path_parse(path.as_str()) {
        Some(_) => Some(path),
        None => None,
    }
}

/// `n` followed by a dot and `p`'s next segment; `n` alone at the top.
pub open spec fn join_name(p: Seq<char>, n: Seq<char>) -> Seq<char> {
    if p.len() == 0 {
        n
    } else {
        p + seq!['.'] + n
    }
}

/// A character that separates path segments.
pub open spec fn is_separator(c: char) -> bool {
    c == '.' || c == '[' || c == ']' || c == '#'
}

/// `q` names a field of the struct at `p`: it is `p` joined with one
/// non-empty name that holds no separator.
pub open spec fn named_child(p: Seq<char>, q: Seq<char>) -> bool {
    let start = if p.len() == 0 { 0int } else { p.len() + 1int };
    &&& q.len() > start
    &&& p.len() > 0 ==> q.subrange(0, p.len() as int) == p && q[p.len() as int] == '.'
    &&& forall|i: int| start <= i < q.len() ==> !is_separator(#[trigger] q[i])
}

/// The path of the `k`-th field of the struct at `p`: the first field of the
/// table that is a named field of it at position `k`.
pub open spec fn child_at(fields: Seq<Field>, p: Seq<char>, k: usize) -> Option<Seq<char>>
    decreases fields.len(),
{
    if fields.len() == 0 {
        None
    } else if fields[0].index == Some(k) && named_child(p, fields[0].path@) {
        Some(fields[0].path@)
    } else {
        child_at(fields.drop_first(), p, k)
    }
}

/// The path reached from `p` by one access, spelled as the table spells it:
/// names joined by dots, tuple elements as `.k`, list elements as `[k]`, and
/// a field index replaced by the name of the field at that position.
pub open spec fn canonical_step(fields: Seq<Field>, p: Seq<char>, a: AccessView) -> Option<Seq<char>> {
    match a {
        AccessView::Field(n) => Some(join_name(p, n)),
        AccessView::TupleIndex(k) => Some(join_name(p, decimal(k as nat))),
        AccessView::ListIndex(k) => Some(p + seq!['['] + decimal(k as nat) + seq![']']),
        AccessView::FieldIndex(k) => child_at(fields, p, k),
    }
}

/// The path reached from `p` by the accesses `accs`, in the table's spelling.
pub open spec fn canonical_from(fields: Seq<Field>, p: Seq<char>, accs: Seq<AccessView>) -> Option<Seq<char>>
    decreases accs.len(),
{
    if accs.len() == 0 {
        Some(p)
    } else {
        match canonical_step(fields, p, accs[0]) {
            None => None,
            Some(q) => canonical_from(fields, q, accs.drop_first()),
        }
    }
}

/// How the table of `part` spells `relative`: the absolute path is parsed,
/// its first access must name the part, and the rest is spelled as the
/// table spells it. `None` when the path does not parse or a field index
/// names no field.
pub open spec fn canonical(fields: Seq<Field>, part: Part, relative: Seq<char>) -> Option<Seq<char>> {
    match reflect_path_accesses(spec_absolute_path(part, relative)) {
        None => None,
        Some(accs) => if accs.len() > 0 && accs[0] == AccessView::Field(part.name()) {
            canonical_from(fields, Seq::empty(), accs.drop_first())
        } else {
            None
        },
    }
}

/// The field `relative` reaches within the part whose table is `fields`.
pub open spec fn resolved(fields: Seq<Field>, part: Part, relative: Seq<char>) -> Option<Field> {
    match canonical(fields, part, relative) {
        None => None,
        Some(c) => lookup(fields, c),
    }
}

/// Whether `q` names a field of the struct at `p`.
fn is_named_child(p: &str, q: &str) -> (r: bool)
    ensures
        r == named_child(p@, q@),
{
    let pc = chars_of(p);
    let qc = chars_of(q);
    if qc.len() <= pc.len() {
        return false;
    }
    let start: usize = if pc.len() == 0 { 0 } else { pc.len() + 1 };
    if qc.len() <= start {
        return false;
    }
    if pc.len() > 0 {
        let mut i: usize = 0;
        while i < pc.len()
            invariant
                pc@ == p@,
                qc@ == q@,
                pc@.len() < qc@.len(),
                i <= pc@.len(),
                forall|j: int| 0 <= j < i ==> qc@[j] == pc@[j],
            decreases pc@.len() - i,
        {
            if qc[i] != pc[i] {
                proof {
                    assert(q@.subrange(0, p@.len() as int)[i as int] != p@[i as int]);
                }
                return false;
            }
            i = i + 1;
        }
        assert(q@.subrange(0, p@.len() as int) =~= p@);
        if qc[pc.len()] != '.' {
            return false;
        }
    }
    let mut i: usize = start;
    while i < qc.len()
        invariant
            pc@ == p@,
            qc@ == q@,
            start == (if p@.len() == 0 { 0int } else { p@.len() + 1int }),
            start <= i <= qc@.len(),
            forall|j: int| start <= j < i ==> !is_separator(#[trigger] qc@[j]),
        decreases qc@.len() - i,
    {
        let c = qc[i];
        if c == '.' || c == '[' || c == ']' || c == '#' {
            return false;
        }
        i = i + 1;
    }
    true
}

/// The path of the `k`-th field of the struct at `p`.
fn child_at_exec(fields: &[Field], p: &str, k: usize) -> (r: Option<String>)
    ensures
        match r {
            None => child_at(fields@, p@, k) is None,
            Some(c) => child_at(fields@, p@, k) == Some(c@),
        },
{
    let mut i: usize = 0;
    assert(fields@.subrange(0, fields@.len() as int) =~= fields@);
    while i < fields.len()
        invariant
            i <= fields@.len(),
            child_at(fields@, p@, k) == child_at(fields@.subrange(i as int, fields@.len() as int), p@, k),
        decreases fields@.len() - i,
    {
        let ghost rest = fields@.subrange(i as int, fields@.len() as int);
        assert(rest[0] == fields@[i as int]);
        if fields[i].index == Some(k) && is_named_child(p, fields[i].path.as_str()) {
            return Some(fields[i].path.clone());
        }
        assert(rest.drop_first() =~= fields@.subrange(i + 1, fields@.len() as int));
        i = i + 1;
    }
    None
}

/// The path reached from `p` by one access.
fn canonical_step_exec(fields: &[Field], p: String, a: &PathAccess) -> (r: Option<String>)
    ensures
        match r {
            None => canonical_step(fields@, p@, a@) is None,
            Some(q) => canonical_step(fields@, p@, a@) == Some(q@),
        },
{
    proof {
        reveal_strlit(".");
        reveal_strlit("[");
        reveal_strlit("]");
    }
    match a {
        PathAccess::Field(n) => {
            let mut q = p;
            if q.as_str().unicode_len() > 0 {
                q.append(".");
            }
            q.append(n.as_str());
            proof {
                assert(q@ =~= join_name(p@, n@));
            }
            Some(q)
        },
        PathAccess::TupleIndex(k) => {
            let d = decimal_text(*k as u64);
            let mut q = p;
            if q.as_str().unicode_len() > 0 {
                q.append(".");
            }
            q.append(d.as_str());
            proof {
                assert(q@ =~= join_name(p@, decimal(*k as nat)));
            }
            Some(q)
        },
        PathAccess::ListIndex(k) => {
            let d = decimal_text(*k as u64);
            let mut q = p;
            q.append("[");
            q.append(d.as_str());
            q.append("]");
            proof {
                assert(q@ =~= p@ + seq!['['] + decimal(*k as nat) + seq![']']);
            }
            Some(q)
        },
        PathAccess::FieldIndex(k) => child_at_exec(fields, p.as_str(), *k),
    }
}

/// How the table `fields` of `part` spells `relative`.
pub fn canonical_path(fields: &[Field], part: Part, relative: &str) -> (r: Option<String>)
    ensures
        match r {
            None => canonical(fields@, part, relative@) is None,
            Some(c) => canonical(fields@, part, relative@) == Some(c@),
        },
{
    let abs = absolute_path(part, relative);
    let accs = match reflect_path_parse(abs.as_str()) {
        None => return None,
        Some(a) => a,
    };
    let ghost av = accs@.map_values(|a: PathAccess| a@);
    if accs.len() == 0 {
        return None;
    }
    let first_ok = match &accs[0] {
        PathAccess::Field(n) => str_eq(n.as_str(), part.as_str()),
        _ => false,
    };
    proof {
        assert(av[0] == accs@[0]@);
    }
    if !first_ok {
        return None;
    }
    let mut p = String::new();
    let mut i: usize = 1;
    proof {
        assert(av.drop_first() =~= av.subrange(1, av.len() as int));
    }
    while i < accs.len()
        invariant
            av == accs@.map_values(|a: PathAccess| a@),
            1 <= i <= accs@.len(),
            canonical(fields@, part, relative@) == canonical_from(fields@, p@, av.subrange(i as int, av.len() as int)),
        decreases accs@.len() - i,
    {
        let ghost rest = av.subrange(i as int, av.len() as int);
        assert(rest[0] == accs@[i as int]@);
        assert(rest.drop_first() =~= av.subrange(i + 1, av.len() as int));
        match canonical_step_exec(fields, p, &accs[i]) {
            None => return None,
            Some(q) => {
                p = q;
            },
        }
        i = i + 1;
    }
    Some(p)
}

/// The index of the field `relative` reaches within the part whose table is
/// `fields`.
pub fn find_resolved(fields: &[Field], part: Part, relative: &str) -> (r: Option<usize>)
    ensures
        match r {
            None => resolved(fields@, part, relative@) is None,
            Some(i) => i < fields@.len() && resolved(fields@, part, relative@) == Some(fields@[i as int]) && Some(
                fields@[i as int].path@,
            ) == canonical(fields@, part, relative@),
        },
{
    match canonical_path(fields, part, relative) {
        None => None,
        Some(c) => find_field(fields, c.as_str()),
    }
}

/// The field `relative` names within `part` on `node`.
pub fn resolve<'a>(node: &'a Node, part: Part, relative: &str) -> (r: Option<&'a Field>)
    ensures
        match r {
            None => resolved(node.spec_part(part), part, relative@) is None,
            Some(f) => resolved(node.spec_part(part), part, relative@) == Some(*f),
        },
{
    let fields = node.part(part);
    match find_resolved(fields, part, relative) {
        None => None,
        Some(i) => Some(&fields[i]),
    }
}

} // verus!
