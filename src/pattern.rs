//! Destructuring patterns, the disciplines they run under, and what a
//! pattern means over a declared shape: whether it is accepted, and which
//! leaf handles it yields at which addresses.
use vstd::prelude::*;
use crate::layout::{Field, ProductKind, Shape};

verus! {

/// How a projection treats the storage it starts from.
#[derive(PartialEq, Eq, Structural, Clone, Copy, Debug)]
pub enum Discipline {
    /// Field handles are disjoint views; the root stays usable.
    Borrow,
    /// Field handles take ownership of their part; the root is consumed.
    Move,
}

/// A destructuring pattern.
pub enum Pattern {
    /// A binding `name` or `mut name`; `ref name` and `name @ sub` are written
    /// with the two flags and always refused.
    Ident { name: String, mutable: bool, by_ref: bool, subpattern: bool },
    /// `_`: the field is projected and the handle dropped at once.
    Wild,
    /// `..`: the fields it stands for are not touched.
    Rest,
    /// `(p, q, ..)`
    Tuple { elems: Vec<Pattern> },
    /// `[p, q, ..]`
    Slice { elems: Vec<Pattern> },
    /// `Path(p, q, ..)`
    TupleStruct { path: String, elems: Vec<Pattern> },
    /// `Path { a, b: p, .. }`
    Struct { path: String, fields: Vec<FieldPat>, rest: bool },
    /// Any other pattern syntax (a literal, a range, a reference pattern, ...).
    Other,
}

/// One `member: pattern` entry of a struct pattern.
pub struct FieldPat {
    pub member: String,
    pub pat: Pattern,
}

impl Pattern {
    /// The binding `name`.
    pub fn bind(name: String) -> (r: Pattern)
        ensures
            r == (Pattern::Ident { name, mutable: false, by_ref: false, subpattern: false }),
    {
        Pattern::Ident { name, mutable: false, by_ref: false, subpattern: false }
    }

    /// The binding `mut name`.
    pub fn bind_mut(name: String) -> (r: Pattern)
        ensures
            r == (Pattern::Ident { name, mutable: true, by_ref: false, subpattern: false }),
    {
        Pattern::Ident { name, mutable: true, by_ref: false, subpattern: false }
    }

    /// The tuple pattern `(elems..)`.
    pub fn tuple(elems: Vec<Pattern>) -> (r: Pattern)
        ensures
            r == (Pattern::Tuple { elems }),
    {
        Pattern::Tuple { elems }
    }

    /// The array pattern `[elems..]`.
    pub fn slice(elems: Vec<Pattern>) -> (r: Pattern)
        ensures
            r == (Pattern::Slice { elems }),
    {
        Pattern::Slice { elems }
    }

    /// The tuple-struct pattern `path(elems..)`.
    pub fn tuple_struct(path: String, elems: Vec<Pattern>) -> (r: Pattern)
        ensures
            r == (Pattern::TupleStruct { path, elems }),
    {
        Pattern::TupleStruct { path, elems }
    }

    /// The struct pattern `path { fields.. }`, ending in `..` when `rest`.
    pub fn record(path: String, fields: Vec<FieldPat>, rest: bool) -> (r: Pattern)
        ensures
            r == (Pattern::Struct { path, fields, rest }),
    {
        Pattern::Struct { path, fields, rest }
    }
}

impl FieldPat {
    /// The entry `member: pat`.
    pub fn new(member: String, pat: Pattern) -> (r: FieldPat)
        ensures
            r == (FieldPat { member, pat }),
    {
        FieldPat { member, pat }
    }

    /// The entry `member`, binding the field to its own name.
    pub fn shorthand(member: String) -> (r: FieldPat)
        ensures
            r.member == member,
            r.pat == (Pattern::Ident { name: member, mutable: false, by_ref: false, subpattern: false }),
    {
        let name = member.clone();
        FieldPat { member, pat: Pattern::bind(name) }
    }
}

/// Why a pattern is refused.
#[derive(PartialEq, Eq, Structural, Clone, Copy, Debug)]
pub enum CompileError {
    /// `ref x` bindings are not allowed.
    RefBinding,
    /// `x @ p` bindings are not allowed.
    Subpattern,
    /// The pattern is not a destructuring pattern.
    NotDestructuring,
    /// `..` outside a tuple, array or struct pattern, or twice in one list.
    MisplacedRest,
    /// `..` under a discipline that moves fields out.
    RestUnderMove,
    /// The pattern's kind, path, arity or field names do not match the shape.
    ShapeMismatch,
    /// The pattern selects fields of a value reached through an indirection.
    ThroughIndirection,
    /// The pattern selects into a type whose fields share storage.
    Union,
}

/// What a leaf of a compiled pattern is: a binding name (`None` for `_`),
/// whether it was written `mut`, and the extent it addresses.
pub ghost struct LeafModel {
    pub name: Option<Seq<char>>,
    pub mutable: bool,
    pub offset: int,
    pub size: int,
}

/// The number of `..` among the `j` first elements.
pub open spec fn rests_before(elems: Seq<Pattern>, j: int) -> nat
    decreases j,
{
    if j <= 0 {
        0
    } else {
        rests_before(elems, j - 1) + if elems[j - 1] is Rest { 1nat } else { 0nat }
    }
}

/// The field that element `j` of a positional list selects among `n`
/// fields: elements before the `..` count from the front, those after it
/// from the back.
pub open spec fn pos_index(elems: Seq<Pattern>, n: int, j: int) -> int {
    if rests_before(elems, j) == 0 { j } else { n - (elems.len() - j) }
}

/// The position of the field of `fields` named `m` (any one, as names are distinct).
pub open spec fn member_index(fields: Seq<Field>, m: Seq<char>) -> int {
    choose|i: int| 0 <= i < fields.len() && fields[i].name@ == m
}

/// Whether some field of `fields` is named `m`.
pub open spec fn has_member(fields: Seq<Field>, m: Seq<char>) -> bool {
    exists|i: int| 0 <= i < fields.len() && fields[i].name@ == m
}

/// Whether the kind and path of a structural pattern name the product kind
/// and name of the shape.
pub open spec fn kind_matches(shape: Shape, pat: Pattern) -> bool {
    match shape {
        Shape::Product { kind, name, .. } => match pat {
            Pattern::Tuple { .. } => kind == ProductKind::Tuple,
            Pattern::Slice { .. } => kind == ProductKind::Array,
            Pattern::TupleStruct { path, .. } => kind == ProductKind::TupleStruct && path@ == name@,
            Pattern::Struct { path, .. } => kind == ProductKind::Struct && path@ == name@,
            _ => false,
        },
        _ => false,
    }
}

/// What is wrong with a positional list of `elems` over `n` fields, before
/// looking at the elements themselves.
pub open spec fn positional_error(n: int, elems: Seq<Pattern>, disc: Discipline) -> Option<CompileError> {
    let rc = rests_before(elems, elems.len() as int);
    if rc > 1 {
        Some(CompileError::MisplacedRest)
    } else if rc == 0 && elems.len() != n {
        Some(CompileError::ShapeMismatch)
    } else if rc == 1 && elems.len() - 1 > n {
        Some(CompileError::ShapeMismatch)
    } else if rc == 1 && disc == Discipline::Move {
        Some(CompileError::RestUnderMove)
    } else {
        None
    }
}

/// What is wrong with the entries `fps` of a struct pattern over `fields`,
/// before looking at the entries' own patterns.
pub open spec fn struct_error(fields: Seq<Field>, fps: Seq<FieldPat>, rest: bool, disc: Discipline) -> Option<CompileError> {
    if exists|j: int| 0 <= j < fps.len() && !has_member(fields, #[trigger] fps[j].member@) {
        Some(CompileError::ShapeMismatch)
    } else if exists|i: int, j: int| 0 <= i < j < fps.len() && #[trigger] fps[i].member@ == #[trigger] fps[j].member@ {
        Some(CompileError::ShapeMismatch)
    } else if !rest && fps.len() != fields.len() {
        Some(CompileError::ShapeMismatch)
    } else if rest && disc == Discipline::Move {
        Some(CompileError::RestUnderMove)
    } else {
        None
    }
}

/// What is wrong with a structural pattern at its own node.
pub open spec fn node_error(shape: Shape, pat: Pattern, disc: Discipline) -> Option<CompileError> {
    match shape {
        Shape::Union { .. } => Some(CompileError::Union),
        Shape::Indirection { .. } => Some(CompileError::ThroughIndirection),
        Shape::Scalar { .. } => Some(CompileError::ShapeMismatch),
        Shape::Product { fields, .. } => if !kind_matches(shape, pat) {
            Some(CompileError::ShapeMismatch)
        } else {
            match pat {
                Pattern::Struct { fields: fps, rest, .. } => struct_error(fields@, fps@, rest, disc),
                Pattern::Tuple { elems } => positional_error(fields@.len() as int, elems@, disc),
                Pattern::Slice { elems } => positional_error(fields@.len() as int, elems@, disc),
                Pattern::TupleStruct { elems, .. } => positional_error(fields@.len() as int, elems@, disc),
                _ => None,
            }
        },
    }
}

/// The first error met when checking `pat` over `shape`, node by node in
/// the order the pattern is written; `None` when it is accepted.
pub open spec fn check(shape: Shape, pat: Pattern, disc: Discipline) -> Option<CompileError>
    decreases pat, 0nat,
{
    match pat {
        Pattern::Ident { by_ref, subpattern, .. } => if by_ref {
            Some(CompileError::RefBinding)
        } else if subpattern {
            Some(CompileError::Subpattern)
        } else {
            None
        },
        Pattern::Wild => None,
        Pattern::Rest => Some(CompileError::MisplacedRest),
        Pattern::Other => Some(CompileError::NotDestructuring),
        Pattern::Tuple { elems } => if node_error(shape, pat, disc) is Some {
            node_error(shape, pat, disc)
        } else {
            elems_check(shape.fields(), elems@, disc, elems@.len() as int)
        },
        Pattern::Slice { elems } => if node_error(shape, pat, disc) is Some {
            node_error(shape, pat, disc)
        } else {
            elems_check(shape.fields(), elems@, disc, elems@.len() as int)
        },
        Pattern::TupleStruct { elems, .. } => if node_error(shape, pat, disc) is Some {
            node_error(shape, pat, disc)
        } else {
            elems_check(shape.fields(), elems@, disc, elems@.len() as int)
        },
        Pattern::Struct { fields: fps, .. } => if node_error(shape, pat, disc) is Some {
            node_error(shape, pat, disc)
        } else {
            members_check(shape.fields(), fps@, disc, fps@.len() as int)
        },
    }
}

/// The first error among the `j` first elements of a positional list.
pub open spec fn elems_check(fields: Seq<Field>, elems: Seq<Pattern>, disc: Discipline, j: int) -> Option<CompileError>
    decreases elems, j,
{
    if j <= 0 || j > elems.len() {
        None
    } else if elems_check(fields, elems, disc, j - 1) is Some {
        elems_check(fields, elems, disc, j - 1)
    } else if elems[j - 1] is Rest {
        None
    } else {
        check(fields[pos_index(elems, fields.len() as int, j - 1)].shape, elems[j - 1], disc)
    }
}

/// The first error among the `j` first entries of a struct pattern.
pub open spec fn members_check(fields: Seq<Field>, fps: Seq<FieldPat>, disc: Discipline, j: int) -> Option<CompileError>
    decreases fps, j,
{
    if j <= 0 || j > fps.len() {
        None
    } else if members_check(fields, fps, disc, j - 1) is Some {
        members_check(fields, fps, disc, j - 1)
    } else {
        check(fields[member_index(fields, fps[j - 1].member@)].shape, fps[j - 1].pat, disc)
    }
}

/// The leaves that `pat` yields over `shape` placed at `base`, in the order
/// the pattern is written.
pub open spec fn leaves(shape: Shape, pat: Pattern, base: int) -> Seq<LeafModel>
    decreases pat, 0nat,
{
    match pat {
        Pattern::Ident { name, mutable, .. } => seq![LeafModel { name: Some(name@), mutable, offset: base, size: shape.size() as int }],
        Pattern::Wild => seq![LeafModel { name: None, mutable: false, offset: base, size: shape.size() as int }],
        Pattern::Tuple { elems } => elems_leaves(shape.fields(), elems@, base, elems@.len() as int),
        Pattern::Slice { elems } => elems_leaves(shape.fields(), elems@, base, elems@.len() as int),
        Pattern::TupleStruct { elems, .. } => elems_leaves(shape.fields(), elems@, base, elems@.len() as int),
        Pattern::Struct { fields: fps, .. } => members_leaves(shape.fields(), fps@, base, fps@.len() as int),
        _ => Seq::empty(),
    }
}

/// The leaves of the `j` first elements of a positional list.
pub open spec fn elems_leaves(fields: Seq<Field>, elems: Seq<Pattern>, base: int, j: int) -> Seq<LeafModel>
    decreases elems, j,
{
    if j <= 0 || j > elems.len() {
        Seq::empty()
    } else if elems[j - 1] is Rest {
        elems_leaves(fields, elems, base, j - 1)
    } else {
        let f = fields[pos_index(elems, fields.len() as int, j - 1)];
        elems_leaves(fields, elems, base, j - 1) + leaves(f.shape, elems[j - 1], base + f.offset)
    }
}

/// The leaves of the `j` first entries of a struct pattern.
pub open spec fn members_leaves(fields: Seq<Field>, fps: Seq<FieldPat>, base: int, j: int) -> Seq<LeafModel>
    decreases fps, j,
{
    if j <= 0 || j > fps.len() {
        Seq::empty()
    } else {
        let f = fields[member_index(fields, fps[j - 1].member@)];
        members_leaves(fields, fps, base, j - 1) + leaves(f.shape, fps[j - 1].pat, base + f.offset)
    }
}

} // verus!
