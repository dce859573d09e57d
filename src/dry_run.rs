//! The dry run: decides whether a pattern is accepted over a shape under a
//! discipline, without computing any address.
use vstd::prelude::*;
use crate::probe::IsReference;
use crate::layout::{find_field, Field, ProductKind, Shape};
use crate::pattern::{check, elems_check, has_member, member_index, members_check, node_error, pos_index, positional_error, rests_before, struct_error, CompileError, Discipline, FieldPat, Pattern};

verus! {

/// Counts the `..` among `elems`.
pub fn count_rests(elems: &Vec<Pattern>) -> (r: usize)
    ensures
        r == rests_before(elems@, elems@.len() as int),
{
    let mut c: usize = 0;
    let mut j: usize = 0;
    while j < elems.len()
        invariant
            j <= elems@.len(),
            c == rests_before(elems@, j as int),
            c <= j,
        decreases elems@.len() - j,
    {
        if let Pattern::Rest = &elems[j] {
            c = c + 1;
        }
        j = j + 1;
    }
    c
}

/// What is wrong with a positional list over `n` fields at its own node.
pub fn positional_check(n: usize, elems: &Vec<Pattern>, disc: Discipline) -> (r: Option<CompileError>)
    ensures
        r == positional_error(n as int, elems@, disc),
{
    let rc = count_rests(elems);
    if rc > 1 {
        Some(CompileError::MisplacedRest)
    } else if rc == 0 && elems.len() != n {
        Some(CompileError::ShapeMismatch)
    } else if rc == 1 && elems.len() - 1 > n {
        Some(CompileError::ShapeMismatch)
    } else if rc == 1 && disc == Discipline::Move {
        Some(CompileError::RestUnderMove)
    } else {
        None
    }
}

/// What is wrong with the entries of a struct pattern at its own node.
pub fn struct_check(fields: &Vec<Field>, fps: &Vec<FieldPat>, rest: bool, disc: Discipline) -> (r: Option<CompileError>)
    ensures
        r == struct_error(fields@, fps@, rest, disc),
{
    let mut j: usize = 0;
    while j < fps.len()
        invariant
            j <= fps@.len(),
            forall|k: int| 0 <= k < j ==> has_member(fields@, #[trigger] fps@[k].member@),
        decreases fps@.len() - j,
    {
        match find_field(fields, &fps[j].member) {
            Some(_) => {},
            None => {
                assert(!has_member(fields@, fps@[j as int].member@));
                return Some(CompileError::ShapeMismatch);
            },
        }
        j = j + 1;
    }
    let mut b: usize = 0;
    while b < fps.len()
        invariant
            b <= fps@.len(),
            forall|k: int| 0 <= k < fps@.len() ==> has_member(fields@, #[trigger] fps@[k].member@),
            forall|i: int, k: int| 0 <= i < k < b ==> #[trigger] fps@[i].member@ != #[trigger] fps@[k].member@,
        decreases fps@.len() - b,
    {
        let mut a: usize = 0;
        while a < b
            invariant
                a <= b < fps@.len(),
                forall|i: int| 0 <= i < a ==> #[trigger] fps@[i].member@ != fps@[b as int].member@,
            decreases b - a,
        {
            if fps[a].member == fps[b].member {
                assert(fps@[a as int].member@ == fps@[b as int].member@);
                return Some(CompileError::ShapeMismatch);
            }
            a = a + 1;
        }
        b = b + 1;
    }
    if !rest && fps.len() != fields.len() {
        Some(CompileError::ShapeMismatch)
    } else if rest && disc == Discipline::Move {
        Some(CompileError::RestUnderMove)
    } else {
        None
    }
}

/// What is wrong with a structural pattern at its own node.
pub fn node_check(shape: &Shape, pat: &Pattern, disc: Discipline) -> (r: Option<CompileError>)
    ensures
        r == node_error(*shape, *pat, disc),
{
    if let Err(_) = IsReference::for_ptr(shape).test() {
        return Some(CompileError::ThroughIndirection);
    }
    match shape {
        Shape::Union { .. } => Some(CompileError::Union),
        Shape::Indirection { .. } => Some(CompileError::ThroughIndirection),
        Shape::Scalar { .. } => Some(CompileError::ShapeMismatch),
        Shape::Product { kind, name, fields, .. } => match pat {
            Pattern::Tuple { elems } => if *kind != ProductKind::Tuple {
                Some(CompileError::ShapeMismatch)
            } else {
                positional_check(fields.len(), elems, disc)
            },
            Pattern::Slice { elems } => if *kind != ProductKind::Array {
                Some(CompileError::ShapeMismatch)
            } else {
                positional_check(fields.len(), elems, disc)
            },
            Pattern::TupleStruct { path, elems } => if *kind != ProductKind::TupleStruct || *path != *name {
                Some(CompileError::ShapeMismatch)
            } else {
                positional_check(fields.len(), elems, disc)
            },
            Pattern::Struct { path, fields: fps, rest } => if *kind != ProductKind::Struct || *path != *name {
                Some(CompileError::ShapeMismatch)
            } else {
                struct_check(fields, fps, *rest, disc)
            },
            _ => Some(CompileError::ShapeMismatch),
        },
    }
}

/// `..` counts never exceed the stretch they are counted over.
pub proof fn lemma_rests_bounded(elems: Seq<Pattern>, a: int, b: int)
    requires
        0 <= a <= b,
    ensures
        rests_before(elems, a) <= rests_before(elems, b),
        rests_before(elems, b) - rests_before(elems, a) <= b - a,
    decreases b - a,
{
    if a < b {
        lemma_rests_bounded(elems, a, b - 1);
    }
}

/// Once an error is met among the first elements, it stays the first error.
pub proof fn lemma_elems_check_stable(fields: Seq<Field>, elems: Seq<Pattern>, disc: Discipline, a: int, b: int)
    requires
        0 < a <= b <= elems.len(),
        elems_check(fields, elems, disc, a) is Some,
    ensures
        elems_check(fields, elems, disc, b) == elems_check(fields, elems, disc, a),
    decreases b - a,
{
    if a < b {
        lemma_elems_check_stable(fields, elems, disc, a, b - 1);
    }
}

/// Once an error is met among the first entries, it stays the first error.
pub proof fn lemma_members_check_stable(fields: Seq<Field>, fps: Seq<FieldPat>, disc: Discipline, a: int, b: int)
    requires
        0 < a <= b <= fps.len(),
        members_check(fields, fps, disc, a) is Some,
    ensures
        members_check(fields, fps, disc, b) == members_check(fields, fps, disc, a),
    decreases b - a,
{
    if a < b {
        lemma_members_check_stable(fields, fps, disc, a, b - 1);
    }
}

/// Within a list that passed its node check, every element but `..`
/// selects an existing field.
pub proof fn lemma_pos_index_in_range(elems: Seq<Pattern>, n: int, disc: Discipline, j: int)
    requires
        positional_error(n, elems, disc) is None,
        0 <= j < elems.len(),
        !(elems[j] is Rest),
    ensures
        0 <= pos_index(elems, n, j) < n,
{
    let len = elems.len() as int;
    lemma_rests_bounded(elems, 0, j);
    lemma_rests_bounded(elems, j + 1, len);
    lemma_rests_bounded(elems, j, len);
    assert(rests_before(elems, j + 1) == rests_before(elems, j));
    if rests_before(elems, j) > 0 {
        lemma_rests_bounded(elems, 0, j);
    }
}

/// The dry run over the elements of a positional list whose node check passed.
fn elems_dry_run(fields: &Vec<Field>, elems: &Vec<Pattern>, disc: Discipline) -> (r: Option<CompileError>)
    requires
        positional_error(fields@.len() as int, elems@, disc) is None,
        forall|i: int| 0 <= i < fields@.len() ==> (#[trigger] fields@[i]).shape.wf(),
    ensures
        r == elems_check(fields@, elems@, disc, elems@.len() as int),
    decreases elems@, 1nat,
{
    let n = fields.len();
    let len = elems.len();
    let mut seen: usize = 0;
    let mut j: usize = 0;
    while j < len
        invariant
            len == elems@.len(),
            n == fields@.len(),
            positional_error(n as int, elems@, disc) is None,
            forall|i: int| 0 <= i < fields@.len() ==> (#[trigger] fields@[i]).shape.wf(),
            j <= len,
            seen == rests_before(elems@, j as int),
            elems_check(fields@, elems@, disc, j as int) is None,
        decreases len - j,
    {
        proof {
            lemma_rests_bounded(elems@, j as int, len as int);
            lemma_rests_bounded(elems@, 0, j as int);
        }
        if let Pattern::Rest = &elems[j] {
            seen = seen + 1;
        } else {
            proof { lemma_pos_index_in_range(elems@, n as int, disc, j as int); }
            let idx = if seen == 0 { j } else { n - (len - j) };
            let e = dry_run(&fields[idx].shape, &elems[j], disc);
            if e.is_some() {
                proof { lemma_elems_check_stable(fields@, elems@, disc, j + 1, len as int); }
                return e;
            }
        }
        j = j + 1;
    }
    None
}

/// The dry run over the entries of a struct pattern whose node check passed.
fn members_dry_run(shape: &Shape, fps: &Vec<FieldPat>, disc: Discipline) -> (r: Option<CompileError>)
    requires
        shape.wf(),
        shape matches Shape::Product { kind, .. } && kind == ProductKind::Struct,
        forall|k: int| 0 <= k < fps@.len() ==> has_member(shape.fields(), #[trigger] fps@[k].member@),
    ensures
        r == members_check(shape.fields(), fps@, disc, fps@.len() as int),
    decreases fps@, 1nat,
{
    let fields = match shape {
        Shape::Product { fields, .. } => fields,
        _ => { return None; },
    };
    let mut j: usize = 0;
    while j < fps.len()
        invariant
            j <= fps@.len(),
            shape.wf(),
            shape matches Shape::Product { kind, .. } && kind == ProductKind::Struct,
            fields@ == shape.fields(),
            forall|k: int| 0 <= k < fps@.len() ==> has_member(shape.fields(), #[trigger] fps@[k].member@),
            members_check(fields@, fps@, disc, j as int) is None,
        decreases fps@.len() - j,
    {
        let idx = match find_field(fields, &fps[j].member) {
            Some(i) => i,
            None => { return None; },
        };
        proof { lemma_member_index(*shape, fps@[j as int].member@, idx as int); }
        let e = dry_run(&fields[idx].shape, &fps[j].pat, disc);
        if e.is_some() {
            proof { lemma_members_check_stable(fields@, fps@, disc, j + 1, fps@.len() as int); }
            return e;
        }
        j = j + 1;
    }
    None
}

/// In a struct, the field found by name is the one `member_index` names.
pub proof fn lemma_member_index(shape: Shape, m: Seq<char>, i: int)
    requires
        shape.wf(),
        shape matches Shape::Product { kind, .. } && kind == ProductKind::Struct,
        0 <= i < shape.fields().len(),
        shape.fields()[i].name@ == m,
    ensures
        member_index(shape.fields(), m) == i,
{
    let fields = shape.fields();
    assert(has_member(fields, m));
    let k = member_index(fields, m);
    if k != i {
        if k < i {
            assert(fields[k].name@ != fields[i].name@);
        } else {
            assert(fields[i].name@ != fields[k].name@);
        }
    }
}

/// Decides whether `pat` is accepted over `shape` under `disc`, and with
/// which error it is refused, without computing any address. Whether a
/// binding is written `mut` plays no part in the decision.
pub fn dry_run(shape: &Shape, pat: &Pattern, disc: Discipline) -> (r: Option<CompileError>)
    requires
        shape.wf(),
    ensures
        r == check(*shape, *pat, disc),
    decreases pat, 0nat,
{
    match pat {
        Pattern::Ident { by_ref, subpattern, .. } => if *by_ref {
            Some(CompileError::RefBinding)
        } else if *subpattern {
            Some(CompileError::Subpattern)
        } else {
            None
        },
        Pattern::Wild => None,
        Pattern::Rest => Some(CompileError::MisplacedRest),
        Pattern::Other => Some(CompileError::NotDestructuring),
        Pattern::Tuple { elems } | Pattern::Slice { elems } | Pattern::TupleStruct { elems, .. } => {
            let e = node_check(shape, pat, disc);
            if e.is_some() {
                return e;
            }
            match shape {
                Shape::Product { fields, .. } => elems_dry_run(fields, elems, disc),
                _ => None,
            }
        },
        Pattern::Struct { fields: fps, .. } => {
            let e = node_check(shape, pat, disc);
            if e.is_some() {
                return e;
            }
            members_dry_run(shape, fps, disc)
        },
    }
}

} // verus!
