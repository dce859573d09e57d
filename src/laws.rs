//! What holds of every compiled pattern.
use vstd::prelude::*;
use crate::dry_run::{lemma_elems_check_stable, lemma_members_check_stable, lemma_rests_bounded, lemma_pos_index_in_range};
use crate::layout::{Field, ProductKind, Shape};
use crate::compile::root_check;
use crate::dry_run::lemma_member_index;
use crate::pattern::{check, kind_matches, node_error, CompileError, elems_check, elems_leaves, has_member, leaves, member_index, members_check, members_leaves, pos_index, positional_error, rests_before, struct_error, Discipline, FieldPat, LeafModel, Pattern};

verus! {

/// Two extents share no byte.
pub open spec fn apart(a: LeafModel, b: LeafModel) -> bool {
    a.offset + a.size <= b.offset || b.offset + b.size <= a.offset
}

/// An extent lies within `[lo, hi)`.
pub open spec fn inside(l: LeafModel, lo: int, hi: int) -> bool {
    lo <= l.offset && l.offset + l.size <= hi
}

/// No two leaves of `s` share a byte.
pub open spec fn pairwise_apart(s: Seq<LeafModel>) -> bool {
    forall|i: int, j: int| 0 <= i < j < s.len() ==> apart(#[trigger] s[i], #[trigger] s[j])
}

/// Every leaf of `s` lies within `[lo, hi)`.
pub open spec fn all_inside(s: Seq<LeafModel>, lo: int, hi: int) -> bool {
    forall|i: int| 0 <= i < s.len() ==> inside(#[trigger] s[i], lo, hi)
}

/// The extent of field `q` of a product placed at `base`.
pub open spec fn field_extent(fields: Seq<Field>, q: int, base: int) -> LeafModel {
    LeafModel { name: None, mutable: false, offset: base + fields[q].offset, size: fields[q].shape.size() as int }
}

/// Elements of an accepted positional list select fields in increasing order.
proof fn lemma_pos_index_increasing(elems: Seq<Pattern>, n: int, disc: Discipline, j: int, k: int)
    requires
        positional_error(n, elems, disc) is None,
        0 <= j < k < elems.len(),
        !(elems[j] is Rest),
        !(elems[k] is Rest),
    ensures
        pos_index(elems, n, j) < pos_index(elems, n, k),
{
    let len = elems.len() as int;
    lemma_rests_bounded(elems, j, k);
    lemma_rests_bounded(elems, j + 1, k);
    lemma_rests_bounded(elems, 0, j);
    lemma_rests_bounded(elems, k, len);
    assert(rests_before(elems, j + 1) == rests_before(elems, j));
}

/// Distinct fields of a laid-out product occupy disjoint extents.
proof fn lemma_fields_apart(shape: Shape, p: int, q: int, base: int)
    requires
        shape.wf(),
        shape.is_product(),
        0 <= p < shape.fields().len(),
        0 <= q < shape.fields().len(),
        p != q,
    ensures
        apart(field_extent(shape.fields(), p, base), field_extent(shape.fields(), q, base)),
{
    let fields = shape.fields();
    if p < q {
        assert(fields[p].offset + fields[p].shape.size() <= fields[q].offset);
    } else {
        assert(fields[q].offset + fields[q].shape.size() <= fields[p].offset);
    }
}

/// A field of a laid-out product lies within it.
proof fn lemma_field_inside(shape: Shape, q: int)
    requires
        shape.wf(),
        shape.is_product(),
        0 <= q < shape.fields().len(),
    ensures
        shape.fields()[q].offset + shape.fields()[q].shape.size() <= shape.size(),
        shape.fields()[q].shape.wf(),
{
}

/// The leaves of an accepted pattern share no byte and lie within the value
/// the pattern is matched against.
pub proof fn lemma_leaves_apart(shape: Shape, pat: Pattern, disc: Discipline, base: int)
    requires
        shape.wf(),
        check(shape, pat, disc) is None,
    ensures
        pairwise_apart(leaves(shape, pat, base)),
        all_inside(leaves(shape, pat, base), base, base + shape.size()),
    decreases pat, 0nat,
{
    match pat {
        Pattern::Tuple { elems } => {
            lemma_elems_apart(shape, elems@, disc, base, elems@.len() as int);
        },
        Pattern::Slice { elems } => {
            lemma_elems_apart(shape, elems@, disc, base, elems@.len() as int);
        },
        Pattern::TupleStruct { elems, .. } => {
            lemma_elems_apart(shape, elems@, disc, base, elems@.len() as int);
        },
        Pattern::Struct { fields: fps, .. } => {
            lemma_members_apart(shape, fps@, disc, base, fps@.len() as int);
        },
        _ => {},
    }
}

proof fn lemma_elems_apart(shape: Shape, elems: Seq<Pattern>, disc: Discipline, base: int, j: int)
    requires
        shape.wf(),
        shape.is_product(),
        positional_error(shape.fields().len() as int, elems, disc) is None,
        elems_check(shape.fields(), elems, disc, elems.len() as int) is None,
        0 <= j <= elems.len(),
    ensures
        ({
            let ls = elems_leaves(shape.fields(), elems, base, j);
            let n = shape.fields().len() as int;
            &&& pairwise_apart(ls)
            &&& all_inside(ls, base, base + shape.size())
            &&& forall|k: int, i: int| j <= k < elems.len() && !(elems[k] is Rest) && 0 <= i < ls.len()
                ==> apart(#[trigger] ls[i], #[trigger] field_extent(shape.fields(), pos_index(elems, n, k), base))
        }),
    decreases elems, j,
{
    let fields = shape.fields();
    let n = fields.len() as int;
    let len = elems.len() as int;
    if j > 0 {
        lemma_elems_apart(shape, elems, disc, base, j - 1);
        let prev = elems_leaves(fields, elems, base, j - 1);
        if !(elems[j - 1] is Rest) {
            lemma_pos_index_in_range(elems, n, disc, j - 1);
            let q = pos_index(elems, n, j - 1);
            let f = fields[q];
            lemma_field_inside(shape, q);
            if elems_check(fields, elems, disc, j) is Some {
                lemma_elems_check_stable(fields, elems, disc, j, len);
            }
            if j > 1 && elems_check(fields, elems, disc, j - 1) is Some {
                lemma_elems_check_stable(fields, elems, disc, j - 1, j);
            }
            lemma_leaves_apart(f.shape, elems[j - 1], disc, base + f.offset);
            let g = leaves(f.shape, elems[j - 1], base + f.offset);
            let ls = prev + g;
            assert(ls == elems_leaves(fields, elems, base, j));
            let ext = field_extent(fields, q, base);
            assert forall|a: int, b: int| 0 <= a < b < ls.len() implies apart(#[trigger] ls[a], #[trigger] ls[b]) by {
                if b >= prev.len() && a < prev.len() {
                    assert(apart(prev[a], ext));
                    assert(inside(g[b - prev.len()], base + f.offset, base + f.offset + f.shape.size()));
                } else if a >= prev.len() {
                    assert(apart(g[a - prev.len()], g[b - prev.len()]));
                }
            }
            assert forall|i: int| 0 <= i < ls.len() implies inside(#[trigger] ls[i], base, base + shape.size()) by {
                if i >= prev.len() {
                    assert(inside(g[i - prev.len()], base + f.offset, base + f.offset + f.shape.size()));
                }
            }
            assert forall|k: int, i: int| j <= k < elems.len() && !(elems[k] is Rest) && 0 <= i < ls.len()
                implies apart(#[trigger] ls[i], #[trigger] field_extent(fields, pos_index(elems, n, k), base)) by {
                lemma_pos_index_in_range(elems, n, disc, k);
                lemma_pos_index_increasing(elems, n, disc, j - 1, k);
                let qk = pos_index(elems, n, k);
                lemma_fields_apart(shape, q, qk, base);
                if i >= prev.len() {
                    assert(inside(g[i - prev.len()], base + f.offset, base + f.offset + f.shape.size()));
                } else {
                    assert(apart(prev[i], field_extent(fields, qk, base)));
                }
            }
        } else {
            assert(prev == elems_leaves(fields, elems, base, j));
        }
    }
}

proof fn lemma_members_apart(shape: Shape, fps: Seq<FieldPat>, disc: Discipline, base: int, j: int)
    requires
        shape.wf(),
        shape matches Shape::Product { kind, .. } && kind == ProductKind::Struct,
        struct_error(shape.fields(), fps, false, disc) is None || struct_error(shape.fields(), fps, true, disc) is None,
        members_check(shape.fields(), fps, disc, fps.len() as int) is None,
        0 <= j <= fps.len(),
    ensures
        ({
            let ls = members_leaves(shape.fields(), fps, base, j);
            &&& pairwise_apart(ls)
            &&& all_inside(ls, base, base + shape.size())
            &&& forall|k: int, i: int| j <= k < fps.len() && 0 <= i < ls.len()
                ==> apart(#[trigger] ls[i], #[trigger] field_extent(shape.fields(), member_index(shape.fields(), fps[k].member@), base))
        }),
    decreases fps, j,
{
    let fields = shape.fields();
    let len = fps.len() as int;
    if j > 0 {
        lemma_members_apart(shape, fps, disc, base, j - 1);
        let prev = members_leaves(fields, fps, base, j - 1);
        assert(has_member(fields, fps[j - 1].member@));
        let q = member_index(fields, fps[j - 1].member@);
        let f = fields[q];
        lemma_field_inside(shape, q);
        if members_check(fields, fps, disc, j) is Some {
            lemma_members_check_stable(fields, fps, disc, j, len);
        }
        if j > 1 && members_check(fields, fps, disc, j - 1) is Some {
            lemma_members_check_stable(fields, fps, disc, j - 1, j);
        }
        lemma_leaves_apart(f.shape, fps[j - 1].pat, disc, base + f.offset);
        let g = leaves(f.shape, fps[j - 1].pat, base + f.offset);
        let ls = prev + g;
        assert(ls == members_leaves(fields, fps, base, j));
        let ext = field_extent(fields, q, base);
        assert forall|a: int, b: int| 0 <= a < b < ls.len() implies apart(#[trigger] ls[a], #[trigger] ls[b]) by {
            if b >= prev.len() && a < prev.len() {
                assert(apart(prev[a], ext));
                assert(inside(g[b - prev.len()], base + f.offset, base + f.offset + f.shape.size()));
            } else if a >= prev.len() {
                assert(apart(g[a - prev.len()], g[b - prev.len()]));
            }
        }
        assert forall|i: int| 0 <= i < ls.len() implies inside(#[trigger] ls[i], base, base + shape.size()) by {
            if i >= prev.len() {
                assert(inside(g[i - prev.len()], base + f.offset, base + f.offset + f.shape.size()));
            }
        }
        assert forall|k: int, i: int| j <= k < fps.len() && 0 <= i < ls.len()
            implies apart(#[trigger] ls[i], #[trigger] field_extent(fields, member_index(fields, fps[k].member@), base)) by {
            assert(has_member(fields, fps[k].member@));
            let qk = member_index(fields, fps[k].member@);
            assert(fps[j - 1].member@ != fps[k].member@);
            lemma_fields_apart(shape, q, qk, base);
            if i >= prev.len() {
                assert(inside(g[i - prev.len()], base + f.offset, base + f.offset + f.shape.size()));
            } else {
                assert(apart(prev[i], field_extent(fields, qk, base)));
            }
        }
    }
}

/// Whether `pat` holds a `..` anywhere.
pub open spec fn has_rest(pat: Pattern) -> bool
    decreases pat, 0nat,
{
    match pat {
        Pattern::Rest => true,
        Pattern::Tuple { elems } => rests_before(elems@, elems@.len() as int) > 0 || elems_have_rest(elems@, elems@.len() as int),
        Pattern::Slice { elems } => rests_before(elems@, elems@.len() as int) > 0 || elems_have_rest(elems@, elems@.len() as int),
        Pattern::TupleStruct { elems, .. } => rests_before(elems@, elems@.len() as int) > 0 || elems_have_rest(elems@, elems@.len() as int),
        Pattern::Struct { fields: fps, rest, .. } => rest || members_have_rest(fps@, fps@.len() as int),
        _ => false,
    }
}

/// Whether one of the `j` first elements, other than a `..` itself, holds a `..`.
pub open spec fn elems_have_rest(elems: Seq<Pattern>, j: int) -> bool
    decreases elems, j,
{
    if j <= 0 || j > elems.len() {
        false
    } else {
        elems_have_rest(elems, j - 1) || (!(elems[j - 1] is Rest) && has_rest(elems[j - 1]))
    }
}

/// Whether the pattern of one of the `j` first entries holds a `..`.
pub open spec fn members_have_rest(fps: Seq<FieldPat>, j: int) -> bool
    decreases fps, j,
{
    if j <= 0 || j > fps.len() {
        false
    } else {
        members_have_rest(fps, j - 1) || has_rest(fps[j - 1].pat)
    }
}

/// A pattern holding `..` is accepted under `Borrow` only: under `Move` it is
/// always refused, and where `Borrow` accepts it, `Move` refuses it for that
/// `..`. A pattern without `..` gets the same answer under both.
pub proof fn lemma_rest_needs_borrow(shape: Shape, pat: Pattern)
    requires
        shape.wf(),
    ensures
        has_rest(pat) ==> check(shape, pat, Discipline::Move) is Some,
        has_rest(pat) && check(shape, pat, Discipline::Borrow) is None
            ==> check(shape, pat, Discipline::Move) == Some(CompileError::RestUnderMove),
        !has_rest(pat) ==> check(shape, pat, Discipline::Move) == check(shape, pat, Discipline::Borrow),
    decreases pat, 0nat,
{
    match pat {
        Pattern::Tuple { elems } => {
            if node_error(shape, pat, Discipline::Borrow) is None && shape.is_product() {
                lemma_elems_rest(shape, elems@, elems@.len() as int);
            }
        },
        Pattern::Slice { elems } => {
            if node_error(shape, pat, Discipline::Borrow) is None && shape.is_product() {
                lemma_elems_rest(shape, elems@, elems@.len() as int);
            }
        },
        Pattern::TupleStruct { elems, .. } => {
            if node_error(shape, pat, Discipline::Borrow) is None && shape.is_product() {
                lemma_elems_rest(shape, elems@, elems@.len() as int);
            }
        },
        Pattern::Struct { fields: fps, .. } => {
            if node_error(shape, pat, Discipline::Borrow) is None && shape.is_product() {
                lemma_members_rest(shape, fps@, fps@.len() as int);
            }
        },
        _ => {},
    }
}

proof fn lemma_elems_rest(shape: Shape, elems: Seq<Pattern>, j: int)
    requires
        shape.wf(),
        shape.is_product(),
        positional_error(shape.fields().len() as int, elems, Discipline::Borrow) is None,
        0 <= j <= elems.len(),
    ensures
        ({
            let fs = shape.fields();
            let hr = elems_have_rest(elems, j);
            &&& !hr ==> elems_check(fs, elems, Discipline::Move, j) == elems_check(fs, elems, Discipline::Borrow, j)
            &&& hr ==> elems_check(fs, elems, Discipline::Move, j) is Some
            &&& hr && elems_check(fs, elems, Discipline::Borrow, j) is None
                ==> elems_check(fs, elems, Discipline::Move, j) == Some(CompileError::RestUnderMove)
        }),
    decreases elems, j,
{
    if j > 0 {
        lemma_elems_rest(shape, elems, j - 1);
        if !(elems[j - 1] is Rest) {
            lemma_pos_index_in_range(elems, shape.fields().len() as int, Discipline::Borrow, j - 1);
            let f = shape.fields()[pos_index(elems, shape.fields().len() as int, j - 1)];
            lemma_rest_needs_borrow(f.shape, elems[j - 1]);
        }
    }
}

proof fn lemma_members_rest(shape: Shape, fps: Seq<FieldPat>, j: int)
    requires
        shape.wf(),
        shape.is_product(),
        forall|k: int| 0 <= k < fps.len() ==> has_member(shape.fields(), #[trigger] fps[k].member@),
        0 <= j <= fps.len(),
    ensures
        ({
            let fs = shape.fields();
            let hr = members_have_rest(fps, j);
            &&& !hr ==> members_check(fs, fps, Discipline::Move, j) == members_check(fs, fps, Discipline::Borrow, j)
            &&& hr ==> members_check(fs, fps, Discipline::Move, j) is Some
            &&& hr && members_check(fs, fps, Discipline::Borrow, j) is None
                ==> members_check(fs, fps, Discipline::Move, j) == Some(CompileError::RestUnderMove)
        }),
    decreases fps, j,
{
    if j > 0 {
        lemma_members_rest(shape, fps, j - 1);
        let fs = shape.fields();
        assert(has_member(fs, fps[j - 1].member@));
        let f = fs[member_index(fs, fps[j - 1].member@)];
        lemma_rest_needs_borrow(f.shape, fps[j - 1].pat);
    }
}

/// A pattern over a union is never accepted: as the root of a projection a
/// union is refused whatever the pattern, and no structural pattern selects
/// into one anywhere.
pub proof fn lemma_union_refused(shape: Shape, pat: Pattern, disc: Discipline)
    requires
        shape is Union,
    ensures
        root_check(shape, pat, disc) == Some(CompileError::Union),
        pat is Tuple || pat is Slice || pat is TupleStruct || pat is Struct ==> check(shape, pat, disc) == Some(CompileError::Union),
{
}

/// A binding or `_` with nothing more to it.
pub open spec fn is_plain_binding(p: Pattern) -> bool {
    match p {
        Pattern::Ident { by_ref, subpattern, .. } => !by_ref && !subpattern,
        Pattern::Wild => true,
        _ => false,
    }
}

/// `pat` names every field of the product `shape` once, in declaration order,
/// each with a plain binding or `_`.
pub open spec fn mirrors(shape: Shape, pat: Pattern) -> bool {
    let fs = shape.fields();
    &&& kind_matches(shape, pat)
    &&& match pat {
        Pattern::Tuple { elems } => elems@.len() == fs.len() && forall|i: int| 0 <= i < elems@.len() ==> is_plain_binding(#[trigger] elems@[i]),
        Pattern::Slice { elems } => elems@.len() == fs.len() && forall|i: int| 0 <= i < elems@.len() ==> is_plain_binding(#[trigger] elems@[i]),
        Pattern::TupleStruct { elems, .. } => elems@.len() == fs.len() && forall|i: int| 0 <= i < elems@.len() ==> is_plain_binding(#[trigger] elems@[i]),
        Pattern::Struct { fields: fps, rest, .. } => {
            &&& !rest
            &&& fps@.len() == fs.len()
            &&& forall|i: int| 0 <= i < fps@.len() ==> (#[trigger] fps@[i]).member@ == fs[i].name@ && is_plain_binding(fps@[i].pat)
        },
        _ => false,
    }
}

proof fn lemma_plain_elems(shape: Shape, elems: Seq<Pattern>, disc: Discipline, base: int, j: int)
    requires
        shape.wf(),
        shape.is_product(),
        elems.len() == shape.fields().len(),
        forall|i: int| 0 <= i < elems.len() ==> is_plain_binding(#[trigger] elems[i]),
        0 <= j <= elems.len(),
    ensures
        rests_before(elems, j) == 0,
        elems_check(shape.fields(), elems, disc, j) is None,
        elems_leaves(shape.fields(), elems, base, j).len() == j,
        forall|i: int| 0 <= i < j ==> (#[trigger] elems_leaves(shape.fields(), elems, base, j)[i]).offset == base + shape.fields()[i].offset
            && elems_leaves(shape.fields(), elems, base, j)[i].size == shape.fields()[i].shape.size(),
    decreases j,
{
    if j > 0 {
        lemma_plain_elems(shape, elems, disc, base, j - 1);
        assert(is_plain_binding(elems[j - 1]));
        let n = shape.fields().len() as int;
        let f = shape.fields()[j - 1];
        assert(pos_index(elems, n, j - 1) == j - 1);
        assert(check(f.shape, elems[j - 1], disc) is None);
        let g = leaves(f.shape, elems[j - 1], base + f.offset);
        assert(g.len() == 1 && g[0].offset == base + f.offset && g[0].size == f.shape.size());
        let prev = elems_leaves(shape.fields(), elems, base, j - 1);
        let ls = elems_leaves(shape.fields(), elems, base, j);
        assert forall|i: int| 0 <= i < j implies (#[trigger] ls[i]).offset == base + shape.fields()[i].offset
            && ls[i].size == shape.fields()[i].shape.size() by {
            if i < j - 1 {
                assert(ls[i] == prev[i]);
            }
        }
    }
}

proof fn lemma_plain_members(shape: Shape, fps: Seq<FieldPat>, disc: Discipline, base: int, j: int)
    requires
        shape.wf(),
        shape matches Shape::Product { kind, .. } && kind == ProductKind::Struct,
        fps.len() == shape.fields().len(),
        forall|i: int| 0 <= i < fps.len() ==> (#[trigger] fps[i]).member@ == shape.fields()[i].name@ && is_plain_binding(fps[i].pat),
        0 <= j <= fps.len(),
    ensures
        members_check(shape.fields(), fps, disc, j) is None,
        members_leaves(shape.fields(), fps, base, j).len() == j,
        forall|i: int| 0 <= i < j ==> (#[trigger] members_leaves(shape.fields(), fps, base, j)[i]).offset == base + shape.fields()[i].offset
            && members_leaves(shape.fields(), fps, base, j)[i].size == shape.fields()[i].shape.size(),
    decreases j,
{
    if j > 0 {
        lemma_plain_members(shape, fps, disc, base, j - 1);
        assert(fps[j - 1].member@ == shape.fields()[j - 1].name@);
        lemma_member_index(shape, fps[j - 1].member@, j - 1);
        let f = shape.fields()[j - 1];
        assert(is_plain_binding(fps[j - 1].pat));
        assert(check(f.shape, fps[j - 1].pat, disc) is None);
        let g = leaves(f.shape, fps[j - 1].pat, base + f.offset);
        assert(g.len() == 1 && g[0].offset == base + f.offset && g[0].size == f.shape.size());
        let prev = members_leaves(shape.fields(), fps, base, j - 1);
        let ls = members_leaves(shape.fields(), fps, base, j);
        assert forall|i: int| 0 <= i < j implies (#[trigger] ls[i]).offset == base + shape.fields()[i].offset
            && ls[i].size == shape.fields()[i].shape.size() by {
            if i < j - 1 {
                assert(ls[i] == prev[i]);
            }
        }
    }
}

/// A pattern that names every field of a product once, in order, with a
/// plain binding is accepted under either discipline, and yields one leaf
/// per field, at that field's offset and with its size.
pub proof fn lemma_shape_fidelity(shape: Shape, pat: Pattern, disc: Discipline, base: int)
    requires
        shape.wf(),
        mirrors(shape, pat),
    ensures
        check(shape, pat, disc) is None,
        leaves(shape, pat, base).len() == shape.fields().len(),
        forall|i: int| 0 <= i < shape.fields().len() ==> (#[trigger] leaves(shape, pat, base)[i]).offset == base + shape.fields()[i].offset
            && leaves(shape, pat, base)[i].size == shape.fields()[i].shape.size(),
{
    let fs = shape.fields();
    match pat {
        Pattern::Tuple { elems } => {
            lemma_plain_elems(shape, elems@, disc, base, elems@.len() as int);
        },
        Pattern::Slice { elems } => {
            lemma_plain_elems(shape, elems@, disc, base, elems@.len() as int);
        },
        Pattern::TupleStruct { elems, .. } => {
            lemma_plain_elems(shape, elems@, disc, base, elems@.len() as int);
        },
        Pattern::Struct { fields: fps, .. } => {
            lemma_plain_members(shape, fps@, disc, base, fps@.len() as int);
            assert forall|j: int| 0 <= j < fps@.len() implies has_member(fs, #[trigger] fps@[j].member@) by {
                assert(fs[j].name@ == fps@[j].member@);
            }
            assert forall|a: int, b: int| 0 <= a < b < fps@.len() implies #[trigger] fps@[a].member@ != #[trigger] fps@[b].member@ by {
                assert(fps@[a].member@ == fs[a].name@);
                assert(fps@[b].member@ == fs[b].name@);
            }
        },
        _ => {},
    }
}

/// The elements of a positional pattern; empty for any other pattern.
pub open spec fn elems_of(p: Pattern) -> Seq<Pattern> {
    match p {
        Pattern::Tuple { elems } => elems@,
        Pattern::Slice { elems } => elems@,
        Pattern::TupleStruct { elems, .. } => elems@,
        _ => Seq::empty(),
    }
}

/// Two positional patterns of the same kind and path.
pub open spec fn same_head(p: Pattern, q: Pattern) -> bool {
    match (p, q) {
        (Pattern::Tuple { .. }, Pattern::Tuple { .. }) => true,
        (Pattern::Slice { .. }, Pattern::Slice { .. }) => true,
        (Pattern::TupleStruct { path: a, .. }, Pattern::TupleStruct { path: b, .. }) => a@ == b@,
        _ => false,
    }
}

proof fn lemma_same_rests(e1: Seq<Pattern>, e2: Seq<Pattern>, k: int, j: int)
    requires
        e1.len() == e2.len(),
        0 <= k < e1.len(),
        !(e1[k] is Rest),
        !(e2[k] is Rest),
        forall|i: int| 0 <= i < e1.len() && i != k ==> e1[i] == e2[i],
        0 <= j <= e1.len(),
    ensures
        rests_before(e1, j) == rests_before(e2, j),
    decreases j,
{
    if j > 0 {
        lemma_same_rests(e1, e2, k, j - 1);
    }
}

proof fn lemma_prefix_leaves(fields: Seq<Field>, e1: Seq<Pattern>, e2: Seq<Pattern>, k: int, base: int, j: int)
    requires
        e1.len() == e2.len(),
        0 <= k < e1.len(),
        !(e1[k] is Rest),
        !(e2[k] is Rest),
        forall|i: int| 0 <= i < e1.len() && i != k ==> e1[i] == e2[i],
        0 <= j <= k,
    ensures
        elems_leaves(fields, e1, base, j) == elems_leaves(fields, e2, base, j),
    decreases j,
{
    if j > 0 {
        lemma_prefix_leaves(fields, e1, e2, k, base, j - 1);
        lemma_same_rests(e1, e2, k, j - 1);
    }
}

proof fn lemma_suffix_leaves(fields: Seq<Field>, e1: Seq<Pattern>, e2: Seq<Pattern>, k: int, base: int, j: int)
    requires
        e1.len() == e2.len(),
        0 <= k < e1.len(),
        e1[k] is Ident,
        !(e2[k] is Rest),
        forall|i: int| 0 <= i < e1.len() && i != k ==> e1[i] == e2[i],
        k < j <= e1.len(),
    ensures
        ({
            let p = elems_leaves(fields, e1, base, k);
            let m = p.len() as int;
            let f = fields[pos_index(e1, fields.len() as int, k)];
            let l1 = elems_leaves(fields, e1, base, j);
            &&& l1.len() > m
            &&& l1.take(m) == p
            &&& l1[m].offset == base + f.offset
            &&& l1[m].size == f.shape.size()
            &&& elems_leaves(fields, e2, base, j) == p + leaves(f.shape, e2[k], base + f.offset) + l1.skip(m + 1)
        }),
    decreases j,
{
    let p = elems_leaves(fields, e1, base, k);
    let m = p.len() as int;
    let n = fields.len() as int;
    let f = fields[pos_index(e1, n, k)];
    lemma_same_rests(e1, e2, k, k);
    if j == k + 1 {
        lemma_prefix_leaves(fields, e1, e2, k, base, k);
        let l1 = elems_leaves(fields, e1, base, j);
        let b = leaves(f.shape, e1[k], base + f.offset);
        assert(b.len() == 1);
        assert(l1 == p + b);
        assert(l1.take(m) =~= p);
        assert(l1.skip(m + 1) =~= Seq::<LeafModel>::empty());
        assert(elems_leaves(fields, e2, base, j) =~= p + leaves(f.shape, e2[k], base + f.offset) + l1.skip(m + 1));
    } else {
        lemma_suffix_leaves(fields, e1, e2, k, base, j - 1);
        lemma_same_rests(e1, e2, k, j - 1);
        let l0 = elems_leaves(fields, e1, base, j - 1);
        let l1 = elems_leaves(fields, e1, base, j);
        if !(e1[j - 1] is Rest) {
            let g = leaves(fields[pos_index(e1, n, j - 1)].shape, e1[j - 1], base + fields[pos_index(e1, n, j - 1)].offset);
            assert(l1 == l0 + g);
            assert(l1.take(m) =~= l0.take(m));
            assert(l1.skip(m + 1) =~= l0.skip(m + 1) + g);
            assert(elems_leaves(fields, e2, base, j) =~= p + leaves(f.shape, e2[k], base + f.offset) + l1.skip(m + 1));
        }
    }
}

/// Destructuring a positional pattern whose element `k` is itself a pattern
/// yields the same addresses as destructuring it with a plain binding at
/// `k`, then destructuring the inner pattern over the field that binding
/// addresses, starting at that binding's address: the inner leaves take the
/// binding's place among the others.
pub proof fn lemma_nested_composition(shape: Shape, outer: Pattern, nested: Pattern, k: int, disc: Discipline, base: int)
    requires
        shape.wf(),
        same_head(outer, nested),
        check(shape, outer, disc) is None,
        elems_of(outer).len() == elems_of(nested).len(),
        0 <= k < elems_of(outer).len(),
        forall|i: int| 0 <= i < elems_of(outer).len() && i != k ==> elems_of(outer)[i] == elems_of(nested)[i],
        is_plain_binding(elems_of(outer)[k]) && elems_of(outer)[k] is Ident,
        !(elems_of(nested)[k] is Rest),
    ensures
        ({
            let fs = shape.fields();
            let lo = leaves(shape, outer, base);
            let m = elems_leaves(fs, elems_of(outer), base, k).len() as int;
            let f = fs[pos_index(elems_of(outer), fs.len() as int, k)];
            &&& m < lo.len()
            &&& lo[m].offset == base + f.offset
            &&& lo[m].size == f.shape.size()
            &&& leaves(shape, nested, base) == lo.take(m) + leaves(f.shape, elems_of(nested)[k], lo[m].offset) + lo.skip(m + 1)
        }),
{
    let e1 = elems_of(outer);
    let e2 = elems_of(nested);
    lemma_suffix_leaves(shape.fields(), e1, e2, k, base, e1.len() as int);
}

proof fn lemma_prefix_members(fields: Seq<Field>, f1: Seq<FieldPat>, f2: Seq<FieldPat>, k: int, base: int, j: int)
    requires
        f1.len() == f2.len(),
        0 <= k < f1.len(),
        f1[k].member@ == f2[k].member@,
        forall|i: int| 0 <= i < f1.len() && i != k ==> f1[i] == f2[i],
        0 <= j <= k,
    ensures
        members_leaves(fields, f1, base, j) == members_leaves(fields, f2, base, j),
    decreases j,
{
    if j > 0 {
        lemma_prefix_members(fields, f1, f2, k, base, j - 1);
    }
}

proof fn lemma_suffix_members(fields: Seq<Field>, f1: Seq<FieldPat>, f2: Seq<FieldPat>, k: int, base: int, j: int)
    requires
        f1.len() == f2.len(),
        0 <= k < f1.len(),
        f1[k].member@ == f2[k].member@,
        f1[k].pat is Ident,
        forall|i: int| 0 <= i < f1.len() && i != k ==> f1[i] == f2[i],
        k < j <= f1.len(),
    ensures
        ({
            let p = members_leaves(fields, f1, base, k);
            let m = p.len() as int;
            let f = fields[member_index(fields, f1[k].member@)];
            let l1 = members_leaves(fields, f1, base, j);
            &&& l1.len() > m
            &&& l1.take(m) == p
            &&& l1[m].offset == base + f.offset
            &&& l1[m].size == f.shape.size()
            &&& members_leaves(fields, f2, base, j) == p + leaves(f.shape, f2[k].pat, base + f.offset) + l1.skip(m + 1)
        }),
    decreases j,
{
    let p = members_leaves(fields, f1, base, k);
    let m = p.len() as int;
    let f = fields[member_index(fields, f1[k].member@)];
    if j == k + 1 {
        lemma_prefix_members(fields, f1, f2, k, base, k);
        let l1 = members_leaves(fields, f1, base, j);
        let b = leaves(f.shape, f1[k].pat, base + f.offset);
        assert(b.len() == 1);
        assert(l1 == p + b);
        assert(l1.take(m) =~= p);
        assert(l1.skip(m + 1) =~= Seq::<LeafModel>::empty());
        assert(members_leaves(fields, f2, base, j) =~= p + leaves(f.shape, f2[k].pat, base + f.offset) + l1.skip(m + 1));
    } else {
        lemma_suffix_members(fields, f1, f2, k, base, j - 1);
        let l0 = members_leaves(fields, f1, base, j - 1);
        let l1 = members_leaves(fields, f1, base, j);
        let fj = fields[member_index(fields, f1[j - 1].member@)];
        let g = leaves(fj.shape, f1[j - 1].pat, base + fj.offset);
        assert(l1 == l0 + g);
        assert(l1.take(m) =~= l0.take(m));
        assert(l1.skip(m + 1) =~= l0.skip(m + 1) + g);
        assert(members_leaves(fields, f2, base, j) =~= p + leaves(f.shape, f2[k].pat, base + f.offset) + l1.skip(m + 1));
    }
}

/// The entries of a struct pattern; empty for any other pattern.
pub open spec fn members_of(p: Pattern) -> Seq<FieldPat> {
    match p {
        Pattern::Struct { fields, .. } => fields@,
        _ => Seq::empty(),
    }
}

/// Two struct patterns of the same path and the same `..`.
pub open spec fn same_struct_head(p: Pattern, q: Pattern) -> bool {
    match (p, q) {
        (Pattern::Struct { path: a, rest: r, .. }, Pattern::Struct { path: b, rest: s, .. }) => a@ == b@ && r == s,
        _ => false,
    }
}

/// Destructuring a struct pattern whose entry `k` holds a nested pattern
/// yields the same addresses as destructuring it with a plain binding for
/// that entry, then destructuring the nested pattern over the field that
/// binding addresses, starting at that binding's address: the nested leaves
/// take the binding's place among the others.
pub proof fn lemma_nested_struct_composition(shape: Shape, outer: Pattern, nested: Pattern, k: int, disc: Discipline, base: int)
    requires
        shape.wf(),
        same_struct_head(outer, nested),
        check(shape, outer, disc) is None,
        members_of(outer).len() == members_of(nested).len(),
        0 <= k < members_of(outer).len(),
        members_of(outer)[k].member@ == members_of(nested)[k].member@,
        forall|i: int| 0 <= i < members_of(outer).len() && i != k ==> members_of(outer)[i] == members_of(nested)[i],
        is_plain_binding(members_of(outer)[k].pat) && members_of(outer)[k].pat is Ident,
    ensures
        ({
            let fs = shape.fields();
            let lo = leaves(shape, outer, base);
            let m = members_leaves(fs, members_of(outer), base, k).len() as int;
            let f = fs[member_index(fs, members_of(outer)[k].member@)];
            &&& m < lo.len()
            &&& lo[m].offset == base + f.offset
            &&& lo[m].size == f.shape.size()
            &&& leaves(shape, nested, base) == lo.take(m) + leaves(f.shape, members_of(nested)[k].pat, lo[m].offset) + lo.skip(m + 1)
        }),
{
    lemma_suffix_members(shape.fields(), members_of(outer), members_of(nested), k, base, members_of(outer).len() as int);
}

} // verus!
