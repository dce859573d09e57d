//! The pattern compiler: turns an accepted pattern into the addresses of
//! its leaves, one per binding or `_`, in the order they are written.
use vstd::prelude::*;
use crate::dry_run::{dry_run, lemma_elems_check_stable, lemma_member_index, lemma_members_check_stable, lemma_pos_index_in_range, lemma_rests_bounded};
use crate::layout::{find_field, Field, ProductKind, Shape};
use crate::pattern::{check, elems_check, elems_leaves, has_member, leaves, members_check, members_leaves, positional_error, rests_before, CompileError, Discipline, FieldPat, LeafModel, Pattern};

verus! {

/// One projected handle: the binding it goes to (`None` for `_`), whether
/// the binding is `mut`, and the extent of storage it addresses, as an
/// offset from the start of the root.
pub struct Leaf {
    pub binding: Option<String>,
    pub mutable: bool,
    pub offset: usize,
    pub size: usize,
}

impl View for Leaf {
    type V = LeafModel;

    open spec fn view(&self) -> LeafModel {
        LeafModel {
            name: match self.binding {
                Some(s) => Some(s@),
                None => None,
            },
            mutable: self.mutable,
            offset: self.offset as int,
            size: self.size as int,
        }
    }
}

/// The models of a sequence of leaves.
pub open spec fn models(s: Seq<Leaf>) -> Seq<LeafModel> {
    s.map_values(|l: Leaf| l@)
}

/// What compiling `pat` over a root of shape `shape` reports: a union root
/// is refused whatever the pattern, anything else as the dry run decides.
pub open spec fn root_check(shape: Shape, pat: Pattern, disc: Discipline) -> Option<CompileError> {
    if shape is Union {
        Some(CompileError::Union)
    } else {
        check(shape, pat, disc)
    }
}

proof fn lemma_models_push(s: Seq<Leaf>, l: Leaf)
    ensures
        models(s.push(l)) == models(s).push(l@),
{
    assert(models(s.push(l)) =~= models(s).push(l@));
}

/// Appends the leaves of an accepted pattern over `shape` placed at `base`.
fn emit(shape: &Shape, pat: &Pattern, disc: Discipline, base: usize, out: &mut Vec<Leaf>)
    requires
        shape.wf(),
        check(*shape, *pat, disc) is None,
        base + shape.size() <= usize::MAX,
    ensures
        models(final(out)@) == models(old(out)@) + leaves(*shape, *pat, base as int),
    decreases pat, 0nat,
{
    match pat {
        Pattern::Ident { name, mutable, .. } => {
            let leaf = Leaf { binding: Some(name.clone()), mutable: *mutable, offset: base, size: shape.size_of() };
            proof { lemma_models_push(out@, leaf); }
            out.push(leaf);
            assert(models(out@) =~= models(old(out)@) + leaves(*shape, *pat, base as int));
        },
        Pattern::Wild => {
            let leaf = Leaf { binding: None, mutable: false, offset: base, size: shape.size_of() };
            proof { lemma_models_push(out@, leaf); }
            out.push(leaf);
            assert(models(out@) =~= models(old(out)@) + leaves(*shape, *pat, base as int));
        },
        Pattern::Tuple { elems } | Pattern::Slice { elems } | Pattern::TupleStruct { elems, .. } => {
            match shape {
                Shape::Product { fields, .. } => emit_elems(shape, fields, elems, disc, base, out),
                _ => {},
            }
        },
        Pattern::Struct { fields: fps, .. } => emit_members(shape, fps, disc, base, out),
        _ => {},
    }
}

/// Appends the leaves of the elements of an accepted positional list.
fn emit_elems(shape: &Shape, fields: &Vec<Field>, elems: &Vec<Pattern>, disc: Discipline, base: usize, out: &mut Vec<Leaf>)
    requires
        shape.wf(),
        shape matches Shape::Product { fields: fs, .. } && fs@ == fields@,
        positional_error(fields@.len() as int, elems@, disc) is None,
        elems_check(fields@, elems@, disc, elems@.len() as int) is None,
        base + shape.size() <= usize::MAX,
    ensures
        models(final(out)@) == models(old(out)@) + elems_leaves(fields@, elems@, base as int, elems@.len() as int),
    decreases elems@, 1nat,
{
    let n = fields.len();
    let len = elems.len();
    let mut seen: usize = 0;
    let mut j: usize = 0;
    while j < len
        invariant
            len == elems@.len(),
            n == fields@.len(),
            shape.wf(),
            shape matches Shape::Product { fields: fs, .. } && fs@ == fields@,
            positional_error(n as int, elems@, disc) is None,
            elems_check(fields@, elems@, disc, len as int) is None,
            base + shape.size() <= usize::MAX,
            j <= len,
            seen == rests_before(elems@, j as int),
            models(out@) == models(old(out)@) + elems_leaves(fields@, elems@, base as int, j as int),
        decreases len - j,
    {
        proof {
            lemma_rests_bounded(elems@, j as int, len as int);
            lemma_rests_bounded(elems@, 0, j as int);
            if elems_check(fields@, elems@, disc, j + 1) is Some {
                lemma_elems_check_stable(fields@, elems@, disc, j + 1, len as int);
            }
            if j > 0 && elems_check(fields@, elems@, disc, j as int) is Some {
                lemma_elems_check_stable(fields@, elems@, disc, j as int, j + 1);
            }
        }
        if let Pattern::Rest = &elems[j] {
            seen = seen + 1;
        } else {
            proof { lemma_pos_index_in_range(elems@, n as int, disc, j as int); }
            let idx = if seen == 0 { j } else { n - (len - j) };
            let f = &fields[idx];
            assert(shape.fields()[idx as int] == *f);
            emit(&f.shape, &elems[j], disc, base + f.offset, out);
        }
        assert(models(out@) =~= models(old(out)@) + elems_leaves(fields@, elems@, base as int, j + 1));
        j = j + 1;
    }
}

/// Appends the leaves of the entries of an accepted struct pattern.
fn emit_members(shape: &Shape, fps: &Vec<FieldPat>, disc: Discipline, base: usize, out: &mut Vec<Leaf>)
    requires
        shape.wf(),
        shape matches Shape::Product { kind, .. } && kind == ProductKind::Struct,
        forall|k: int| 0 <= k < fps@.len() ==> has_member(shape.fields(), #[trigger] fps@[k].member@),
        members_check(shape.fields(), fps@, disc, fps@.len() as int) is None,
        base + shape.size() <= usize::MAX,
    ensures
        models(final(out)@) == models(old(out)@) + members_leaves(shape.fields(), fps@, base as int, fps@.len() as int),
    decreases fps@, 1nat,
{
    let fields = match shape {
        Shape::Product { fields, .. } => fields,
        _ => { return; },
    };
    let len = fps.len();
    let mut j: usize = 0;
    while j < len
        invariant
            len == fps@.len(),
            j <= len,
            shape.wf(),
            shape matches Shape::Product { kind, .. } && kind == ProductKind::Struct,
            fields@ == shape.fields(),
            forall|k: int| 0 <= k < fps@.len() ==> has_member(shape.fields(), #[trigger] fps@[k].member@),
            members_check(fields@, fps@, disc, len as int) is None,
            base + shape.size() <= usize::MAX,
            models(out@) == models(old(out)@) + members_leaves(fields@, fps@, base as int, j as int),
        decreases len - j,
    {
        proof {
            if members_check(fields@, fps@, disc, j + 1) is Some {
                lemma_members_check_stable(fields@, fps@, disc, j + 1, len as int);
            }
            if j > 0 && members_check(fields@, fps@, disc, j as int) is Some {
                lemma_members_check_stable(fields@, fps@, disc, j as int, j + 1);
            }
        }
        let idx = match find_field(fields, &fps[j].member) {
            Some(i) => i,
            None => { return; },
        };
        proof { lemma_member_index(*shape, fps@[j as int].member@, idx as int); }
        let f = &fields[idx];
        emit(&f.shape, &fps[j].pat, disc, base + f.offset, out);
        assert(models(out@) =~= models(old(out)@) + members_leaves(fields@, fps@, base as int, j + 1));
        j = j + 1;
    }
}

/// Compiles `pat` over a value of shape `shape` that starts `base` bytes
/// into the root: the dry run first, then one leaf per binding or `_`, each
/// at its field's address.
pub fn compile_at(shape: &Shape, pat: &Pattern, disc: Discipline, base: usize) -> (r: Result<Vec<Leaf>, CompileError>)
    requires
        shape.wf(),
        base + shape.size() <= usize::MAX,
    ensures
        match root_check(*shape, *pat, disc) {
            Some(e) => r == Err::<Vec<Leaf>, CompileError>(e),
            None => r matches Ok(v) && models(v@) == leaves(*shape, *pat, base as int),
        },
{
    if let Shape::Union { .. } = shape {
        return Err(CompileError::Union);
    }
    match dry_run(shape, pat, disc) {
        Some(e) => Err(e),
        None => {
            let mut out: Vec<Leaf> = Vec::new();
            emit(shape, pat, disc, base, &mut out);
            assert(models(out@) =~= leaves(*shape, *pat, base as int));
            Ok(out)
        },
    }
}

/// Compiles `pat` over a root of shape `shape`.
pub fn compile(shape: &Shape, pat: &Pattern, disc: Discipline) -> (r: Result<Vec<Leaf>, CompileError>)
    requires
        shape.wf(),
    ensures
        match root_check(*shape, *pat, disc) {
            Some(e) => r == Err::<Vec<Leaf>, CompileError>(e),
            None => r matches Ok(v) && models(v@) == leaves(*shape, *pat, 0),
        },
{
    compile_at(shape, pat, disc, 0)
}

} // verus!
