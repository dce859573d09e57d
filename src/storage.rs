//! Storage held under a discipline, and the handles a compiled pattern
//! yields over it.
use vstd::prelude::*;
use crate::compile::{compile, models, root_check, Leaf};
use crate::layout::Shape;
use crate::laws::{all_inside, apart, lemma_leaves_apart, pairwise_apart};
use crate::pattern::{leaves, CompileError, Discipline, LeafModel, Pattern};

verus! {

/// Destructuring by borrow: the handles are disjoint views of the root's
/// fields, and the root stays usable; `..` may leave fields untouched.
pub struct Borrow;

/// Destructuring by move: the handles take their fields out of the root,
/// which is consumed; every field must be accounted for, so `..` is refused.
pub struct Move;

/// A discipline fixed by a type, for wrappers to carry.
pub trait Destructuring {
    spec fn spec_discipline() -> Discipline;

    fn discipline() -> (d: Discipline)
        ensures
            d == Self::spec_discipline(),
    ;
}

impl Destructuring for Borrow {
    open spec fn spec_discipline() -> Discipline {
        Discipline::Borrow
    }

    fn discipline() -> (d: Discipline) {
        Discipline::Borrow
    }
}

impl Destructuring for Move {
    open spec fn spec_discipline() -> Discipline {
        Discipline::Move
    }

    fn discipline() -> (d: Discipline) {
        Discipline::Move
    }
}

/// A wrapper whose underlying value can be projected: it exposes the shape
/// and storage of that value, under the discipline its type fixes.
pub trait Destructure {
    type Destructuring: Destructuring;

    spec fn spec_underlying(&self) -> Shape;

    spec fn spec_storage(&self) -> Seq<u8>;

    /// The shape of the underlying value.
    fn underlying(&self) -> (r: &Shape)
        ensures
            *r == self.spec_underlying(),
    ;
}

/// A wrapper that makes a handle of its own kind for one field of its
/// underlying value.
pub trait Restructure: Destructure {
    type Restructured;

    /// `r` is the handle for the extent `l`.
    spec fn handles(&self, l: LeafModel, r: Self::Restructured) -> bool;

    /// The handle for the field whose extent is `leaf`, which lies within
    /// the underlying value.
    fn restructure(&self, leaf: &Leaf) -> (r: Self::Restructured)
        requires
            self.spec_underlying().wf(),
            self.spec_storage().len() == self.spec_underlying().size(),
            leaf.offset + leaf.size <= self.spec_storage().len(),
        ensures
            self.handles(leaf@, r),
    ;
}

/// `b` with the bytes from `off` on replaced by `v`.
pub open spec fn splice(b: Seq<u8>, off: int, v: Seq<u8>) -> Seq<u8> {
    b.subrange(0, off) + v + b.subrange(off + v.len(), b.len() as int)
}

/// The bytes of `b` that the extent `l` covers.
pub open spec fn bytes_of(b: Seq<u8>, l: LeafModel) -> Seq<u8> {
    b.subrange(l.offset, l.offset + l.size)
}

/// The storage of one value of a declared shape, held under the discipline
/// `D`: the root that a pattern is matched against.
pub struct Root<D> {
    bytes: Vec<u8>,
    shape: Shape,
    tag: D,
}

impl<D: Destructuring> Root<D> {
    /// The bytes the root holds.
    pub closed spec fn spec_bytes(&self) -> Seq<u8> {
        self.bytes@
    }

    /// The shape the root's bytes are read as.
    pub closed spec fn spec_shape(&self) -> Shape {
        self.shape
    }

    /// The root is laid out consistently and holds exactly its shape's bytes.
    pub closed spec fn wf(&self) -> bool {
        &&& self.shape.wf()
        &&& self.bytes@.len() == self.shape.size()
    }

    /// A root over `bytes`, read as a value of shape `shape`.
    pub fn new(shape: Shape, bytes: Vec<u8>, tag: D) -> (r: Self)
        requires
            shape.wf(),
            bytes@.len() == shape.size(),
        ensures
            r.wf(),
            r.spec_bytes() == bytes@,
            r.spec_shape() == shape,
    {
        Root { bytes, shape, tag }
    }

    /// A root of shape `shape` whose bytes are not set yet (they read as zero).
    pub fn uninit(shape: Shape, tag: D) -> (r: Self)
        requires
            shape.wf(),
        ensures
            r.wf(),
            r.spec_bytes() == Seq::new(shape.size(), |i: int| 0u8),
            r.spec_shape() == shape,
    {
        let n = shape.size_of();
        let mut bytes: Vec<u8> = Vec::new();
        let mut i: usize = 0;
        while i < n
            invariant
                i <= n,
                bytes@ == Seq::new(i as nat, |k: int| 0u8),
            decreases n - i,
        {
            bytes.push(0u8);
            i = i + 1;
            assert(bytes@ =~= Seq::new(i as nat, |k: int| 0u8));
        }
        Root { bytes, shape, tag }
    }

    /// The shape the root's bytes are read as.
    pub fn shape(&self) -> (r: &Shape)
        ensures
            *r == self.spec_shape(),
    {
        &self.shape
    }

    /// Matches `pat` against the root under its discipline: the handles of
    /// its leaves, pairwise disjoint and inside the root, or why the pattern
    /// is refused.
    pub fn destructure(&self, pat: &Pattern) -> (r: Result<Vec<Leaf>, CompileError>)
        requires
            self.wf(),
        ensures
            match root_check(self.spec_shape(), *pat, D::spec_discipline()) {
                Some(e) => r == Err::<Vec<Leaf>, CompileError>(e),
                None => r matches Ok(v) && {
                    &&& models(v@) == leaves(self.spec_shape(), *pat, 0)
                    &&& pairwise_apart(models(v@))
                    &&& all_inside(models(v@), 0, self.spec_bytes().len() as int)
                },
            },
    {
        let r = compile(&self.shape, pat, D::discipline());
        proof {
            if root_check(self.shape, *pat, D::spec_discipline()) is None {
                lemma_leaves_apart(self.shape, *pat, D::spec_discipline(), 0);
            }
        }
        r
    }

    /// The bytes a handle covers.
    pub fn read(&self, leaf: &Leaf) -> (r: Vec<u8>)
        requires
            self.wf(),
            leaf.offset + leaf.size <= self.spec_bytes().len(),
        ensures
            r@ == bytes_of(self.spec_bytes(), leaf@),
    {
        let n = self.bytes.len();
        let mut out: Vec<u8> = Vec::new();
        let mut i: usize = 0;
        while i < leaf.size
            invariant
                i <= leaf.size,
                n == self.bytes@.len(),
                leaf.offset + leaf.size <= n,
                out@ == self.bytes@.subrange(leaf.offset as int, leaf.offset + i),
            decreases leaf.size - i,
        {
            out.push(self.bytes[leaf.offset + i]);
            i = i + 1;
            assert(out@ =~= self.bytes@.subrange(leaf.offset as int, leaf.offset + i));
        }
        out
    }

    /// The whole value's bytes, once the root is given up.
    pub fn into_bytes(self) -> (r: Vec<u8>)
        ensures
            r@ == self.spec_bytes(),
    {
        self.bytes
    }
}

impl<D: Destructuring> Destructure for Root<D> {
    type Destructuring = D;

    open spec fn spec_underlying(&self) -> Shape {
        self.spec_shape()
    }

    open spec fn spec_storage(&self) -> Seq<u8> {
        self.spec_bytes()
    }

    fn underlying(&self) -> (r: &Shape) {
        &self.shape
    }
}

/// A borrowed field is addressed, never copied: its handle is its extent,
/// read and written through the root it came from.
impl Restructure for Root<Borrow> {
    type Restructured = Leaf;

    open spec fn handles(&self, l: LeafModel, r: Leaf) -> bool {
        r@ == l
    }

    fn restructure(&self, leaf: &Leaf) -> (r: Leaf) {
        let binding = match &leaf.binding {
            Some(n) => Some(n.clone()),
            None => None,
        };
        Leaf { binding, mutable: leaf.mutable, offset: leaf.offset, size: leaf.size }
    }
}

/// A moved field is taken out: its handle owns the field's bytes.
impl Restructure for Root<Move> {
    type Restructured = Vec<u8>;

    open spec fn handles(&self, l: LeafModel, r: Vec<u8>) -> bool {
        r@ == bytes_of(self.spec_bytes(), l)
    }

    fn restructure(&self, leaf: &Leaf) -> (r: Vec<u8>) {
        self.read(leaf)
    }
}

impl Root<Borrow> {
    /// Writes `value` into the field a handle covers; every other byte of
    /// the root keeps its value.
    pub fn write(&mut self, leaf: &Leaf, value: &[u8])
        requires
            old(self).wf(),
            leaf.offset + leaf.size <= old(self).spec_bytes().len(),
            value@.len() == leaf.size,
        ensures
            final(self).wf(),
            final(self).spec_shape() == old(self).spec_shape(),
            final(self).spec_bytes() == splice(old(self).spec_bytes(), leaf.offset as int, value@),
    {
        let ghost b0 = self.bytes@;
        let mut i: usize = 0;
        while i < leaf.size
            invariant
                i <= leaf.size,
                value@.len() == leaf.size,
                leaf.offset + leaf.size <= b0.len(),
                self.bytes@.len() == b0.len(),
                self.shape == old(self).shape,
                self.shape.wf(),
                b0.len() == self.shape.size(),
                forall|k: int| 0 <= k < b0.len() ==> #[trigger] self.bytes@[k] == if leaf.offset <= k < leaf.offset + i {
                    value@[k - leaf.offset]
                } else {
                    b0[k]
                },
            decreases leaf.size - i,
        {
            self.bytes.set(leaf.offset + i, value[i]);
            i = i + 1;
        }
        assert(self.bytes@ =~= splice(b0, leaf.offset as int, value@));
    }
}

impl Root<Move> {
    /// Moves each handle's field out of the root, which is consumed: one
    /// owned value per handle, in order.
    pub fn take_parts(self, parts: &Vec<Leaf>) -> (r: Vec<Vec<u8>>)
        requires
            self.wf(),
            forall|i: int| 0 <= i < parts@.len() ==> (#[trigger] parts@[i]).offset + parts@[i].size <= self.spec_bytes().len(),
        ensures
            r@.len() == parts@.len(),
            forall|i: int| 0 <= i < parts@.len() ==> (#[trigger] r@[i])@ == bytes_of(self.spec_bytes(), parts@[i]@),
    {
        let mut out: Vec<Vec<u8>> = Vec::new();
        let mut j: usize = 0;
        while j < parts.len()
            invariant
                self.wf(),
                j <= parts@.len(),
                out@.len() == j,
                forall|i: int| 0 <= i < parts@.len() ==> (#[trigger] parts@[i]).offset + parts@[i].size <= self.spec_bytes().len(),
                forall|i: int| 0 <= i < j ==> (#[trigger] out@[i])@ == bytes_of(self.spec_bytes(), parts@[i]@),
            decreases parts@.len() - j,
        {
            let v = self.restructure(&parts[j]);
            out.push(v);
            j = j + 1;
        }
        out
    }
}

/// The discipline a root is destructured under.
pub fn get_destructure<D: Destructuring>(root: &Root<D>) -> (r: Discipline)
    ensures
        r == D::spec_discipline(),
{
    D::discipline()
}

/// Writing through one handle leaves the bytes of every handle disjoint
/// from it as they were.
pub proof fn lemma_write_keeps_apart(b: Seq<u8>, target: LeafModel, value: Seq<u8>, other: LeafModel)
    requires
        0 <= target.offset,
        target.offset + target.size <= b.len(),
        value.len() == target.size,
        0 <= other.offset,
        0 <= other.size,
        other.offset + other.size <= b.len(),
        apart(target, other),
    ensures
        bytes_of(splice(b, target.offset, value), other) == bytes_of(b, other),
        bytes_of(splice(b, target.offset, value), target) == value,
{
    let s = splice(b, target.offset, value);
    assert(s.len() == b.len());
    assert(bytes_of(s, other) =~= bytes_of(b, other));
    assert(bytes_of(s, target) =~= value);
}

} // verus!
