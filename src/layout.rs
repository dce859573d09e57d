//! Declared storage shapes of projectable types, and the address engine that
//! places each field relative to its parent.
use vstd::prelude::*;

verus! {

/// Which kind of product a shape is; decides which patterns may select into it.
#[derive(PartialEq, Eq, Structural, Clone, Copy, Debug)]
pub enum ProductKind {
    /// An anonymous tuple `(A, B, ..)`.
    Tuple,
    /// A fixed-length array `[T; N]`.
    Array,
    /// A struct with named fields.
    Struct,
    /// A struct with positional fields.
    TupleStruct,
}

/// One field of a product or union: its name (empty for positional fields),
/// its offset from the start of the parent, and its own shape.
pub struct Field {
    pub name: String,
    pub offset: usize,
    pub shape: Shape,
}

/// The declared shape of a type, as far as projection needs it.
pub enum Shape {
    /// A value with no selectable structure (an integer, a `char`, ...).
    Scalar { size: usize, align: usize },
    /// A handle that points elsewhere (a reference, a pointer, a smart pointer).
    /// Its own bytes are the pointer, never the value it points to.
    Indirection { size: usize, align: usize },
    /// Fields at disjoint, statically known offsets.
    Product { kind: ProductKind, name: String, packed: bool, fields: Vec<Field>, size: usize, align: usize },
    /// Fields that share storage: never projectable.
    Union { name: String, fields: Vec<Field>, size: usize, align: usize },
}

impl Shape {
    /// The number of bytes a value of the shape occupies.
    pub open spec fn size(self) -> nat {
        match self {
            Shape::Scalar { size, .. } => size as nat,
            Shape::Indirection { size, .. } => size as nat,
            Shape::Product { size, .. } => size as nat,
            Shape::Union { size, .. } => size as nat,
        }
    }

    /// The alignment a value of the shape requires.
    pub open spec fn align(self) -> nat {
        match self {
            Shape::Scalar { align, .. } => align as nat,
            Shape::Indirection { align, .. } => align as nat,
            Shape::Product { align, .. } => align as nat,
            Shape::Union { align, .. } => align as nat,
        }
    }

    /// The fields of a product, in declaration order; empty for anything else.
    pub open spec fn fields(self) -> Seq<Field> {
        match self {
            Shape::Product { fields, .. } => fields@,
            _ => Seq::empty(),
        }
    }

    /// Whether the shape is a product.
    pub open spec fn is_product(self) -> bool {
        self is Product
    }

    /// The storage of a shape is laid out consistently: every field lies
    /// inside its parent, fields of a product come one after the other
    /// without overlapping, names of struct fields are distinct, and every
    /// nested shape is laid out consistently too.
    pub open spec fn wf(self) -> bool
        decreases self,
    {
        match self {
            Shape::Scalar { align, .. } => align >= 1,
            Shape::Indirection { align, .. } => align >= 1,
            Shape::Product { kind, fields, size, align, .. } => {
                &&& align >= 1
                &&& forall|i: int| 0 <= i < fields@.len() ==> #[trigger] fields@[i].offset + fields@[i].shape.size() <= size
                &&& forall|i: int, j: int|
                    0 <= i < j < fields@.len() ==> fields@[i].offset + fields@[i].shape.size() <= #[trigger] fields@[j].offset
                        && #[trigger] fields@[i].offset <= fields@[j].offset
                &&& kind == ProductKind::Struct ==> forall|i: int, j: int|
                    0 <= i < j < fields@.len() ==> #[trigger] fields@[i].name@ != #[trigger] fields@[j].name@
                &&& forall|i: int| 0 <= i < fields@.len() ==> (#[trigger] fields@[i]).shape.wf()
            },
            Shape::Union { fields, size, align, .. } => {
                &&& align >= 1
                &&& forall|i: int| 0 <= i < fields@.len() ==> #[trigger] fields@[i].offset + fields@[i].shape.size() <= size
            },
        }
    }
}

/// `x` rounded up to the next multiple of `a`.
pub open spec fn round_up(x: nat, a: nat) -> nat
    recommends
        a >= 1,
{
    if a == 0 || x % a == 0 { x } else { x + (a - x % a) as nat }
}

/// The alignment a member contributes to the placement of its field.
pub open spec fn placement_align(packed: bool, s: Shape) -> nat {
    if packed { 1 } else { s.align() }
}

/// The end of the `n` first of `shapes` when laid out one after the other, each
/// at the first offset that meets its placement alignment.
pub open spec fn laid_end(shapes: Seq<Shape>, packed: bool, n: nat) -> nat
    decreases n, 0nat,
{
    if n == 0 {
        0
    } else {
        laid_offset(shapes, packed, (n - 1) as nat) + shapes[n - 1].size()
    }
}

/// The offset of the `i`-th of `shapes` under that layout.
pub open spec fn laid_offset(shapes: Seq<Shape>, packed: bool, i: nat) -> nat
    decreases i, 1nat,
{
    round_up(if i == 0 { 0 } else { laid_end(shapes, packed, i) }, placement_align(packed, shapes[i as int]))
}

/// The alignment of a product: 1 when packed, else the largest alignment of
/// its `n` first members (at least 1).
pub open spec fn laid_align(shapes: Seq<Shape>, packed: bool, n: nat) -> nat
    decreases n,
{
    if packed || n == 0 {
        1
    } else {
        let rest = laid_align(shapes, packed, (n - 1) as nat);
        if shapes[n - 1].align() > rest { shapes[n - 1].align() } else { rest }
    }
}

/// Two members of `members` carry the same name.
pub open spec fn repeats_name(members: Seq<(String, Shape)>) -> bool {
    exists|i: int, j: int| 0 <= i < j < members.len() && #[trigger] members[i].0@ == #[trigger] members[j].0@
}

/// Every member, and the whole product, ends at an address that fits in `usize`.
pub open spec fn fits(shapes: Seq<Shape>, packed: bool) -> bool {
    &&& forall|i: int| 0 <= i < shapes.len() ==> #[trigger] laid_offset(shapes, packed, i as nat) + shapes[i].size() <= usize::MAX
    &&& round_up(laid_end(shapes, packed, shapes.len()), laid_align(shapes, packed, shapes.len())) <= usize::MAX
}

/// The shapes of `members`, in order.
pub open spec fn shapes_of(members: Seq<(String, Shape)>) -> Seq<Shape> {
    members.map_values(|m: (String, Shape)| m.1)
}

/// The position of the first field of `fields` named `name`.
pub fn find_field(fields: &Vec<Field>, name: &String) -> (r: Option<usize>)
    ensures
        r matches Some(j) ==> j < fields@.len() && fields@[j as int].name@ == name@
            && forall|i: int| 0 <= i < j ==> #[trigger] fields@[i].name@ != name@,
        r is None ==> forall|i: int| 0 <= i < fields@.len() ==> #[trigger] fields@[i].name@ != name@,
{
    let mut j: usize = 0;
    while j < fields.len()
        invariant
            0 <= j <= fields@.len(),
            forall|i: int| 0 <= i < j ==> #[trigger] fields@[i].name@ != name@,
        decreases fields@.len() - j,
    {
        if fields[j].name == *name {
            return Some(j);
        }
        j = j + 1;
    }
    None
}

/// Rounds `x` up to a multiple of `a`, or `None` where that does not fit.
pub fn align_up(x: usize, a: usize) -> (r: Option<usize>)
    requires
        a >= 1,
    ensures
        r matches Some(v) ==> v == round_up(x as nat, a as nat),
        r is None <==> round_up(x as nat, a as nat) > usize::MAX,
{
    let rem = x % a;
    if rem == 0 {
        Some(x)
    } else {
        x.checked_add(a - rem)
    }
}

impl Shape {
    /// A scalar of the given size and alignment.
    pub fn scalar(size: usize, align: usize) -> (r: Shape)
        requires
            align >= 1,
        ensures
            r == (Shape::Scalar { size, align }),
            r.wf(),
    {
        Shape::Scalar { size, align }
    }

    /// A pointer-like field of the given size and alignment.
    pub fn indirection(size: usize, align: usize) -> (r: Shape)
        requires
            align >= 1,
        ensures
            r == (Shape::Indirection { size, align }),
            r.wf(),
    {
        Shape::Indirection { size, align }
    }

    /// The size of the shape.
    pub fn size_of(&self) -> (r: usize)
        ensures
            r == self.size(),
    {
        match self {
            Shape::Scalar { size, .. } => *size,
            Shape::Indirection { size, .. } => *size,
            Shape::Product { size, .. } => *size,
            Shape::Union { size, .. } => *size,
        }
    }

    /// The alignment of the shape.
    pub fn align_of(&self) -> (r: usize)
        ensures
            r == self.align(),
    {
        match self {
            Shape::Scalar { align, .. } => *align,
            Shape::Indirection { align, .. } => *align,
            Shape::Product { align, .. } => *align,
            Shape::Union { align, .. } => *align,
        }
    }

    /// Lays out `members` in order as a product of the given kind: each field
    /// at the first offset after the previous one that meets its alignment
    /// (alignment 1 everywhere when `packed`), the whole rounded up to the
    /// largest alignment. `None` where the size does not fit in `usize`, or
    /// where a struct repeats a field name.
    pub fn product(kind: ProductKind, name: String, packed: bool, members: Vec<(String, Shape)>) -> (r: Option<Shape>)
        requires
            forall|i: int| 0 <= i < members@.len() ==> (#[trigger] members@[i]).1.wf(),
        ensures
            r matches Some(s) ==> {
                &&& s.wf()
                &&& s matches Shape::Product { kind: k, name: nm, packed: p, fields, size, align } && {
                    &&& k == kind && nm@ == name@ && p == packed
                    &&& fields@.len() == members@.len()
                    &&& forall|i: int| 0 <= i < fields@.len() ==> {
                        &&& (#[trigger] fields@[i]).name@ == members@[i].0@
                        &&& fields@[i].shape == members@[i].1
                        &&& fields@[i].offset == laid_offset(shapes_of(members@), packed, i as nat)
                    }
                    &&& align == laid_align(shapes_of(members@), packed, members@.len())
                    &&& size == round_up(laid_end(shapes_of(members@), packed, members@.len()), align as nat)
                }
            },
            r is None <==> (kind == ProductKind::Struct && repeats_name(members@)) || !fits(shapes_of(members@), packed),
    {
        let ghost all = members@;
        let ghost sh = shapes_of(all);
        let n = members.len();
        let mut rest = members;
        let mut fields: Vec<Field> = Vec::new();
        let mut end: usize = 0;
        let mut max_align: usize = 1;
        while rest.len() > 0
            invariant
                fields@.len() + rest@.len() == n,
                n == all.len(),
                all == members@,
                sh == shapes_of(all),
                rest@ == all.skip(fields@.len() as int),
                forall|i: int| 0 <= i < all.len() ==> (#[trigger] all[i]).1.wf(),
                end == laid_end(sh, packed, fields@.len() as nat),
                max_align == laid_align(sh, packed, fields@.len() as nat),
                max_align >= 1,
                forall|i: int| 0 <= i < fields@.len() ==> {
                    &&& (#[trigger] fields@[i]).name@ == all[i].0@
                    &&& fields@[i].shape == all[i].1
                    &&& fields@[i].offset == laid_offset(sh, packed, i as nat)
                    &&& fields@[i].offset + fields@[i].shape.size() <= end
                },
                forall|i: int, j: int|
                    0 <= i < j < fields@.len() ==> fields@[i].offset + fields@[i].shape.size() <= #[trigger] fields@[j].offset
                        && #[trigger] fields@[i].offset <= fields@[j].offset,
                kind == ProductKind::Struct ==> forall|i: int, j: int|
                    0 <= i < j < fields@.len() ==> #[trigger] fields@[i].name@ != #[trigger] fields@[j].name@,
            decreases rest@.len(),
        {
            let ghost k: int = fields@.len() as int;
            assert(rest@[0] == all[k]);
            let (fname, fshape) = rest.remove(0);
            if kind == ProductKind::Struct {
                if let Some(j) = find_field(&fields, &fname) {
                    assert(all[j as int].0@ == all[k].0@);
                    assert(repeats_name(all));
                    return None;
                }
            }
            let a = if packed { 1 } else { fshape.align_of() };
            let off = match align_up(end, a) {
                Some(o) => o,
                None => {
                    assert(laid_offset(sh, packed, k as nat) + sh[k].size() > usize::MAX);
                    assert(!fits(sh, packed));
                    return None;
                },
            };
            let fend = match off.checked_add(fshape.size_of()) {
                Some(e) => e,
                None => {
                    assert(laid_offset(sh, packed, k as nat) + sh[k].size() > usize::MAX);
                    assert(!fits(sh, packed));
                    return None;
                },
            };
            if !packed && fshape.align_of() > max_align {
                max_align = fshape.align_of();
            }
            fields.push(Field { name: fname, offset: off, shape: fshape });
            end = fend;
            assert(rest@ == all.skip(fields@.len() as int));
        }
        let size = match align_up(end, max_align) {
            Some(v) => v,
            None => return None,
        };
        assert(fits(sh, packed)) by {
            assert forall|i: int| 0 <= i < sh.len() implies #[trigger] laid_offset(sh, packed, i as nat) + sh[i].size() <= usize::MAX by {
                assert(fields@[i].offset + fields@[i].shape.size() <= end);
            }
        }
        assert(kind == ProductKind::Struct ==> !repeats_name(all)) by {
            if kind == ProductKind::Struct && repeats_name(all) {
                let (i, j) = choose|i: int, j: int| 0 <= i < j < all.len() && #[trigger] all[i].0@ == #[trigger] all[j].0@;
                assert(fields@[i].name@ != fields@[j].name@);
            }
        }
        Some(Shape::Product { kind, name, packed, fields, size, align: max_align })
    }
}

/// `s` is the unpacked product of the given kind over `elems`, laid out in order.
pub open spec fn lays_out(s: Shape, kind: ProductKind, elems: Seq<Shape>) -> bool {
    &&& s.wf()
    &&& s matches Shape::Product { kind: k, packed, fields, size, align, .. } && {
        &&& k == kind && !packed
        &&& fields@.len() == elems.len()
        &&& forall|i: int| 0 <= i < fields@.len() ==> (#[trigger] fields@[i]).shape == elems[i]
            && fields@[i].offset == laid_offset(elems, false, i as nat)
        &&& align == laid_align(elems, false, elems.len())
        &&& size == round_up(laid_end(elems, false, elems.len()), align as nat)
    }
}

/// Whether every field of `fields` ends within `size` bytes.
fn fields_within(fields: &Vec<Field>, size: usize) -> (r: bool)
    ensures
        r == forall|i: int| 0 <= i < fields@.len() ==> #[trigger] fields@[i].offset + fields@[i].shape.size() <= size,
{
    let mut i: usize = 0;
    while i < fields.len()
        invariant
            i <= fields@.len(),
            forall|k: int| 0 <= k < i ==> #[trigger] fields@[k].offset + fields@[k].shape.size() <= size,
        decreases fields@.len() - i,
    {
        match fields[i].offset.checked_add(fields[i].shape.size_of()) {
            Some(end) => if end > size {
                return false;
            },
            None => return false,
        }
        i = i + 1;
    }
    true
}

/// Whether each field of `fields` ends before the next one starts.
fn fields_ordered(fields: &Vec<Field>) -> (r: bool)
    ensures
        r == forall|i: int, j: int|
            0 <= i < j < fields@.len() ==> fields@[i].offset + fields@[i].shape.size() <= #[trigger] fields@[j].offset
                && #[trigger] fields@[i].offset <= fields@[j].offset,
{
    let mut j: usize = 0;
    while j < fields.len()
        invariant
            j <= fields@.len(),
            forall|a: int, b: int|
                0 <= a < b < j ==> fields@[a].offset + fields@[a].shape.size() <= #[trigger] fields@[b].offset
                    && #[trigger] fields@[a].offset <= fields@[b].offset,
        decreases fields@.len() - j,
    {
        let mut i: usize = 0;
        while i < j
            invariant
                i <= j < fields@.len(),
                forall|a: int| 0 <= a < i ==> fields@[a].offset + fields@[a].shape.size() <= #[trigger] fields@[j as int].offset
                    && #[trigger] fields@[a].offset <= fields@[j as int].offset,
            decreases j - i,
        {
            let ok = match fields[i].offset.checked_add(fields[i].shape.size_of()) {
                Some(end) => end <= fields[j].offset,
                None => false,
            };
            if !ok {
                assert(!(fields@[i as int].offset + fields@[i as int].shape.size() <= fields@[j as int].offset));
                return false;
            }
            i = i + 1;
        }
        j = j + 1;
    }
    true
}

/// Whether no two fields of `fields` carry the same name.
fn names_distinct(fields: &Vec<Field>) -> (r: bool)
    ensures
        r == forall|i: int, j: int| 0 <= i < j < fields@.len() ==> #[trigger] fields@[i].name@ != #[trigger] fields@[j].name@,
{
    let mut j: usize = 0;
    while j < fields.len()
        invariant
            j <= fields@.len(),
            forall|a: int, b: int| 0 <= a < b < j ==> #[trigger] fields@[a].name@ != #[trigger] fields@[b].name@,
        decreases fields@.len() - j,
    {
        let mut i: usize = 0;
        while i < j
            invariant
                i <= j < fields@.len(),
                forall|a: int| 0 <= a < i ==> #[trigger] fields@[a].name@ != fields@[j as int].name@,
            decreases j - i,
        {
            if fields[i].name == fields[j].name {
                return false;
            }
            i = i + 1;
        }
        j = j + 1;
    }
    true
}

/// Whether every field of `fields` has a consistently laid out shape.
fn fields_well_formed(fields: &Vec<Field>) -> (r: bool)
    ensures
        r == forall|i: int| 0 <= i < fields@.len() ==> (#[trigger] fields@[i]).shape.wf(),
    decreases fields@, 1nat,
{
    let mut i: usize = 0;
    while i < fields.len()
        invariant
            i <= fields@.len(),
            forall|k: int| 0 <= k < i ==> (#[trigger] fields@[k]).shape.wf(),
        decreases fields@.len() - i,
    {
        if !fields[i].shape.is_well_formed() {
            return false;
        }
        i = i + 1;
    }
    true
}

impl Shape {
    /// Whether the shape is laid out consistently, as `wf` states.
    pub fn is_well_formed(&self) -> (r: bool)
        ensures
            r == self.wf(),
        decreases self, 0nat,
    {
        match self {
            Shape::Scalar { align, .. } => *align >= 1,
            Shape::Indirection { align, .. } => *align >= 1,
            Shape::Product { kind, fields, size, align, .. } => {
                *align >= 1 && fields_within(fields, *size) && fields_ordered(fields)
                    && (*kind != ProductKind::Struct || names_distinct(fields)) && fields_well_formed(fields)
            },
            Shape::Union { fields, size, align, .. } => *align >= 1 && fields_within(fields, *size),
        }
    }
}

impl Shape {
    /// A positional product of the given kind and name over `elems`, in
    /// order, unpacked: `None` where its size does not fit in `usize`.
    pub fn positional(kind: ProductKind, name: String, elems: Vec<Shape>) -> (r: Option<Shape>)
        requires
            kind != ProductKind::Struct,
            forall|i: int| 0 <= i < elems@.len() ==> (#[trigger] elems@[i]).wf(),
        ensures
            r matches Some(s) ==> lays_out(s, kind, elems@) && (s matches Shape::Product { name: nm, .. } && nm@ == name@),
            r is None <==> !fits(elems@, false),
    {
        let ghost all = elems@;
        let n = elems.len();
        let mut rest = elems;
        let mut members: Vec<(String, Shape)> = Vec::new();
        while rest.len() > 0
            invariant
                members@.len() + rest@.len() == n,
                n == all.len(),
                rest@ == all.skip(members@.len() as int),
                forall|i: int| 0 <= i < all.len() ==> (#[trigger] all[i]).wf(),
                forall|i: int| 0 <= i < members@.len() ==> (#[trigger] members@[i]).1 == all[i],
            decreases rest@.len(),
        {
            assert(rest@[0] == all[members@.len() as int]);
            let s = rest.remove(0);
            members.push((String::new(), s));
            assert(rest@ == all.skip(members@.len() as int));
        }
        assert(shapes_of(members@) =~= all);
        Shape::product(kind, name, false, members)
    }

    /// The anonymous tuple of `elems`.
    pub fn tuple(elems: Vec<Shape>) -> (r: Option<Shape>)
        requires
            forall|i: int| 0 <= i < elems@.len() ==> (#[trigger] elems@[i]).wf(),
        ensures
            r matches Some(s) ==> lays_out(s, ProductKind::Tuple, elems@),
            r is None <==> !fits(elems@, false),
    {
        Shape::positional(ProductKind::Tuple, String::new(), elems)
    }

    /// The array whose elements have the shapes `elems`, one per element.
    pub fn array(elems: Vec<Shape>) -> (r: Option<Shape>)
        requires
            forall|i: int| 0 <= i < elems@.len() ==> (#[trigger] elems@[i]).wf(),
        ensures
            r matches Some(s) ==> lays_out(s, ProductKind::Array, elems@),
            r is None <==> !fits(elems@, false),
    {
        Shape::positional(ProductKind::Array, String::new(), elems)
    }

    /// A union of `members`, all at offset 0: as large as its largest member,
    /// as aligned as its most aligned one.
    pub fn union(name: String, members: Vec<(String, Shape)>) -> (r: Shape)
        requires
            forall|i: int| 0 <= i < members@.len() ==> (#[trigger] members@[i]).1.wf(),
        ensures
            r.wf(),
            r matches Shape::Union { name: nm, fields, .. } && {
                &&& nm@ == name@
                &&& fields@.len() == members@.len()
                &&& forall|i: int| 0 <= i < fields@.len() ==> {
                    &&& (#[trigger] fields@[i]).name@ == members@[i].0@
                    &&& fields@[i].shape == members@[i].1
                    &&& fields@[i].offset == 0
                }
            },
    {
        let ghost all = members@;
        let n = members.len();
        let mut rest = members;
        let mut fields: Vec<Field> = Vec::new();
        let mut size: usize = 0;
        let mut align: usize = 1;
        while rest.len() > 0
            invariant
                fields@.len() + rest@.len() == n,
                n == all.len(),
                rest@ == all.skip(fields@.len() as int),
                align >= 1,
                forall|i: int| 0 <= i < fields@.len() ==> {
                    &&& (#[trigger] fields@[i]).name@ == all[i].0@
                    &&& fields@[i].shape == all[i].1
                    &&& fields@[i].offset == 0
                    &&& fields@[i].shape.size() <= size
                },
            decreases rest@.len(),
        {
            assert(rest@[0] == all[fields@.len() as int]);
            let (fname, fshape) = rest.remove(0);
            if fshape.size_of() > size {
                size = fshape.size_of();
            }
            if fshape.align_of() > align {
                align = fshape.align_of();
            }
            fields.push(Field { name: fname, offset: 0, shape: fshape });
            assert(rest@ == all.skip(fields@.len() as int));
        }
        Shape::Union { name, fields, size, align }
    }

    /// The field at position `i` of a product.
    pub fn field(&self, i: usize) -> (r: Option<&Field>)
        ensures
            r matches Some(f) ==> 0 <= i < self.fields().len() && *f == self.fields()[i as int],
            r is None <==> i >= self.fields().len(),
    {
        match self {
            Shape::Product { fields, .. } => if i < fields.len() {
                Some(&fields[i])
            } else {
                None
            },
            _ => None,
        }
    }
}

} // verus!
