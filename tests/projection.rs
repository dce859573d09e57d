use core::cell::Cell;
use core::mem::ManuallyDrop;

use munge::{Borrow, FieldPat, Leaf, Move, Pattern, ProductKind, Root, Shape};

struct NoisyDrop<'a> {
    counter: &'a Cell<usize>,
    value: u32,
}

impl<'a> Drop for NoisyDrop<'a> {
    fn drop(&mut self) {
        self.counter.set(self.counter.get() + 1);
    }
}

struct NoisyExample<'a> {
    a: NoisyDrop<'a>,
    b: (char, NoisyDrop<'a>),
}

fn u32_shape() -> Shape {
    Shape::scalar(4, 4)
}

fn i32_shape() -> Shape {
    Shape::scalar(4, 4)
}

fn char_shape() -> Shape {
    Shape::scalar(4, 4)
}

fn f32_shape() -> Shape {
    Shape::scalar(4, 4)
}

fn tuple_of(elems: Vec<Shape>) -> Shape {
    Shape::tuple(elems).unwrap()
}

fn array_of(elems: Vec<Shape>) -> Shape {
    Shape::array(elems).unwrap()
}

fn record_of(name: &str, fields: Vec<(&str, Shape)>) -> Shape {
    let members = fields.into_iter().map(|(n, s)| (n.to_string(), s)).collect();
    Shape::product(ProductKind::Struct, name.to_string(), false, members).unwrap()
}

fn tuple_struct_of(name: &str, elems: Vec<Shape>) -> Shape {
    Shape::positional(ProductKind::TupleStruct, name.to_string(), elems).unwrap()
}

fn bind(name: &str) -> Pattern {
    Pattern::bind(name.to_string())
}

fn bind_mut(name: &str) -> Pattern {
    Pattern::bind_mut(name.to_string())
}

fn tup(elems: Vec<Pattern>) -> Pattern {
    Pattern::tuple(elems)
}

fn arr(elems: Vec<Pattern>) -> Pattern {
    Pattern::slice(elems)
}

fn ts(path: &str, elems: Vec<Pattern>) -> Pattern {
    Pattern::tuple_struct(path.to_string(), elems)
}

fn rec(path: &str, entries: Vec<FieldPat>, rest: bool) -> Pattern {
    Pattern::record(path.to_string(), entries, rest)
}

fn short(member: &str) -> FieldPat {
    FieldPat::shorthand(member.to_string())
}

fn entry(member: &str, pat: Pattern) -> FieldPat {
    FieldPat::new(member.to_string(), pat)
}

fn to_u32(bytes: &[u8]) -> u32 {
    u32::from_le_bytes(bytes.try_into().unwrap())
}

fn to_char(bytes: &[u8]) -> char {
    char::from_u32(to_u32(bytes)).unwrap()
}

fn to_f32(bytes: &[u8]) -> f32 {
    f32::from_bits(to_u32(bytes))
}

fn write_u32(root: &mut Root<Borrow>, leaf: &Leaf, v: u32) -> u32 {
    root.write(leaf, &v.to_le_bytes());
    to_u32(&root.read(leaf))
}

fn write_i32(root: &mut Root<Borrow>, leaf: &Leaf, v: i32) -> i32 {
    root.write(leaf, &v.to_le_bytes());
    i32::from_le_bytes(root.read(leaf).try_into().unwrap())
}

fn write_char(root: &mut Root<Borrow>, leaf: &Leaf, v: char) -> char {
    root.write(leaf, &(v as u32).to_le_bytes());
    to_char(&root.read(leaf))
}

/// The offset of the field reached by following `path` from the root.
fn offset_of(shape: &Shape, path: &[usize]) -> usize {
    let mut off = 0;
    let mut s = shape;
    for &i in path {
        let f = s.field(i).unwrap();
        off += f.offset;
        s = &f.shape;
    }
    off
}

fn u32_at(bytes: &[u8], off: usize) -> u32 {
    to_u32(&bytes[off..off + 4])
}

fn i32_at(bytes: &[u8], off: usize) -> i32 {
    i32::from_le_bytes(bytes[off..off + 4].try_into().unwrap())
}

fn char_at(bytes: &[u8], off: usize) -> char {
    to_char(&bytes[off..off + 4])
}

fn f32_at(bytes: &[u8], off: usize) -> f32 {
    to_f32(&bytes[off..off + 4])
}

fn name_of(leaf: &Leaf) -> Option<&str> {
    leaf.binding.as_deref()
}

fn check_tuple(test_struct: Option<&str>) {
    let shape = match test_struct {
        Some(n) => tuple_struct_of(n, vec![u32_shape(), char_shape()]),
        None => tuple_of(vec![u32_shape(), char_shape()]),
    };
    let pat = |elems: Vec<Pattern>| match test_struct {
        Some(n) => ts(n, elems),
        None => tup(elems),
    };
    let mut mu = Root::uninit(shape, Borrow);

    let h = mu.destructure(&pat(vec![bind("a"), bind("b")])).unwrap();
    assert_eq!(write_u32(&mut mu, &h[0], 1), 1);
    assert_eq!(write_char(&mut mu, &h[1], 'a'), 'a');
    let h = mu.destructure(&pat(vec![bind("a"), bind("b")])).unwrap();
    assert_eq!(write_u32(&mut mu, &h[0], 2), 2);
    assert_eq!(write_char(&mut mu, &h[1], 'b'), 'b');

    let h = mu.destructure(&pat(vec![bind("a"), Pattern::Wild])).unwrap();
    assert_eq!(write_u32(&mut mu, &h[0], 3), 3);
    let h = mu.destructure(&pat(vec![Pattern::Wild, bind("b")])).unwrap();
    assert_eq!(write_char(&mut mu, &h[1], 'c'), 'c');
    let h = mu.destructure(&pat(vec![bind("a"), Pattern::Wild])).unwrap();
    assert_eq!(write_u32(&mut mu, &h[0], 3), 3);
    let h = mu.destructure(&pat(vec![Pattern::Wild, bind("b")])).unwrap();
    assert_eq!(write_char(&mut mu, &h[1], 'd'), 'd');

    let h = mu.destructure(&pat(vec![bind_mut("a"), bind_mut("b")])).unwrap();
    assert!(h[0].mutable && h[1].mutable);
    assert_eq!(write_u32(&mut mu, &h[0], 4), 4);
    assert_eq!(write_char(&mut mu, &h[1], 'e'), 'e');

    let h = mu.destructure(&pat(vec![bind("a"), Pattern::Rest])).unwrap();
    assert_eq!(h.len(), 1);
    assert_eq!(write_u32(&mut mu, &h[0], 5), 5);

    let (o0, o1) = (offset_of(mu.shape(), &[0]), offset_of(mu.shape(), &[1]));
    let init = mu.into_bytes();
    assert_eq!(u32_at(&init, o0), 5);
    assert_eq!(char_at(&init, o1), 'e');
}

#[test]
fn project_tuple() {
    let mut mu = Root::uninit(tuple_of(vec![u32_shape(), char_shape()]), Borrow);

    let h = mu.destructure(&tup(vec![bind("a"), bind("b")])).unwrap();
    assert_eq!(write_u32(&mut mu, &h[0], 1), 1);
    assert_eq!(write_char(&mut mu, &h[1], 'a'), 'a');
    let h = mu.destructure(&tup(vec![bind("a"), bind("b")])).unwrap();
    assert_eq!(write_u32(&mut mu, &h[0], 2), 2);
    assert_eq!(write_char(&mut mu, &h[1], 'b'), 'b');

    let h = mu.destructure(&tup(vec![bind("a"), Pattern::Wild])).unwrap();
    assert_eq!(write_u32(&mut mu, &h[0], 3), 3);
    let h = mu.destructure(&tup(vec![Pattern::Wild, bind("b")])).unwrap();
    assert_eq!(write_char(&mut mu, &h[1], 'c'), 'c');
    let h = mu.destructure(&tup(vec![bind("a"), Pattern::Wild])).unwrap();
    assert_eq!(write_u32(&mut mu, &h[0], 3), 3);
    let h = mu.destructure(&tup(vec![Pattern::Wild, bind("b")])).unwrap();
    assert_eq!(write_char(&mut mu, &h[1], 'c'), 'c');

    let h = mu.destructure(&tup(vec![bind_mut("a"), bind_mut("b")])).unwrap();
    assert!(h[0].mutable && h[1].mutable);
    assert_eq!(write_u32(&mut mu, &h[0], 4), 4);
    assert_eq!(write_char(&mut mu, &h[1], 'd'), 'd');

    let h = mu.destructure(&tup(vec![bind("a"), Pattern::Rest])).unwrap();
    assert_eq!(write_u32(&mut mu, &h[0], 5), 5);

    let (o0, o1) = (offset_of(mu.shape(), &[0]), offset_of(mu.shape(), &[1]));
    let init = mu.into_bytes();
    assert_eq!(u32_at(&init, o0), 5);
    assert_eq!(char_at(&init, o1), 'd');
}

#[test]
fn test_project_tuple() {
    let mut mu = Root::uninit(tuple_of(vec![u32_shape(), char_shape()]), Borrow);

    let h = mu.destructure(&tup(vec![bind("a"), bind("b")])).unwrap();
    assert_eq!(write_u32(&mut mu, &h[0], 1), 1);
    assert_eq!(write_char(&mut mu, &h[1], 'a'), 'a');
    let h = mu.destructure(&tup(vec![bind("a"), bind("b")])).unwrap();
    assert_eq!(write_u32(&mut mu, &h[0], 2), 2);
    assert_eq!(write_char(&mut mu, &h[1], 'b'), 'b');

    let h = mu.destructure(&tup(vec![bind("a"), Pattern::Wild])).unwrap();
    assert_eq!(write_u32(&mut mu, &h[0], 3), 3);
    let h = mu.destructure(&tup(vec![Pattern::Wild, bind("b")])).unwrap();
    assert_eq!(write_char(&mut mu, &h[1], 'c'), 'c');
    let h = mu.destructure(&tup(vec![bind("a"), Pattern::Wild])).unwrap();
    assert_eq!(write_u32(&mut mu, &h[0], 3), 3);
    let h = mu.destructure(&tup(vec![Pattern::Wild, bind("b")])).unwrap();
    assert_eq!(write_char(&mut mu, &h[1], 'c'), 'c');

    let h = mu.destructure(&tup(vec![bind_mut("a"), bind_mut("b")])).unwrap();
    assert_eq!(write_u32(&mut mu, &h[0], 4), 4);
    assert_eq!(write_char(&mut mu, &h[1], 'd'), 'd');

    let h = mu.destructure(&tup(vec![bind("a"), Pattern::Rest])).unwrap();
    assert_eq!(write_u32(&mut mu, &h[0], 5), 5);

    let (o0, o1) = (offset_of(mu.shape(), &[0]), offset_of(mu.shape(), &[1]));
    let init = mu.into_bytes();
    assert_eq!(u32_at(&init, o0), 5);
    assert_eq!(char_at(&init, o1), 'd');
}

fn check_array(last: u32) {
    let mut mu = Root::uninit(array_of(vec![u32_shape(), u32_shape()]), Borrow);

    let h = mu.destructure(&arr(vec![bind("a"), bind("b")])).unwrap();
    assert_eq!(write_u32(&mut mu, &h[0], 1), 1);
    assert_eq!(write_u32(&mut mu, &h[1], 1), 1);
    let h = mu.destructure(&arr(vec![bind("a"), bind("b")])).unwrap();
    assert_eq!(write_u32(&mut mu, &h[0], 2), 2);
    assert_eq!(write_u32(&mut mu, &h[1], 2), 2);

    let h = mu.destructure(&arr(vec![bind("a"), Pattern::Wild])).unwrap();
    assert_eq!(write_u32(&mut mu, &h[0], 3), 3);
    let h = mu.destructure(&arr(vec![Pattern::Wild, bind("b")])).unwrap();
    assert_eq!(write_u32(&mut mu, &h[1], 3), 3);
    let h = mu.destructure(&arr(vec![bind("a"), Pattern::Wild])).unwrap();
    assert_eq!(write_u32(&mut mu, &h[0], 4), 4);
    let h = mu.destructure(&arr(vec![Pattern::Wild, bind("b")])).unwrap();
    assert_eq!(write_u32(&mut mu, &h[1], 4), 4);

    let h = mu.destructure(&arr(vec![bind_mut("a"), bind_mut("b")])).unwrap();
    assert_eq!(write_u32(&mut mu, &h[0], 5), 5);
    assert_eq!(write_u32(&mut mu, &h[1], 5), 5);

    let h = mu.destructure(&arr(vec![bind("a"), Pattern::Rest])).unwrap();
    assert_eq!(write_u32(&mut mu, &h[0], last), last);

    let (o0, o1) = (offset_of(mu.shape(), &[0]), offset_of(mu.shape(), &[1]));
    let init = mu.into_bytes();
    assert_eq!(u32_at(&init, o0), 6);
    assert_eq!(u32_at(&init, o1), 5);
}

#[test]
fn project_array() {
    check_array(6);
}

#[test]
fn test_project_array() {
    check_array(6);
}

fn example_ab() -> Shape {
    record_of("Example", vec![("a", u32_shape()), ("b", char_shape())])
}

fn check_struct() {
    let mut mu = Root::uninit(example_ab(), Borrow);

    let h = mu.destructure(&rec("Example", vec![short("a"), short("b")], false)).unwrap();
    assert_eq!(write_u32(&mut mu, &h[0], 1), 1);
    assert_eq!(write_char(&mut mu, &h[1], 'a'), 'a');
    let h = mu.destructure(&rec("Example", vec![short("a"), short("b")], false)).unwrap();
    assert_eq!(write_u32(&mut mu, &h[0], 2), 2);
    assert_eq!(write_char(&mut mu, &h[1], 'b'), 'b');

    let h = mu.destructure(&rec("Example", vec![short("a"), entry("b", bind("x"))], false)).unwrap();
    assert_eq!(name_of(&h[1]), Some("x"));
    assert_eq!(write_u32(&mut mu, &h[0], 3), 3);
    assert_eq!(write_char(&mut mu, &h[1], 'c'), 'c');
    let h = mu.destructure(&rec("Example", vec![short("a"), entry("b", bind("x"))], false)).unwrap();
    assert_eq!(write_u32(&mut mu, &h[0], 4), 4);
    assert_eq!(write_char(&mut mu, &h[1], 'd'), 'd');

    let h = mu.destructure(&rec("Example", vec![entry("a", bind("x")), short("b")], false)).unwrap();
    assert_eq!(write_u32(&mut mu, &h[0], 3), 3);
    assert_eq!(write_char(&mut mu, &h[1], 'c'), 'c');
    let h = mu.destructure(&rec("Example", vec![entry("a", bind("x")), short("b")], false)).unwrap();
    assert_eq!(write_u32(&mut mu, &h[0], 4), 4);
    assert_eq!(write_char(&mut mu, &h[1], 'd'), 'd');

    let h = mu.destructure(&rec("Example", vec![short("a"), entry("b", Pattern::Wild)], false)).unwrap();
    assert_eq!(write_u32(&mut mu, &h[0], 5), 5);
    let h = mu.destructure(&rec("Example", vec![short("a"), entry("b", Pattern::Wild)], false)).unwrap();
    assert_eq!(write_u32(&mut mu, &h[0], 6), 6);

    let h = mu.destructure(&rec("Example", vec![entry("a", bind_mut("a")), entry("b", bind_mut("b"))], false)).unwrap();
    assert_eq!(write_u32(&mut mu, &h[0], 7), 7);
    assert_eq!(write_char(&mut mu, &h[1], 'e'), 'e');

    let h = mu.destructure(&rec("Example", vec![entry("a", bind_mut("x")), entry("b", bind_mut("y"))], false)).unwrap();
    assert_eq!(write_u32(&mut mu, &h[0], 8), 8);
    assert_eq!(write_char(&mut mu, &h[1], 'f'), 'f');

    let h = mu.destructure(&rec("Example", vec![short("b")], true)).unwrap();
    assert_eq!(h.len(), 1);
    assert_eq!(write_char(&mut mu, &h[0], 'g'), 'g');

    let (oa, ob) = (offset_of(mu.shape(), &[0]), offset_of(mu.shape(), &[1]));
    let init = mu.into_bytes();
    assert_eq!(u32_at(&init, oa), 8);
    assert_eq!(char_at(&init, ob), 'g');
}

#[test]
fn project_struct() {
    check_struct();
}

#[test]
fn test_project_struct() {
    check_struct();
}

#[test]
fn project_tuple_struct() {
    check_tuple(Some("Example"));
}

#[test]
fn test_project_tuple_struct() {
    check_tuple(Some("Example"));
}

fn check_generic() {
    let mut mu = Root::uninit(tuple_struct_of("Example", vec![u32_shape(), char_shape()]), Borrow);

    let h = mu.destructure(&ts("Example", vec![bind("a"), bind("b")])).unwrap();
    assert_eq!(write_u32(&mut mu, &h[0], 1), 1);
    assert_eq!(write_char(&mut mu, &h[1], 'a'), 'a');
    let h = mu.destructure(&ts("Example", vec![bind("a"), bind("b")])).unwrap();
    assert_eq!(write_u32(&mut mu, &h[0], 2), 2);
    assert_eq!(write_char(&mut mu, &h[1], 'b'), 'b');

    let h = mu.destructure(&ts("Example", vec![bind("a"), Pattern::Wild])).unwrap();
    assert_eq!(write_u32(&mut mu, &h[0], 3), 3);
    let h = mu.destructure(&ts("Example", vec![Pattern::Wild, bind("b")])).unwrap();
    assert_eq!(write_char(&mut mu, &h[1], 'c'), 'c');
    let h = mu.destructure(&ts("Example", vec![bind("a"), Pattern::Wild])).unwrap();
    assert_eq!(write_u32(&mut mu, &h[0], 3), 3);
    let h = mu.destructure(&ts("Example", vec![Pattern::Wild, bind("b")])).unwrap();
    assert_eq!(write_char(&mut mu, &h[1], 'c'), 'c');

    let h = mu.destructure(&ts("Example", vec![bind("a"), Pattern::Rest])).unwrap();
    assert_eq!(write_u32(&mut mu, &h[0], 4), 4);

    let (o0, o1) = (offset_of(mu.shape(), &[0]), offset_of(mu.shape(), &[1]));
    let init = mu.into_bytes();
    assert_eq!(u32_at(&init, o0), 4);
    assert_eq!(char_at(&init, o1), 'c');

    let inner = tuple_struct_of("Example", vec![u32_shape(), char_shape()]);
    let mut mu = Root::uninit(tuple_struct_of("Example", vec![u32_shape(), inner]), Borrow);

    let pat = ts("Example", vec![bind("a"), ts("Example", vec![bind("b"), bind("c")])]);
    let h = mu.destructure(&pat).unwrap();
    assert_eq!(write_u32(&mut mu, &h[0], 1), 1);
    assert_eq!(write_u32(&mut mu, &h[1], 2), 2);
    assert_eq!(write_char(&mut mu, &h[2], 'a'), 'a');

    let shape = mu.shape();
    let (o0, o10, o11) = (offset_of(shape, &[0]), offset_of(shape, &[1, 0]), offset_of(shape, &[1, 1]));
    let init = mu.into_bytes();
    assert_eq!(u32_at(&init, o0), 1);
    assert_eq!(u32_at(&init, o10), 2);
    assert_eq!(char_at(&init, o11), 'a');
}

#[test]
fn project_generic() {
    check_generic();
}

#[test]
fn test_project_generic() {
    check_generic();
}

fn check_nested_struct() {
    let inner = record_of("Inner", vec![("a", u32_shape()), ("b", char_shape())]);
    let outer = record_of("Outer", vec![("inner", inner), ("c", i32_shape())]);
    let mut mu = Root::uninit(outer, Borrow);

    let pat = rec("Outer", vec![entry("inner", rec("Inner", vec![short("a"), short("b")], false)), short("c")], false);
    let h = mu.destructure(&pat).unwrap();
    assert_eq!(write_u32(&mut mu, &h[0], 1), 1);
    assert_eq!(write_char(&mut mu, &h[1], 'a'), 'a');
    assert_eq!(write_i32(&mut mu, &h[2], 2), 2);

    let shape = mu.shape();
    let (oa, ob, oc) = (offset_of(shape, &[0, 0]), offset_of(shape, &[0, 1]), offset_of(shape, &[1]));
    let init = mu.into_bytes();
    assert_eq!(u32_at(&init, oa), 1);
    assert_eq!(char_at(&init, ob), 'a');
    assert_eq!(i32_at(&init, oc), 2);
}

#[test]
fn project_nested_struct() {
    check_nested_struct();
}

#[test]
fn test_project_nested_struct() {
    check_nested_struct();
}

#[test]
fn generics() {
    check_nested_struct();
}

#[test]
fn test_generics() {
    check_nested_struct();
}

fn check_nested_tuple() {
    let shape = tuple_of(vec![u32_shape(), tuple_of(vec![char_shape(), u32_shape()])]);
    let mut mu = Root::uninit(shape, Borrow);

    let h = mu.destructure(&tup(vec![bind("a"), tup(vec![bind("b"), bind("c")])])).unwrap();
    assert_eq!(write_u32(&mut mu, &h[0], 1), 1);
    assert_eq!(write_char(&mut mu, &h[1], 'a'), 'a');
    assert_eq!(write_u32(&mut mu, &h[2], 2), 2);

    let shape = mu.shape();
    let (o0, o10, o11) = (offset_of(shape, &[0]), offset_of(shape, &[1, 0]), offset_of(shape, &[1, 1]));
    let init = mu.into_bytes();
    assert_eq!((u32_at(&init, o0), (char_at(&init, o10), u32_at(&init, o11))), (1, ('a', 2)));
}

#[test]
fn project_nested_tuple() {
    check_nested_tuple();
}

#[test]
fn test_project_nested_tuple() {
    check_nested_tuple();
}

fn check_nested_array() {
    let row = || array_of(vec![u32_shape(), u32_shape()]);
    let mut mu = Root::uninit(array_of(vec![row(), row()]), Borrow);

    let h = mu.destructure(&arr(vec![bind("a"), arr(vec![bind("b"), bind("c")])])).unwrap();
    let mut a = Vec::new();
    a.extend_from_slice(&1u32.to_le_bytes());
    a.extend_from_slice(&2u32.to_le_bytes());
    mu.write(&h[0], &a);
    let back = mu.read(&h[0]);
    assert_eq!([u32_at(&back, 0), u32_at(&back, 4)], [1, 2]);
    assert_eq!(write_u32(&mut mu, &h[1], 3), 3);
    assert_eq!(write_u32(&mut mu, &h[2], 4), 4);

    let shape = mu.shape();
    let offs = [offset_of(shape, &[0, 0]), offset_of(shape, &[0, 1]), offset_of(shape, &[1, 0]), offset_of(shape, &[1, 1])];
    let init = mu.into_bytes();
    let v = offs.map(|o| u32_at(&init, o));
    assert_eq!([[v[0], v[1]], [v[2], v[3]]], [[1, 2], [3, 4]]);
}

#[test]
fn project_nested_array() {
    check_nested_array();
}

#[test]
fn test_project_nested_array() {
    check_nested_array();
}

fn example_cell() -> Shape {
    record_of("Example", vec![("a", u32_shape()), ("b", tuple_of(vec![char_shape(), f32_shape()]))])
}

fn example_cell_bytes(a: u32, c: char, f: f32) -> Vec<u8> {
    let mut v = Vec::new();
    v.extend_from_slice(&a.to_le_bytes());
    v.extend_from_slice(&(c as u32).to_le_bytes());
    v.extend_from_slice(&f.to_bits().to_le_bytes());
    v
}

fn check_cell() {
    let shape = example_cell();
    assert_eq!(shape.size_of(), 12);
    let mut cell = Root::new(shape, example_cell_bytes(10, 'x', core::f32::consts::PI), Borrow);

    let h = cell.destructure(&rec("Example", vec![short("a"), entry("b", tup(vec![bind("c"), bind("f")]))], false)).unwrap();
    assert_eq!(to_u32(&cell.read(&h[0])), 10);
    cell.write(&h[0], &42u32.to_le_bytes());
    assert_eq!(to_char(&cell.read(&h[1])), 'x');
    cell.write(&h[1], &('!' as u32).to_le_bytes());
    assert_eq!(to_f32(&cell.read(&h[2])), core::f32::consts::PI);
    cell.write(&h[2], &1.41f32.to_bits().to_le_bytes());

    let shape = cell.shape();
    let (oa, oc, of) = (offset_of(shape, &[0]), offset_of(shape, &[1, 0]), offset_of(shape, &[1, 1]));
    let value = cell.into_bytes();
    assert_eq!(u32_at(&value, oa), 42);
    assert_eq!(char_at(&value, oc), '!');
    assert_eq!(f32_at(&value, of), 1.41);
}

#[test]
fn cell() {
    check_cell();
}

#[test]
fn test_cell() {
    check_cell();
}

fn pair_bytes() -> Vec<u8> {
    let mut v = Vec::new();
    v.extend_from_slice(&10_000u32.to_le_bytes());
    v.extend_from_slice(&('x' as u32).to_le_bytes());
    v
}

fn check_pair_by_value(pat: Pattern) {
    let value = Root::new(tuple_of(vec![u32_shape(), char_shape()]), pair_bytes(), Move);
    let h = value.destructure(&pat).unwrap();
    let parts = value.take_parts(&h);
    assert_eq!(to_u32(&parts[0]), 10_000);
    assert_eq!(to_char(&parts[1]), 'x');
}

#[test]
fn maybe_uninit_value() {
    check_pair_by_value(tup(vec![bind("a"), bind("b")]));
}

#[test]
fn cell_value() {
    check_pair_by_value(tup(vec![bind("a"), bind("b")]));
}

#[test]
fn unsafe_cell_value() {
    check_pair_by_value(tup(vec![bind_mut("a"), bind_mut("b")]));
}

#[test]
fn manually_drop_value() {
    check_pair_by_value(tup(vec![bind("a"), bind("b")]));
}

fn example_ab_u32() -> Shape {
    record_of("Example", vec![("a", u32_shape()), ("b", u32_shape())])
}

#[test]
fn struct_borrow_partial_destructuring() {
    let mut bytes = Vec::new();
    bytes.extend_from_slice(&0u32.to_le_bytes());
    bytes.extend_from_slice(&1u32.to_le_bytes());
    let mut value = Root::new(example_ab_u32(), bytes, Borrow);

    let h = value.destructure(&rec("Example", vec![short("a")], true)).unwrap();
    assert_eq!(to_u32(&value.read(&h[0])), 0);
    value.write(&h[0], &2u32.to_le_bytes());
    assert_eq!(to_u32(&value.read(&h[0])), 2);

    let h = value.destructure(&rec("Example", vec![entry("a", bind("c")), entry("b", Pattern::Wild)], false)).unwrap();
    assert_eq!(to_u32(&value.read(&h[0])), 2);
    value.write(&h[0], &3u32.to_le_bytes());
    assert_eq!(to_u32(&value.read(&h[0])), 3);
}

#[test]
fn tuple_borrow_partial_destructuring() {
    let mut bytes = Vec::new();
    bytes.extend_from_slice(&0u32.to_le_bytes());
    bytes.extend_from_slice(&1u32.to_le_bytes());
    let mut value = Root::new(tuple_struct_of("Example", vec![u32_shape(), u32_shape()]), bytes, Borrow);

    let h = value.destructure(&ts("Example", vec![bind("a"), Pattern::Rest])).unwrap();
    assert_eq!(to_u32(&value.read(&h[0])), 0);
    value.write(&h[0], &2u32.to_le_bytes());
    assert_eq!(to_u32(&value.read(&h[0])), 2);

    let h = value.destructure(&ts("Example", vec![bind("c"), Pattern::Wild])).unwrap();
    assert_eq!(to_u32(&value.read(&h[0])), 2);
    value.write(&h[0], &3u32.to_le_bytes());
    assert_eq!(to_u32(&value.read(&h[0])), 3);
}

#[test]
fn test_pin() {
    let shape = record_of("Example", vec![("a", u32_shape()), ("b", char_shape()), ("_phantom", Shape::scalar(0, 1))]);
    let mut bytes = Vec::new();
    bytes.extend_from_slice(&0u32.to_le_bytes());
    bytes.extend_from_slice(&(' ' as u32).to_le_bytes());
    let mut pin = Root::new(shape, bytes, Borrow);

    let h = pin.destructure(&rec("Example", vec![short("a"), short("b")], true)).unwrap();
    pin.write(&h[0], &1u32.to_le_bytes());
    pin.write(&h[1], &('a' as u32).to_le_bytes());

    let (oa, ob) = (offset_of(pin.shape(), &[0]), offset_of(pin.shape(), &[1]));
    let full = pin.destructure(&rec("Example", vec![short("a"), short("b")], true)).unwrap();
    assert_eq!(to_u32(&pin.read(&full[0])), 1);
    assert_eq!(to_char(&pin.read(&full[1])), 'a');
    let value = pin.into_bytes();
    assert_eq!(u32_at(&value, oa), 1);
    assert_eq!(char_at(&value, ob), 'a');
}

#[test]
fn test_manually_drop() {
    let counter = &Cell::new(0);
    assert_eq!(counter.get(), 0);

    let noisy_test = NoisyDrop { counter, value: 0 };
    drop(noisy_test);
    assert_eq!(counter.get(), 1);

    let noisy = || record_of("NoisyDrop", vec![("counter", Shape::indirection(8, 8)), ("value", u32_shape())]);
    let noisy_bytes = |n: &NoisyDrop| {
        let mut v = vec![0u8; 8];
        v.extend_from_slice(&n.value.to_le_bytes());
        v.extend_from_slice(&[0u8; 4]);
        v
    };

    {
        let value = ManuallyDrop::new(NoisyExample {
            a: NoisyDrop { counter, value: 1 },
            b: ('x', NoisyDrop { counter, value: 2 }),
        });
        let shape = record_of("Example", vec![("a", noisy()), ("b", tuple_of(vec![char_shape(), noisy()]))]);
        let mut bytes = noisy_bytes(&value.a);
        bytes.extend_from_slice(&(value.b.0 as u32).to_le_bytes());
        bytes.extend_from_slice(&[0u8; 4]);
        bytes.extend_from_slice(&noisy_bytes(&value.b.1));
        assert_eq!(bytes.len(), shape.size_of());
        let root = Root::new(shape, bytes, Move);

        let pat = rec("Example", vec![short("a"), entry("b", tup(vec![bind("c"), bind("d")]))], false);
        let h = root.destructure(&pat).unwrap();
        let parts = root.take_parts(&h);
        let value_at = noisy().field(1).unwrap().offset;
        assert_eq!(u32_at(&parts[0], value_at), 1);
        assert_eq!(to_char(&parts[1]), 'x');
        assert_eq!(u32_at(&parts[2], value_at), 2);
    }

    assert_eq!(counter.get(), 1);
}
