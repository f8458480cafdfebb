//! The plane geometry this crate builds on, as `kurbo` provides it.
//!
//! Points, vectors, rectangles, affine maps and paths are `kurbo` values. Their
//! coordinates are floating point numbers, which the proofs never look into: a
//! value is carried through as it is, and each operation on it is a call into
//! `kurbo` whose result has a name here. Every contract of such a call is
//! taken on trust from `kurbo`'s source.
//!
//! Two values are the same to the contracts where `kurbo` finds their
//! coordinates equal, with one NaN as good as another. The operations named
//! here are sums, products, minima, maxima and comparisons of coordinates,
//! which respect that.

use kurbo::{Affine, BezPath, Point, Rect, Vec2};
use vstd::prelude::*;

verus! {

// The types of `kurbo` that this crate's signatures and fields hold. Nothing
// inside a value of them is visible to the proofs.
#[verifier::external_type_specification]
#[verifier::external_body]
pub struct ExAffine(kurbo::Affine);

#[verifier::external_type_specification]
#[verifier::external_body]
pub struct ExPoint(kurbo::Point);

#[verifier::external_type_specification]
#[verifier::external_body]
pub struct ExVec2(kurbo::Vec2);

#[verifier::external_type_specification]
#[verifier::external_body]
pub struct ExRect(kurbo::Rect);

#[verifier::external_type_specification]
#[verifier::external_body]
pub struct ExBezPath(kurbo::BezPath);

/// One drawing instruction of a path, as `kurbo::PathEl` has them.
pub enum PathElement {
    MoveTo(Point),
    LineTo(Point),
    QuadTo(Point, Point),
    CurveTo(Point, Point, Point),
    ClosePath,
}

/// The bit pattern of the double infinity. The patterns of the doubles that
/// are not negative lie at or below it, in the order of the doubles; the
/// patterns above it, without the sign bit, belong to no number.
pub const INFINITE: u64 = 0x7FF0_0000_0000_0000;

/// The place of a double that is not negative among such doubles, given its
/// bit pattern: the pattern itself for a number, with infinity the largest of
/// them, and one and the same place above them all for what is no number.
pub open spec fn rank(bits: u64) -> u64 {
    if bits > INFINITE {
        u64::MAX
    } else {
        bits
    }
}

/// The place of a double that is not negative among such doubles.
pub fn rank_of(bits: u64) -> (place: u64)
    ensures
        place == rank(bits),
{
    if bits > INFINITE {
        u64::MAX
    } else {
        bits
    }
}

/// The map that applies `inner` first and `outer` second: `outer * inner`.
pub uninterp spec fn transform_product(outer: Affine, inner: Affine) -> Affine;

/// The image of `p` under `t`: `t * p`.
pub uninterp spec fn transform_point(t: Affine, p: Point) -> Point;

/// `t` followed by a translation by `by`.
pub uninterp spec fn transform_shifted(t: Affine, by: Vec2) -> Affine;

/// The translation part of `t`.
pub uninterp spec fn transform_offset(t: Affine) -> Vec2;

/// The point that `v` leads to from the origin.
pub uninterp spec fn vector_point(v: Vec2) -> Point;

/// The vector that leads from `from` to `to`: `to - from`.
pub uninterp spec fn point_difference(to: Point, from: Point) -> Vec2;

/// The squared length of `v`, as the rank of the double that holds it.
pub uninterp spec fn vector_length_squared(v: Vec2) -> u64;

/// The rectangle of no extent that lies at `p`.
pub uninterp spec fn point_rect(p: Point) -> Rect;

/// `r` stretched so far that it reaches `p`.
pub uninterp spec fn rect_with_point(r: Rect, p: Point) -> Rect;

/// `r` grown on all four sides by the larger of its width and its height.
pub uninterp spec fn rect_padded(r: Rect) -> Rect;

/// What `a` and `b` have in common.
pub uninterp spec fn rect_overlap(a: Rect, b: Rect) -> Rect;

/// Whether the area of `r` is zero.
pub uninterp spec fn rect_is_flat(r: Rect) -> bool;

/// The drawing instructions that `path` holds, in order.
pub uninterp spec fn path_elements(path: BezPath) -> Seq<PathElement>;

/// A path that `kurbo` accepts a new subpath on: it is empty or starts with a
/// `MoveTo`.
pub open spec fn path_starts_well(elements: Seq<PathElement>) -> bool {
    elements.len() == 0 || elements[0] is MoveTo
}

/// A path with a subpath that `kurbo` accepts a line or a closing on: it
/// starts with a `MoveTo` and does not end with a `ClosePath`.
pub open spec fn path_is_open(elements: Seq<PathElement>) -> bool {
    &&& elements.len() > 0
    &&& elements[0] is MoveTo
    &&& !(elements.last() is ClosePath)
}

/// `kurbo`'s `Mul<Affine> for Affine`. Trusted: the result is the product the
/// crate names `transform_product`, the same for the same two maps.
#[verifier::external_body]
pub(crate) fn compose(outer: &Affine, inner: &Affine) -> (product: Affine)
    ensures
        product == transform_product(*outer, *inner),
{
    *outer * *inner
}

/// `kurbo`'s `Mul<Point> for Affine`. Trusted: the result is the point the
/// crate names `transform_point`.
#[verifier::external_body]
pub(crate) fn apply(t: &Affine, p: &Point) -> (image: Point)
    ensures
        image == transform_point(*t, *p),
{
    *t * *p
}

/// `kurbo::Affine::then_translate`. Trusted: the result is the map the crate
/// names `transform_shifted`.
#[verifier::external_body]
pub(crate) fn then_translate(t: &Affine, by: &Vec2) -> (shifted: Affine)
    ensures
        shifted == transform_shifted(*t, *by),
{
    t.then_translate(*by)
}

/// `kurbo::Affine::translation`. Trusted: the result is the vector the crate
/// names `transform_offset`.
#[verifier::external_body]
pub(crate) fn translation(t: &Affine) -> (offset: Vec2)
    ensures
        offset == transform_offset(*t),
{
    t.translation()
}

/// `kurbo::Vec2::to_point`. Trusted: the result is the point the crate names
/// `vector_point`.
#[verifier::external_body]
pub(crate) fn to_point(v: &Vec2) -> (p: Point)
    ensures
        p == vector_point(*v),
{
    v.to_point()
}

/// `kurbo`'s `Sub<Point> for Point`. Trusted: the result is the vector the
/// crate names `point_difference`.
#[verifier::external_body]
pub(crate) fn difference(to: &Point, from: &Point) -> (v: Vec2)
    ensures
        v == point_difference(*to, *from),
{
    *to - *from
}

/// `kurbo::Vec2::length_squared`, handed out as the bit pattern of the double.
/// Trusted: the rank of the result is the number the crate names
/// `vector_length_squared`.
///
/// `kurbo` computes `x * x + y * y`, which is never below zero and never the
/// negative zero, so that the rank orders the results as the lengths are
/// ordered. Which of the patterns of NaN comes back where the length is no
/// number is left open, and the rank does not tell them apart.
#[verifier::external_body]
pub(crate) fn length_squared(v: &Vec2) -> (bits: u64)
    ensures
        rank(bits) == vector_length_squared(*v),
{
    v.length_squared().to_bits()
}

/// `kurbo::Rect::from_origin_size`, called with the size zero. Trusted: the
/// result is the rectangle the crate names `point_rect`.
#[verifier::external_body]
pub(crate) fn rect_at(p: &Point) -> (r: Rect)
    ensures
        r == point_rect(*p),
{
    Rect::from_origin_size(*p, kurbo::Size::ZERO)
}

/// `kurbo::Rect::union_pt`. Trusted: the result is the rectangle the crate
/// names `rect_with_point`.
#[verifier::external_body]
pub(crate) fn union_pt(r: &Rect, p: &Point) -> (grown: Rect)
    ensures
        grown == rect_with_point(*r, *p),
{
    r.union_pt(*p)
}

/// `kurbo::Rect::inflate`, called on both axes with the larger of
/// `kurbo::Rect::width` and `kurbo::Rect::height` of the same rectangle.
/// Trusted: the result is the rectangle the crate names `rect_padded`.
#[verifier::external_body]
pub(crate) fn inflate_by_larger_side(r: &Rect) -> (padded: Rect)
    ensures
        padded == rect_padded(*r),
{
    let side = r.width().max(r.height());
    r.inflate(side, side)
}

/// `kurbo::Rect::intersect`. Trusted: the result is the rectangle the crate
/// names `rect_overlap`.
#[verifier::external_body]
pub(crate) fn intersect(a: &Rect, b: &Rect) -> (common: Rect)
    ensures
        common == rect_overlap(*a, *b),
{
    a.intersect(*b)
}

/// `kurbo::Rect::is_empty`. Trusted: the result is the answer the crate names
/// `rect_is_flat`.
#[verifier::external_body]
pub(crate) fn is_flat(r: &Rect) -> (flat: bool)
    ensures
        flat == rect_is_flat(*r),
{
    r.is_empty()
}

/// `kurbo::BezPath::new`. Trusted: the new path holds no element.
#[verifier::external_body]
pub(crate) fn new_path() -> (path: BezPath)
    ensures
        path_elements(path) == Seq::<PathElement>::empty(),
{
    BezPath::new()
}

/// `kurbo::BezPath::move_to`. Trusted: one `MoveTo` is added at the end.
///
/// In a debug build `kurbo` panics on a path that does not start with a
/// `MoveTo`, which the `requires` rules out.
#[verifier::external_body]
pub(crate) fn move_to(path: &mut BezPath, p: &Point)
    requires
        path_starts_well(path_elements(*old(path))),
    ensures
        path_elements(*final(path)) == path_elements(*old(path)).push(PathElement::MoveTo(*p)),
{
    path.move_to(*p)
}

/// `kurbo::BezPath::line_to`. Trusted: one `LineTo` is added at the end.
///
/// In a debug build `kurbo` panics where no subpath is open, which the
/// `requires` rules out.
#[verifier::external_body]
pub(crate) fn line_to(path: &mut BezPath, p: &Point)
    requires
        path_is_open(path_elements(*old(path))),
    ensures
        path_elements(*final(path)) == path_elements(*old(path)).push(PathElement::LineTo(*p)),
{
    path.line_to(*p)
}

/// `kurbo::BezPath::close_path`. Trusted: one `ClosePath` is added at the end.
///
/// In a debug build `kurbo` panics where no subpath is open, which the
/// `requires` rules out.
#[verifier::external_body]
pub(crate) fn close_path(path: &mut BezPath)
    requires
        path_is_open(path_elements(*old(path))),
    ensures
        path_elements(*final(path)) == path_elements(*old(path)).push(PathElement::ClosePath),
{
    path.close_path()
}

} // verus!
