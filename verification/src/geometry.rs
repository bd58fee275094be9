//! Geometric primitives in PDF user space: [`Point`], [`Size`], [`BBox`].
//!
//! Coordinates are IEEE-754 binary32 values held as bit patterns (see
//! [`crate::bits`]).  Every operation here is decided by exact floating-point
//! comparisons; nothing is rounded.

use vstd::prelude::*;
use crate::bits::{self, spec_le, spec_lt, spec_max, spec_min, spec_nonfinite, spec_nan};

verus! {

/// Errors raised when constructing geometric primitives from raw values.
#[derive(Debug, Clone, PartialEq, Eq)]
pub enum GeometryError {
    /// A coordinate is NaN or infinite.
    NonFinite,
    /// `x0 > x1` or `y0 > y1`; the offending coordinates, as bit patterns.
    Inverted { x0: u32, x1: u32, y0: u32, y1: u32 },
}

/// A 2D point in PDF user space.
#[derive(Copy, Clone, Debug, PartialEq, Eq)]
pub struct Point {
    pub x: u32,
    pub y: u32,
}

impl Point {
    /// Construct a point; `Err(NonFinite)` iff a coordinate is not finite.
    pub fn new(x: u32, y: u32) -> (r: Result<Point, GeometryError>)
        ensures
            spec_nonfinite(x) || spec_nonfinite(y) <==> r is Err,
            r is Err ==> r == Err::<Point, GeometryError>(GeometryError::NonFinite),
            r is Ok ==> r->Ok_0 == (Point { x, y }),
    {
        if !bits::is_finite(x) || !bits::is_finite(y) {
            return Err(GeometryError::NonFinite);
        }
        Ok(Point { x, y })
    }

    /// The origin `(0, 0)`.
    pub fn origin() -> (r: Point)
        ensures
            r.x == bits::ZERO && r.y == bits::ZERO,
    {
        Point { x: bits::ZERO, y: bits::ZERO }
    }
}

/// A width × height pair.
#[derive(Copy, Clone, Debug, PartialEq, Eq)]
pub struct Size {
    pub width: u32,
    pub height: u32,
}

/// Finite and not below zero (`-0.0` qualifies, as `-0.0 < 0.0` is false).
pub open spec fn nonneg_finite(b: u32) -> bool {
    !spec_nonfinite(b) && !spec_lt(b, bits::ZERO)
}

impl Size {
    /// Construct a size; both dimensions must be finite and non-negative.
    pub fn new(width: u32, height: u32) -> (r: Result<Size, GeometryError>)
        ensures
            r is Ok <==> nonneg_finite(width) && nonneg_finite(height),
            r is Err ==> r == Err::<Size, GeometryError>(GeometryError::NonFinite),
            r is Ok ==> r->Ok_0 == (Size { width, height }),
    {
        if !bits::is_finite(width) || !bits::is_finite(height) || bits::lt(width, bits::ZERO)
            || bits::lt(height, bits::ZERO) {
            return Err(GeometryError::NonFinite);
        }
        Ok(Size { width, height })
    }
}

/// Axis-aligned bounding box `[x0, x1] × [y0, y1]`.
#[derive(Copy, Clone, Debug, PartialEq, Eq)]
pub struct BBox {
    pub x0: u32,
    pub y0: u32,
    pub x1: u32,
    pub y1: u32,
}

impl BBox {
    /// The invariant that [`BBox::new`] establishes: finite and ordered.
    pub open spec fn wf(self) -> bool {
        &&& !spec_nonfinite(self.x0) && !spec_nonfinite(self.y0)
        &&& !spec_nonfinite(self.x1) && !spec_nonfinite(self.y1)
        &&& spec_le(self.x0, self.x1) && spec_le(self.y0, self.y1)
    }

    /// Construct a box. `NonFinite` when a coordinate is NaN or infinite,
    /// else `Inverted` when `x0 > x1` or `y0 > y1`.
    pub fn new(x0: u32, y0: u32, x1: u32, y1: u32) -> (r: Result<BBox, GeometryError>)
        ensures
            (spec_nonfinite(x0) || spec_nonfinite(y0) || spec_nonfinite(x1) || spec_nonfinite(y1))
                ==> r == Err::<BBox, GeometryError>(GeometryError::NonFinite),
            !(spec_nonfinite(x0) || spec_nonfinite(y0) || spec_nonfinite(x1) || spec_nonfinite(y1))
                && (spec_lt(x1, x0) || spec_lt(y1, y0)) ==> r == Err::<BBox, GeometryError>(
                GeometryError::Inverted { x0, x1, y0, y1 },
            ),
            r is Ok <==> (BBox { x0, y0, x1, y1 }).wf(),
            r is Ok ==> r->Ok_0 == (BBox { x0, y0, x1, y1 }),
    {
        if !bits::is_finite(x0) || !bits::is_finite(y0) || !bits::is_finite(x1) || !bits::is_finite(
            y1,
        ) {
            return Err(GeometryError::NonFinite);
        }
        if bits::lt(x1, x0) || bits::lt(y1, y0) {
            return Err(GeometryError::Inverted { x0, x1, y0, y1 });
        }
        Ok(BBox { x0, y0, x1, y1 })
    }

    /// The box spanned by two arbitrary corners (coordinate-wise min / max).
    pub fn from_corners(a: Point, b: Point) -> (r: BBox)
        ensures
            r == (BBox {
                x0: spec_min(a.x, b.x),
                y0: spec_min(a.y, b.y),
                x1: spec_max(a.x, b.x),
                y1: spec_max(a.y, b.y),
            }),
    {
        BBox { x0: bits::min(a.x, b.x), y0: bits::min(a.y, b.y), x1: bits::max(a.x, b.x), y1: bits::max(a.y, b.y) }
    }

    /// `point` lies in the closed box.
    pub fn contains_point(self, point: Point) -> (r: bool)
        ensures
            r == (spec_le(self.x0, point.x) && spec_le(point.x, self.x1) && spec_le(self.y0, point.y)
                && spec_le(point.y, self.y1)),
    {
        bits::le(self.x0, point.x) && bits::le(point.x, self.x1) && bits::le(self.y0, point.y)
            && bits::le(point.y, self.y1)
    }

    /// `other` lies inside `self` (boundary inclusive).
    pub fn contains_bbox(self, other: BBox) -> (r: bool)
        ensures
            r == self.spec_contains(other),
    {
        bits::le(self.x0, other.x0) && bits::le(other.x1, self.x1) && bits::le(self.y0, other.y0)
            && bits::le(other.y1, self.y1)
    }

    pub open spec fn spec_contains(self, other: BBox) -> bool {
        spec_le(self.x0, other.x0) && spec_le(other.x1, self.x1) && spec_le(self.y0, other.y0)
            && spec_le(other.y1, self.y1)
    }

    pub open spec fn spec_intersects(self, other: BBox) -> bool {
        spec_le(self.x0, other.x1) && spec_le(other.x0, self.x1) && spec_le(self.y0, other.y1)
            && spec_le(other.y0, self.y1)
    }

    /// The boxes overlap; touching boundaries count.
    pub fn intersects(self, other: BBox) -> (r: bool)
        ensures
            r == self.spec_intersects(other),
    {
        bits::le(self.x0, other.x1) && bits::le(other.x0, self.x1) && bits::le(self.y0, other.y1)
            && bits::le(other.y0, self.y1)
    }

    /// The common part, or `None` for disjoint boxes.
    pub fn intersect(self, other: BBox) -> (r: Option<BBox>)
        ensures
            r is Some <==> self.spec_intersects(other),
            r is Some ==> r->Some_0 == (BBox {
                x0: spec_max(self.x0, other.x0),
                y0: spec_max(self.y0, other.y0),
                x1: spec_min(self.x1, other.x1),
                y1: spec_min(self.y1, other.y1),
            }),
    {
        if !self.intersects(other) {
            return None;
        }
        Some(
            BBox {
                x0: bits::max(self.x0, other.x0),
                y0: bits::max(self.y0, other.y0),
                x1: bits::min(self.x1, other.x1),
                y1: bits::min(self.y1, other.y1),
            },
        )
    }

    pub open spec fn spec_union(self, other: BBox) -> BBox {
        BBox {
            x0: spec_min(self.x0, other.x0),
            y0: spec_min(self.y0, other.y0),
            x1: spec_max(self.x1, other.x1),
            y1: spec_max(self.y1, other.y1),
        }
    }

    /// The smallest box enclosing both.
    pub fn union(self, other: BBox) -> (r: BBox)
        ensures
            r == self.spec_union(other),
    {
        BBox {
            x0: bits::min(self.x0, other.x0),
            y0: bits::min(self.y0, other.y0),
            x1: bits::max(self.x1, other.x1),
            y1: bits::max(self.y1, other.y1),
        }
    }

    /// Zero width or zero height (`x1 - x0 == 0.0` or `y1 - y0 == 0.0`).
    /// For finite coordinates a difference is zero exactly when the two
    /// values compare equal.
    pub fn is_degenerate(self) -> (r: bool)
        requires
            self.wf(),
        ensures
            r == (bits::spec_eq(self.x0, self.x1) || bits::spec_eq(self.y0, self.y1)),
    {
        bits::eq(self.x0, self.x1) || bits::eq(self.y0, self.y1)
    }
}

/// Every finite box contains itself.
pub proof fn lemma_contains_self(b: BBox)
    requires
        b.wf(),
    ensures
        b.spec_contains(b),
{
}

/// The union of two well-formed boxes contains both operands.
pub proof fn lemma_union_contains_both(a: BBox, b: BBox)
    requires
        a.wf(),
        b.wf(),
    ensures
        a.spec_union(b).spec_contains(a),
        a.spec_union(b).spec_contains(b),
{
}

/// Union is commutative up to floating-point equality of the coordinates
/// (the two zeros compare equal).
pub proof fn lemma_union_commutative(a: BBox, b: BBox)
    requires
        a.wf(),
        b.wf(),
    ensures
        bits::spec_eq(a.spec_union(b).x0, b.spec_union(a).x0),
        bits::spec_eq(a.spec_union(b).y0, b.spec_union(a).y0),
        bits::spec_eq(a.spec_union(b).x1, b.spec_union(a).x1),
        bits::spec_eq(a.spec_union(b).y1, b.spec_union(a).y1),
{
}

/// Overlap is symmetric.
pub proof fn lemma_intersects_symmetric(a: BBox, b: BBox)
    ensures
        a.spec_intersects(b) == b.spec_intersects(a),
{
}

} // verus!
