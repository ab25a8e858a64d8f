//! Integer plane geometry: points and axis-aligned rectangles in world units.
//!
//! World coordinates are signed 64-bit integers in a fixed-point unit chosen by
//! the caller (for a metric projection, micrometres keep six decimal places).

use vstd::prelude::*;

verus! {

/// A point of the plane.
#[derive(Clone, Copy, Debug, PartialEq, Eq, Hash, Structural)]
pub struct Point {
    pub x: i64,
    pub y: i64,
}

impl Point {
    /// The point with the given coordinates.
    pub fn new(x: i64, y: i64) -> (p: Point)
        ensures
            p == (Point { x, y }),
    {
        Point { x, y }
    }

    pub fn x(&self) -> (x: i64)
        ensures
            x == self.x,
    {
        self.x
    }

    pub fn y(&self) -> (y: i64)
        ensures
            y == self.y,
    {
        self.y
    }
}

/// An axis-aligned rectangle, sides included. Its lower bounds never exceed its
/// upper bounds: `new` orders the bounds it is given.
#[derive(Clone, Copy, Debug, PartialEq, Eq, Hash)]
pub struct Rect {
    x_min: i64,
    y_min: i64,
    x_max: i64,
    y_max: i64,
}

/// The smaller of two coordinates.
pub open spec fn lower(a: i64, b: i64) -> i64 {
    if a > b {
        b
    } else {
        a
    }
}

/// The larger of two coordinates.
pub open spec fn upper(a: i64, b: i64) -> i64 {
    if a > b {
        a
    } else {
        b
    }
}

/// `galileo_types::cartesian::Rect::intersects` on two rectangles made by
/// `galileo_types::cartesian::Rect::new` from bounds that are already in order.
/// `new` leaves ordered bounds as they are, and `intersects` compares the four
/// bounds with `>=` and `<=`, so rectangles that only touch do intersect.
#[verifier::external_body]
fn ordered_bounds_intersect(a: (i64, i64, i64, i64), b: (i64, i64, i64, i64)) -> (r: bool)
    requires
        a.0 <= a.2,
        a.1 <= a.3,
        b.0 <= b.2,
        b.1 <= b.3,
    ensures
        r == (a.2 >= b.0 && a.0 <= b.2 && a.3 >= b.1 && a.1 <= b.3),
{
    let first = galileo_types::cartesian::Rect::new(a.0, a.1, a.2, a.3);
    let second = galileo_types::cartesian::Rect::new(b.0, b.1, b.2, b.3);
    first.intersects(second)
}

impl Rect {
    pub closed spec fn spec_x_min(self) -> i64 {
        self.x_min
    }

    pub closed spec fn spec_y_min(self) -> i64 {
        self.y_min
    }

    pub closed spec fn spec_x_max(self) -> i64 {
        self.x_max
    }

    pub closed spec fn spec_y_max(self) -> i64 {
        self.y_max
    }

    /// Whether the bounds are in order. Every rectangle that executable code
    /// holds is; a rectangle that only ghost code speaks of may not be.
    #[verifier::type_invariant]
    pub open spec fn is_ordered(self) -> bool {
        self.spec_x_min() <= self.spec_x_max() && self.spec_y_min() <= self.spec_y_max()
    }

    /// Whether the two rectangles have at least one common point.
    pub open spec fn overlaps(self, other: Rect) -> bool {
        &&& self.spec_x_max() >= other.spec_x_min()
        &&& self.spec_x_min() <= other.spec_x_max()
        &&& self.spec_y_max() >= other.spec_y_min()
        &&& self.spec_y_min() <= other.spec_y_max()
    }

    /// The horizontal extent, as a mathematical integer.
    pub open spec fn spec_width(self) -> int {
        self.spec_x_max() - self.spec_x_min()
    }

    /// The vertical extent, as a mathematical integer.
    pub open spec fn spec_height(self) -> int {
        self.spec_y_max() - self.spec_y_min()
    }

    /// The rectangle between the given bounds, in specifications; bounds given
    /// in the wrong order are exchanged.
    pub closed spec fn spanning(x_min: i64, y_min: i64, x_max: i64, y_max: i64) -> Rect {
        Rect {
            x_min: lower(x_min, x_max),
            y_min: lower(y_min, y_max),
            x_max: upper(x_min, x_max),
            y_max: upper(y_min, y_max),
        }
    }

    /// The bounds of a rectangle made by `spanning`.
    pub proof fn lemma_spanning(x_min: i64, y_min: i64, x_max: i64, y_max: i64)
        ensures
            Rect::spanning(x_min, y_min, x_max, y_max).spec_x_min() == lower(x_min, x_max),
            Rect::spanning(x_min, y_min, x_max, y_max).spec_x_max() == upper(x_min, x_max),
            Rect::spanning(x_min, y_min, x_max, y_max).spec_y_min() == lower(y_min, y_max),
            Rect::spanning(x_min, y_min, x_max, y_max).spec_y_max() == upper(y_min, y_max),
            Rect::spanning(x_min, y_min, x_max, y_max).is_ordered(),
    {
    }

    /// The rectangle between the given bounds; bounds given in the wrong order
    /// are exchanged.
    pub fn new(x_min: i64, y_min: i64, x_max: i64, y_max: i64) -> (r: Rect)
        ensures
            r == Rect::spanning(x_min, y_min, x_max, y_max),
            r.spec_x_min() == lower(x_min, x_max),
            r.spec_x_max() == upper(x_min, x_max),
            r.spec_y_min() == lower(y_min, y_max),
            r.spec_y_max() == upper(y_min, y_max),
            r.is_ordered(),
    {
        let (x_min, x_max) = if x_min > x_max {
            (x_max, x_min)
        } else {
            (x_min, x_max)
        };
        let (y_min, y_max) = if y_min > y_max {
            (y_max, y_min)
        } else {
            (y_min, y_max)
        };
        Rect { x_min, y_min, x_max, y_max }
    }

    pub fn x_min(&self) -> (v: i64)
        ensures
            v == self.spec_x_min(),
            self.is_ordered(),
    {
        proof {
            use_type_invariant(self);
        }
        self.x_min
    }

    pub fn y_min(&self) -> (v: i64)
        ensures
            v == self.spec_y_min(),
            self.is_ordered(),
    {
        proof {
            use_type_invariant(self);
        }
        self.y_min
    }

    pub fn x_max(&self) -> (v: i64)
        ensures
            v == self.spec_x_max(),
            self.is_ordered(),
    {
        proof {
            use_type_invariant(self);
        }
        self.x_max
    }

    pub fn y_max(&self) -> (v: i64)
        ensures
            v == self.spec_y_max(),
            self.is_ordered(),
    {
        proof {
            use_type_invariant(self);
        }
        self.y_max
    }

    /// Width of the rectangle; never negative, and always within `u64`.
    pub fn width(&self) -> (w: u64)
        ensures
            w == self.spec_width(),
            self.is_ordered(),
    {
        proof {
            use_type_invariant(self);
        }
        (self.x_max as i128 - self.x_min as i128) as u64
    }

    /// Height of the rectangle; never negative, and always within `u64`.
    pub fn height(&self) -> (h: u64)
        ensures
            h == self.spec_height(),
            self.is_ordered(),
    {
        proof {
            use_type_invariant(self);
        }
        (self.y_max as i128 - self.y_min as i128) as u64
    }

    /// Whether the two rectangles have at least one common point. Rectangles
    /// that share only a side or a corner do.
    pub fn intersects(&self, other: Rect) -> (r: bool)
        ensures
            r == self.overlaps(other),
    {
        proof {
            use_type_invariant(self);
            use_type_invariant(&other);
        }
        ordered_bounds_intersect(
            (self.x_min, self.y_min, self.x_max, self.y_max),
            (other.x_min, other.y_min, other.x_max, other.y_max),
        )
    }
}

/// Overlap does not depend on the order of the two rectangles.
pub proof fn law_overlap_symmetric(a: Rect, b: Rect)
    ensures
        a.overlaps(b) == b.overlaps(a),
{
}

} // verus!
