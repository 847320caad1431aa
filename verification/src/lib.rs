//! Axis-aligned rectangle geometry over inclusive `i32` edges, together with
//! a verified sweep-line decomposition of a region into the sub-rectangles
//! left unobstructed by a set of obstructing rectangles.
//!
//! Every rectangle value is described by a mathematical model ([`RectModel`]):
//! the four inclusive edges as unbounded integers.  All contracts are stated
//! over that model, so any type implementing [`Rectangle`] gets the same
//! guarantees regardless of its storage layout.

use vstd::prelude::*;

mod basic_rectangle;
pub mod laws;
pub mod sweep_model;
pub mod unobstructed_sweep_line;

pub use basic_rectangle::BasicRectangle;
pub use unobstructed_sweep_line::unobstructed_subrectangles_impl;

verus! {

/// The mathematical value of a rectangle: its four inclusive edges.
///
/// A rectangle is *valid* when `left <= right` and `bottom <= top`
/// (`top` is the numerically larger vertical edge).  Inverted edges are not
/// rejected anywhere; they denote a degenerate, empty region.
pub ghost struct RectModel {
    pub left: int,
    pub right: int,
    pub top: int,
    pub bottom: int,
}

/// `left <= right` and `bottom <= top`: the rectangle denotes a real region.
pub open spec fn valid_rect(m: RectModel) -> bool {
    m.left <= m.right && m.bottom <= m.top
}

/// The rectangle shifted by `dx` horizontally and `dy` vertically.
pub open spec fn translate_model(m: RectModel, dx: int, dy: int) -> RectModel {
    RectModel {
        left: m.left + dx,
        right: m.right + dx,
        top: m.top + dy,
        bottom: m.bottom + dy,
    }
}

/// The point `(x, y)` lies inside the rectangle (edges inclusive).
pub open spec fn contains_point_model(m: RectModel, x: int, y: int) -> bool {
    m.left <= x && x <= m.right && y <= m.top && m.bottom <= y
}

/// Every edge of `outer` is at least as extreme as the matching edge of
/// `inner`.
pub open spec fn contains_rect_model(outer: RectModel, inner: RectModel) -> bool {
    outer.left <= inner.left && outer.right >= inner.right && outer.top >= inner.top
        && outer.bottom <= inner.bottom
}

/// The closed intervals of the two rectangles intersect on both axes.
pub open spec fn overlaps_model(a: RectModel, b: RectModel) -> bool {
    a.left <= b.right && a.right >= b.left && a.top >= b.bottom && a.bottom <= b.top
}

/// The rectangle formed by the innermost of the four pairs of edges.  It is
/// the geometric intersection exactly when it is valid; otherwise the two
/// rectangles do not overlap.
pub open spec fn intersection_model(a: RectModel, b: RectModel) -> RectModel {
    RectModel {
        left: vstd::math::max(a.left, b.left),
        right: vstd::math::min(a.right, b.right),
        top: vstd::math::min(a.top, b.top),
        bottom: vstd::math::max(a.bottom, b.bottom),
    }
}

/// Rectangle-like values with inclusive `i32` edges.
///
/// Implementors supply the four edge accessors, the side-based constructor,
/// and a spec-level view (the rectangle's [`RectModel`]) that the accessors
/// must agree with; every derived operation then comes with a proved
/// contract stated over that view.
pub trait Rectangle: View<V = RectModel> + Sized + Copy {
    /// The left most point of the rectangle.
    fn left(&self) -> (r: i32)
        ensures
            r as int == self@.left,
    ;

    /// The right most point of the rectangle.
    fn right(&self) -> (r: i32)
        ensures
            r as int == self@.right,
    ;

    /// The top most point of the rectangle.
    fn top(&self) -> (r: i32)
        ensures
            r as int == self@.top,
    ;

    /// The bottom most point of the rectangle.
    fn bottom(&self) -> (r: i32)
        ensures
            r as int == self@.bottom,
    ;

    /// Creates a new rectangle from the given inclusive sides.
    fn new_from_sides(left: i32, right: i32, top: i32, bottom: i32) -> (r: Self)
        ensures
            r@ == (RectModel {
                left: left as int,
                right: right as int,
                top: top as int,
                bottom: bottom as int,
            }),
    ;

    /// The width of the rectangle, `right - left`.
    fn width(&self) -> (r: i32)
        requires
            i32::MIN <= self@.right - self@.left <= i32::MAX,
        ensures
            r as int == self@.right - self@.left,
    {
        self.right() - self.left()
    }

    /// The height of the rectangle, `top - bottom`.
    fn height(&self) -> (r: i32)
        requires
            i32::MIN <= self@.top - self@.bottom <= i32::MAX,
        ensures
            r as int == self@.top - self@.bottom,
    {
        self.top() - self.bottom()
    }

    /// The rectangle shifted by `x` horizontally and `y` vertically.
    fn translate(&self, x: i32, y: i32) -> (r: Self)
        requires
            i32::MIN <= self@.left + x <= i32::MAX,
            i32::MIN <= self@.right + x <= i32::MAX,
            i32::MIN <= self@.top + y <= i32::MAX,
            i32::MIN <= self@.bottom + y <= i32::MAX,
        ensures
            r@ == translate_model(self@, x as int, y as int),
    {
        Self::new_from_sides(
            self.left() + x,
            self.right() + x,
            self.top() + y,
            self.bottom() + y,
        )
    }

    /// The perimeter of the rectangle, `(width + height) * 2`.
    fn perimeter(&self) -> (r: i32)
        requires
            i32::MIN <= self@.right - self@.left <= i32::MAX,
            i32::MIN <= self@.top - self@.bottom <= i32::MAX,
            i32::MIN <= (self@.right - self@.left) + (self@.top
                - self@.bottom) <= i32::MAX,
            i32::MIN <= ((self@.right - self@.left) + (self@.top
                - self@.bottom)) * 2 <= i32::MAX,
        ensures
            r as int == ((self@.right - self@.left) + (self@.top
                - self@.bottom)) * 2,
    {
        (self.width() + self.height()) * 2
    }

    /// The area of the rectangle, `width * height`.
    fn area(&self) -> (r: i32)
        requires
            i32::MIN <= self@.right - self@.left <= i32::MAX,
            i32::MIN <= self@.top - self@.bottom <= i32::MAX,
            i32::MIN <= (self@.right - self@.left) * (self@.top
                - self@.bottom) <= i32::MAX,
        ensures
            r as int == (self@.right - self@.left) * (self@.top
                - self@.bottom),
    {
        self.width() * self.height()
    }

    /// Checks if the rectangle contains the given point.
    fn contains_point(&self, x: i32, y: i32) -> (r: bool)
        ensures
            r == contains_point_model(self@, x as int, y as int),
    {
        x >= self.left() && x <= self.right() && y <= self.top() && y >= self.bottom()
    }

    /// Checks if this rectangle contains the whole of another.
    fn contains_rectangle(&self, other: &Self) -> (r: bool)
        ensures
            r == contains_rect_model(self@, other@),
    {
        self.left() <= other.left() && self.right() >= other.right() && self.top() >= other.top()
            && self.bottom() <= other.bottom()
    }

    /// Checks if this rectangle overlaps with another.
    fn overlaps(&self, other: &Self) -> (r: bool)
        ensures
            r == overlaps_model(self@, other@),
    {
        self.left() <= other.right() && self.right() >= other.left() && self.top()
            >= other.bottom() && self.bottom() <= other.top()
    }

    /// Returns the intersection of two rectangles.
    /// If the rectangles do not intersect, `None` is returned.
    fn intersection(&self, other: &Self) -> (r: Option<Self>)
        ensures
            r is Some <==> valid_rect(intersection_model(self@, other@)),
            r matches Some(rect) ==> rect@ == intersection_model(
                self@,
                other@,
            ),
    {
        let a = self.left();
        let b = other.left();
        let left = if a >= b { a } else { b };

        let a = self.right();
        let b = other.right();
        let right = if a <= b { a } else { b };

        let a = self.top();
        let b = other.top();
        let top = if a <= b { a } else { b };

        let a = self.bottom();
        let b = other.bottom();
        let bottom = if a >= b { a } else { b };

        if left <= right && bottom <= top {
            Some(Self::new_from_sides(left, right, top, bottom))
        } else {
            None
        }
    }
}

} // verus!
