//! A reference implementation of the [`Rectangle`] contract that simply
//! stores its four inclusive edges.

use vstd::prelude::*;

use crate::Rectangle;
use crate::RectModel;

verus! {

/// A basic rectangle implementation.
/// Edges are inclusive.
#[derive(Clone, Copy, Debug, PartialEq, Eq, Structural)]
pub struct BasicRectangle {
    left: i32,
    right: i32,
    top: i32,
    bottom: i32,
}

impl View for BasicRectangle {
    type V = RectModel;

    closed spec fn view(&self) -> RectModel {
        RectModel {
            left: self.left as int,
            right: self.right as int,
            top: self.top as int,
            bottom: self.bottom as int,
        }
    }
}

impl Rectangle for BasicRectangle {
    fn left(&self) -> i32 {
        self.left
    }

    fn right(&self) -> i32 {
        self.right
    }

    fn top(&self) -> i32 {
        self.top
    }

    fn bottom(&self) -> i32 {
        self.bottom
    }

    fn new_from_sides(left: i32, right: i32, top: i32, bottom: i32) -> Self {
        BasicRectangle { left, right, top, bottom }
    }
}

impl BasicRectangle {
    /// Identifies all unique unobstructed sub-rectangles within this
    /// rectangle by comparing it against a list of obstructions.
    ///
    /// The result is pinned down, rectangle by rectangle and in order, by
    /// [`crate::sweep_model::decompose_model`]; this simply forwards to
    /// [`crate::unobstructed_subrectangles_impl`], which works for any
    /// implementation of the rectangle contract.
    pub fn unobstructed_subrectangles<O: Rectangle>(&self, obstructions: &[&O]) -> (r: Vec<
        BasicRectangle,
    >)
        requires
            self@.left > i32::MIN,
            crate::unobstructed_sweep_line::obstructions_in_range(
                crate::unobstructed_sweep_line::obs_models(obstructions@),
            ),
        ensures
            crate::unobstructed_sweep_line::rect_models(r@)
                == crate::sweep_model::decompose_model(
                self@,
                crate::unobstructed_sweep_line::obs_models(obstructions@),
            ),
    {
        crate::unobstructed_subrectangles_impl(self, obstructions)
    }
}

} // verus!
