use vstd::prelude::*;
use crate::raster::in_bounds;

verus! {

/// What a [`Line`] holds, as mathematical values.
pub struct LineView {
    /// The pin at which the chord ends.
    pub dest_pin: int,
    /// Columns of the chord's pixels, in order from its start.
    pub xs: Seq<u32>,
    /// Rows of the chord's pixels, in order from its start.
    pub ys: Seq<u32>,
    /// The chord's score when it was evaluated.
    pub sum: int,
}

/// A chord as the solver sees it: where it leads, the pixels it passes
/// through, and the darkness those pixels held when it was evaluated.
#[derive(Clone, Debug)]
pub struct Line {
    /// The pin at which the chord ends.
    pub dest_pin: usize,
    /// Columns of the chord's pixels, in order from its start.
    pub xs: Vec<u32>,
    /// Rows of the chord's pixels, in order from its start.
    pub ys: Vec<u32>,
    /// The chord's score when it was evaluated.
    pub sum: u32,
}

impl View for Line {
    type V = LineView;

    open spec fn view(&self) -> LineView {
        LineView {
            dest_pin: self.dest_pin as int,
            xs: self.xs@,
            ys: self.ys@,
            sum: self.sum as int,
        }
    }
}

/// The lines of a path as mathematical values.
pub open spec fn path_view(path: Seq<Line>) -> Seq<LineView> {
    Seq::new(path.len(), |i: int| path[i]@)
}

/// The pin at which chord `i` of a path starts: pin 0 for the first chord,
/// and for every other chord the pin at which the chord before it ends.
pub open spec fn source_pin(path: Seq<LineView>, i: int) -> int {
    if i <= 0 {
        0
    } else {
        path[i - 1].dest_pin
    }
}

/// Every chord of the path has a pixel, and all its pixels lie on the field
/// of the given radius.
pub open spec fn path_in_bounds(radius: int, path: Seq<LineView>) -> bool {
    forall|i: int|
        0 <= i < path.len() ==> (#[trigger] path[i]).xs.len() > 0 && in_bounds(
            radius,
            path[i].xs,
            path[i].ys,
        )
}

impl Line {
    /// A line to `dest_pin` through the pixels `(xs[i], ys[i])`, with score
    /// `sum`.
    pub fn new(dest_pin: usize, xs: Vec<u32>, ys: Vec<u32>, sum: u32) -> (line: Line)
        ensures
            line@ == (LineView { dest_pin: dest_pin as int, xs: xs@, ys: ys@, sum: sum as int }),
    {
        Line { dest_pin, xs, ys, sum }
    }

    /// The line has a pixel, and as many columns as rows.
    pub open spec fn has_pixels(view: LineView) -> bool {
        view.xs.len() == view.ys.len() && view.xs.len() > 0
    }

    /// The first and the last pixel of the line, as `(x1, y1, x2, y2)`;
    /// `None` for a line without pixels.
    pub fn endpoints(&self) -> (ends: Option<(u32, u32, u32, u32)>)
        ensures
            match ends {
                Some(e) => Line::has_pixels(self@) && e == (
                    self@.xs.first(),
                    self@.ys.first(),
                    self@.xs.last(),
                    self@.ys.last(),
                ),
                None => !Line::has_pixels(self@),
            },
    {
        let n: usize = self.xs.len();
        if n == 0 || self.ys.len() != n {
            None
        } else {
            Some((self.xs[0], self.ys[0], self.xs[n - 1], self.ys[n - 1]))
        }
    }
}

} // verus!
