use vstd::prelude::*;
use crate::error::InvalidInput;
use crate::geometry::{in_mask, within_mask, Point};

verus! {

/// What a [`PinLayout`] holds, as mathematical values.
pub struct LayoutView {
    /// Radius of the circle the pins stand on.
    pub radius: int,
    /// Position of each pin; pin `i` is `pins[i]`.
    pub pins: Seq<Point>,
}

/// Every pin lies within the circular mask of the given radius.
pub open spec fn pins_in_mask(radius: int, pins: Seq<Point>) -> bool {
    forall|i: int| 0 <= i < pins.len() ==> in_mask(radius, (#[trigger] pins[i]).x as int, pins[i].y as int)
}

/// The invariant of a layout: a positive radius and at least three pins,
/// all of them within the circular mask.
pub open spec fn layout_ok(layout: LayoutView) -> bool {
    &&& layout.radius >= 1
    &&& layout.pins.len() >= 3
    &&& pins_in_mask(layout.radius, layout.pins)
}

/// The pins of a loom: a fixed ring of positions, numbered from 0 in the
/// order in which they are walked. The solver only reads them.
#[derive(Clone, Debug)]
pub struct PinLayout {
    radius: u32,
    pins: Vec<Point>,
}

impl View for PinLayout {
    type V = LayoutView;

    closed spec fn view(&self) -> LayoutView {
        LayoutView { radius: self.radius as int, pins: self.pins@ }
    }
}

impl PinLayout {
    /// The invariant holds of this layout.
    pub open spec fn wf(&self) -> bool {
        layout_ok(self@)
    }

    /// A layout of the given pins on a field of the given radius. Fewer
    /// than three pins are rejected first, then a zero radius, then a pin
    /// outside the circular mask.
    pub fn new(radius: u32, pins: Vec<Point>) -> (result: Result<PinLayout, InvalidInput>)
        ensures
            match result {
                Ok(layout) => {
                    &&& layout.wf()
                    &&& layout@.radius == radius
                    &&& layout@.pins == pins@
                },
                Err(e) => {
                    ||| e == InvalidInput::TooFewPins && pins@.len() < 3
                    ||| e == InvalidInput::ZeroRadius && pins@.len() >= 3 && radius == 0
                    ||| e == InvalidInput::PinOutsideMask && pins@.len() >= 3 && radius > 0
                        && !pins_in_mask(radius as int, pins@)
                },
            },
    {
        let n: usize = pins.len();
        if n < 3 {
            return Err(InvalidInput::TooFewPins);
        }
        if radius == 0 {
            return Err(InvalidInput::ZeroRadius);
        }
        let mut i: usize = 0;
        while i < n
            invariant
                i <= n,
                n == pins@.len(),
                n >= 3,
                radius > 0,
                forall|j: int|
                    0 <= j < i ==> in_mask(
                        radius as int,
                        (#[trigger] pins@[j]).x as int,
                        pins@[j].y as int,
                    ),
            decreases n - i,
        {
            if !within_mask(radius, pins[i]) {
                assert(!in_mask(radius as int, pins@[i as int].x as int, pins@[i as int].y as int));
                return Err(InvalidInput::PinOutsideMask);
            }
            i = i + 1;
        }
        Ok(PinLayout { radius, pins })
    }

    /// Radius of the circle the pins stand on.
    pub fn radius(&self) -> (r: u32)
        ensures
            r == self@.radius,
    {
        self.radius
    }

    /// Number of pins.
    pub fn num_pins(&self) -> (n: usize)
        ensures
            n == self@.pins.len(),
    {
        self.pins.len()
    }

    /// Position of pin `i`.
    pub fn position(&self, i: usize) -> (p: Point)
        requires
            i < self@.pins.len(),
        ensures
            p == self@.pins[i as int],
    {
        self.pins[i]
    }
}

} // verus!
