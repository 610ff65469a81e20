use vstd::prelude::*;
use crate::error::InvalidInput;
use crate::geometry::{cell_index, in_field, in_mask, side, within_mask, Point};

verus! {

/// What an [`IntensityField`] holds, as mathematical values.
pub struct FieldView {
    /// Radius of the inscribed circle; the field is `2 * radius + 1` wide.
    pub radius: int,
    /// The darkness of each cell, row by row from the top.
    pub cells: Seq<u8>,
}

/// Column of the cell with row-major index `i`.
pub open spec fn column(radius: int, i: int) -> int {
    i % side(radius)
}

/// Row of the cell with row-major index `i`.
pub open spec fn row(radius: int, i: int) -> int {
    i / side(radius)
}

/// The cell with row-major index `i` lies within the circular mask.
pub open spec fn cell_in_mask(radius: int, i: int) -> bool {
    in_mask(radius, column(radius, i), row(radius, i))
}

/// Every cell outside the circular mask is zero.
pub open spec fn masked(radius: int, cells: Seq<u8>) -> bool {
    forall|i: int| 0 <= i < cells.len() && !cell_in_mask(radius, i) ==> #[trigger] cells[i] == 0
}

/// The cells with everything outside the circular mask set to zero.
pub open spec fn mask_cells(radius: int, cells: Seq<u8>) -> Seq<u8> {
    Seq::new(cells.len(), |i: int| if cell_in_mask(radius, i) { cells[i] } else { 0u8 })
}

/// Each value `v` replaced by `255 - v`.
pub open spec fn invert_cells(cells: Seq<u8>) -> Seq<u8> {
    Seq::new(cells.len(), |i: int| (255 - cells[i]) as u8)
}

/// The invariant of a field: a positive radius, one cell for each position
/// of the square, which are few enough to be held in memory, and nothing
/// but zero outside the circle.
pub open spec fn well_formed(f: FieldView) -> bool {
    &&& f.radius >= 1
    &&& f.cells.len() == side(f.radius) * side(f.radius)
    &&& f.cells.len() <= usize::MAX
    &&& masked(f.radius, f.cells)
}

/// The row-major index of a position on the field is that of a cell, and
/// the position is read back from it by `column` and `row`.
pub proof fn lemma_cell_index(radius: int, x: int, y: int)
    requires
        0 <= radius,
        in_field(radius, x, y),
    ensures
        0 <= cell_index(radius, x, y) < side(radius) * side(radius),
        column(radius, cell_index(radius, x, y)) == x,
        row(radius, cell_index(radius, x, y)) == y,
{
    let s = side(radius);
    assert(0 <= y * s && y * s + s <= s * s) by (nonlinear_arith)
        requires
            0 <= y < s,
    ;
    vstd::arithmetic::div_mod::lemma_fundamental_div_mod_converse(y * s + x, s, y, x);
}

/// A square circular working area of darkness values. Drawing a chord
/// clears its cells, so values only ever fall, and every cell outside the
/// inscribed circle stays zero.
#[derive(Clone, Debug)]
pub struct IntensityField {
    radius: u32,
    cells: Vec<u8>,
}

impl View for IntensityField {
    type V = FieldView;

    closed spec fn view(&self) -> FieldView {
        FieldView { radius: self.radius as int, cells: self.cells@ }
    }
}

/// Replaces each value `v` by `255 - v`, so that dark becomes high.
pub fn invert(values: &mut Vec<u8>)
    ensures
        final(values)@ == invert_cells(old(values)@),
{
    let n: usize = values.len();
    let mut i: usize = 0;
    while i < n
        invariant
            i <= n,
            values@.len() == n,
            old(values)@.len() == n,
            forall|j: int| 0 <= j < i ==> values@[j] == (255 - old(values)@[j]) as u8,
            forall|j: int| i <= j < n ==> values@[j] == old(values)@[j],
        decreases n - i,
    {
        let v: u8 = values[i];
        values.set(i, 255 - v);
        i = i + 1;
    }
    assert(values@ =~= invert_cells(old(values)@));
}

impl IntensityField {
    /// The invariant holds of this field.
    pub open spec fn wf(&self) -> bool {
        well_formed(self@)
    }

    /// Builds a field from darkness values given row by row, zeroing every
    /// cell outside the inscribed circle.
    pub fn new(radius: u32, darkness: Vec<u8>) -> (result: Result<IntensityField, InvalidInput>)
        ensures
            match result {
                Ok(field) => {
                    &&& radius > 0
                    &&& darkness@.len() == side(radius as int) * side(radius as int)
                    &&& field.wf()
                    &&& field@.radius == radius
                    &&& field@.cells == mask_cells(radius as int, darkness@)
                },
                Err(e) => {
                    ||| e == InvalidInput::ZeroRadius && radius == 0
                    ||| e == InvalidInput::SizeMismatch && radius > 0 && darkness@.len() != side(
                        radius as int,
                    ) * side(radius as int)
                },
            },
    {
        if radius == 0 {
            return Err(InvalidInput::ZeroRadius);
        }
        let s: u128 = 2 * (radius as u128) + 1;
        assert(s * s <= 0x2_0000_0000 * 0x2_0000_0000) by (nonlinear_arith)
            requires
                s <= 0x2_0000_0000,
        ;
        let n: usize = darkness.len();
        if n as u128 != s * s {
            return Err(InvalidInput::SizeMismatch);
        }
        assert(s <= n && s < 0x1_0000_0000) by (nonlinear_arith)
            requires
                s * s == n,
                n <= 0xffff_ffff_ffff_ffff,
                s >= 1,
        ;
        let width: usize = s as usize;
        let mut cells = darkness;
        let mut i: usize = 0;
        while i < n
            invariant
                i <= n,
                width == side(radius as int),
                0 < width < 0x1_0000_0000,
                n == width * width,
                cells@.len() == n,
                darkness@.len() == n,
                forall|j: int|
                    0 <= j < i ==> cells@[j] == mask_cells(radius as int, darkness@)[j],
                forall|j: int| i <= j < n ==> cells@[j] == darkness@[j],
            decreases n - i,
        {
            let x: usize = i % width;
            let y: usize = i / width;
            assert(y < width) by (nonlinear_arith)
                requires
                    y == (i as int) / (width as int),
                    i < n,
                    n == width * width,
                    0 < width,
            ;
            let p = Point { x: x as u32, y: y as u32 };
            if !within_mask(radius, p) {
                cells.set(i, 0);
            }
            i = i + 1;
        }
        assert(cells@ =~= mask_cells(radius as int, darkness@));
        Ok(IntensityField { radius, cells })
    }

    /// Builds a field from grayscale samples given row by row: each sample
    /// is inverted, so that dark regions of the picture carry high values,
    /// and every cell outside the inscribed circle is zeroed.
    pub fn from_luma(radius: u32, luma: Vec<u8>) -> (result: Result<IntensityField, InvalidInput>)
        ensures
            match result {
                Ok(field) => {
                    &&& radius > 0
                    &&& luma@.len() == side(radius as int) * side(radius as int)
                    &&& field.wf()
                    &&& field@.radius == radius
                    &&& field@.cells == mask_cells(radius as int, invert_cells(luma@))
                },
                Err(e) => {
                    ||| e == InvalidInput::ZeroRadius && radius == 0
                    ||| e == InvalidInput::SizeMismatch && radius > 0 && luma@.len() != side(
                        radius as int,
                    ) * side(radius as int)
                },
            },
    {
        let mut values = luma;
        invert(&mut values);
        IntensityField::new(radius, values)
    }

    /// Radius of the inscribed circle.
    pub fn radius(&self) -> (r: u32)
        ensures
            r == self@.radius,
    {
        self.radius
    }

    /// Width and height of the field, `2 * radius + 1`.
    pub fn side_len(&self) -> (s: u32)
        requires
            self.wf(),
        ensures
            s == side(self@.radius),
    {
        proof {
            self.lemma_side_fits();
        }
        2 * self.radius + 1
    }

    /// The darkness values, row by row from the top.
    pub fn cells(&self) -> (cells: &Vec<u8>)
        ensures
            cells@ == self@.cells,
    {
        &self.cells
    }

    /// The darkness at `(x, y)`.
    pub fn get(&self, x: u32, y: u32) -> (value: u8)
        requires
            self.wf(),
            in_field(self@.radius, x as int, y as int),
        ensures
            value == self@.cells[cell_index(self@.radius, x as int, y as int)],
    {
        proof {
            self.lemma_side_fits();
            lemma_cell_index(self@.radius, x as int, y as int);
        }
        let s: usize = 2 * (self.radius as usize) + 1;
        assert(0 <= (y as usize) * s <= cell_index(self@.radius, x as int, y as int))
            by (nonlinear_arith)
            requires
                s == side(self@.radius),
                s > 0,
                0 <= x,
        ;
        self.cells[(y as usize) * s + (x as usize)]
    }

    /// Sets the cell at `(x, y)` to zero.
    pub fn clear(&mut self, x: u32, y: u32)
        requires
            old(self).wf(),
            in_field(old(self)@.radius, x as int, y as int),
        ensures
            final(self).wf(),
            final(self)@.radius == old(self)@.radius,
            final(self)@.cells == old(self)@.cells.update(
                cell_index(old(self)@.radius, x as int, y as int),
                0u8,
            ),
    {
        proof {
            self.lemma_side_fits();
            lemma_cell_index(self@.radius, x as int, y as int);
        }
        let s: usize = 2 * (self.radius as usize) + 1;
        assert(0 <= (y as usize) * s <= cell_index(self@.radius, x as int, y as int))
            by (nonlinear_arith)
            requires
                s == side(self@.radius),
                s > 0,
                0 <= x,
        ;
        self.cells.set((y as usize) * s + (x as usize), 0);
    }

    /// The side of a field fits in 32 bits, because its cells are in memory.
    pub proof fn lemma_side_fits(&self)
        requires
            self.wf(),
        ensures
            side(self@.radius) <= u32::MAX,
            side(self@.radius) <= usize::MAX,
            side(self@.radius) * side(self@.radius) <= usize::MAX,
    {
        let s = side(self@.radius);
        assert(s <= s * s && s < 0x1_0000_0000) by (nonlinear_arith)
            requires
                s * s <= 0xffff_ffff_ffff_ffff,
                s >= 1,
        ;
    }
}

} // verus!
