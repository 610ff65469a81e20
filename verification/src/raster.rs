use vstd::prelude::*;
use vstd::arithmetic::div_mod::{
    lemma_div_is_ordered, lemma_div_multiples_vanish, lemma_fundamental_div_mod,
    lemma_fundamental_div_mod_converse,
};
use crate::field::{lemma_cell_index, IntensityField};
use crate::geometry::{
    cell_index, in_field, is_rounded_root, lemma_rounded_root_exists, rounded_dist,
    rounded_distance, side, sq_dist, Point,
};

verus! {

/// Sample `i` of `count` evenly spaced samples from `start` to `end`, both
/// ends included, rounded down to an integer. A single sample sits at
/// `start`.
pub open spec fn sample(start: int, end: int, count: int, i: int) -> int {
    if count <= 1 {
        start
    } else {
        start + (i * (end - start)) / (count - 1)
    }
}

/// `count` evenly spaced samples from `start` to `end`, rounded down.
pub open spec fn interpolation(start: u32, end: u32, count: nat) -> Seq<u32> {
    Seq::new(count, |i: int| sample(start as int, end as int, count as int, i) as u32)
}

/// Number of samples on the segment from `a` to `b`: its length rounded to
/// the nearest integer, and at least one.
pub open spec fn sample_count(a: Point, b: Point) -> nat {
    if rounded_dist(a, b) == 0 {
        1
    } else {
        rounded_dist(a, b)
    }
}

/// Columns of the pixels on the segment from `a` to `b`, in order.
pub open spec fn line_xs(a: Point, b: Point) -> Seq<u32> {
    interpolation(a.x, b.x, sample_count(a, b))
}

/// Rows of the pixels on the segment from `a` to `b`, in order.
pub open spec fn line_ys(a: Point, b: Point) -> Seq<u32> {
    interpolation(a.y, b.y, sample_count(a, b))
}

/// The two sequences pair up to positions on the field.
pub open spec fn in_bounds(radius: int, xs: Seq<u32>, ys: Seq<u32>) -> bool {
    &&& xs.len() == ys.len()
    &&& forall|k: int|
        0 <= k < xs.len() ==> in_field(radius, #[trigger] xs[k] as int, ys[k] as int)
}

/// Sum of the cells at the given positions, each position counted as often
/// as it occurs.
pub open spec fn line_sum(cells: Seq<u8>, radius: int, xs: Seq<u32>, ys: Seq<u32>) -> int
    decreases xs.len(),
{
    if xs.len() == 0 {
        0
    } else {
        line_sum(cells, radius, xs.drop_last(), ys.drop_last()) + cells[cell_index(
            radius,
            xs.last() as int,
            ys.last() as int,
        )]
    }
}

/// The score of a line: the sum of its cells, held at `u32::MAX` where the
/// sum is larger.
pub open spec fn line_score(cells: Seq<u8>, radius: int, xs: Seq<u32>, ys: Seq<u32>) -> int {
    if line_sum(cells, radius, xs, ys) > u32::MAX {
        u32::MAX as int
    } else {
        line_sum(cells, radius, xs, ys)
    }
}

/// One of the given positions is the cell with row-major index `cell`.
pub open spec fn covers(radius: int, xs: Seq<u32>, ys: Seq<u32>, cell: int) -> bool {
    exists|k: int|
        0 <= k < xs.len() && #[trigger] cell_index(radius, xs[k] as int, ys[k] as int) == cell
}

/// The cells with every given position set to zero.
pub open spec fn erased(cells: Seq<u8>, radius: int, xs: Seq<u32>, ys: Seq<u32>) -> Seq<u8> {
    Seq::new(cells.len(), |i: int| if covers(radius, xs, ys, i) { 0u8 } else { cells[i] })
}

/// Rounding down the quotient of a negated number rounds the quotient
/// itself up.
pub proof fn lemma_floor_of_negative(a: int, m: int)
    requires
        0 <= a,
        0 < m,
    ensures
        (-a) / m == -((a + m - 1) / m),
{
    let q = (a + m - 1) / m;
    let r = (a + m - 1) % m;
    lemma_fundamental_div_mod(a + m - 1, m);
    assert(-a == (-q) * m + (m - 1 - r)) by (nonlinear_arith)
        requires
            a + m - 1 == m * q + r,
    ;
    lemma_fundamental_div_mod_converse(-a, m, -q, m - 1 - r);
}

/// Every sample lies between the two ends; the first is `start`, and with
/// two samples or more the last is `end`.
pub proof fn lemma_sample_between(start: int, end: int, count: int, i: int)
    requires
        0 <= i < count,
    ensures
        start <= end ==> start <= sample(start, end, count, i) <= end,
        end <= start ==> end <= sample(start, end, count, i) <= start,
        i == 0 ==> sample(start, end, count, i) == start,
        count >= 2 && i == count - 1 ==> sample(start, end, count, i) == end,
{
    if count >= 2 {
        let m = count - 1;
        let d = end - start;
        lemma_div_multiples_vanish(d, m);
        assert((m * d) / m == d);
        assert(0int / m == 0) by {
            lemma_div_multiples_vanish(0, m);
            assert(m * 0 == 0);
        }
        if d >= 0 {
            assert(0 <= i * d <= m * d) by (nonlinear_arith)
                requires
                    0 <= i <= m,
                    0 <= d,
            ;
            lemma_div_is_ordered(0, i * d, m);
            lemma_div_is_ordered(i * d, m * d, m);
        } else {
            assert(m * d <= i * d <= 0) by (nonlinear_arith)
                requires
                    0 <= i <= m,
                    d < 0,
            ;
            lemma_div_is_ordered(i * d, 0, m);
            lemma_div_is_ordered(m * d, i * d, m);
        }
        if i == 0 {
            assert(i * d == 0) by (nonlinear_arith)
                requires
                    i == 0,
            ;
        }
        if i == m {
            assert(i * d == m * d);
        }
    }
}

/// `count` evenly spaced samples from `start` to `end`, both ends included,
/// each rounded down to an integer.
pub fn interpolate(start: u32, end: u32, count: usize) -> (values: Vec<u32>)
    ensures
        values@ == interpolation(start, end, count as nat),
{
    let mut values: Vec<u32> = Vec::new();
    let mut i: usize = 0;
    while i < count
        invariant
            i <= count,
            values@.len() == i,
            forall|j: int|
                0 <= j < i ==> values@[j] == sample(
                    start as int,
                    end as int,
                    count as int,
                    j,
                ) as u32,
        decreases count - i,
    {
        proof {
            lemma_sample_between(start as int, end as int, count as int, i as int);
        }
        let value: u32 = if count <= 1 {
            start
        } else {
            let m: u128 = (count - 1) as u128;
            if end >= start {
                let d: u128 = (end - start) as u128;
                assert(i * d <= 0xffff_ffff_ffff_ffff * 0xffff_ffff) by (nonlinear_arith)
                    requires
                        i <= 0xffff_ffff_ffff_ffff,
                        d <= 0xffff_ffff,
                ;
                let q: u128 = (i as u128 * d) / m;
                start + q as u32
            } else {
                let d: u128 = (start - end) as u128;
                assert(i * d <= 0xffff_ffff_ffff_ffff * 0xffff_ffff) by (nonlinear_arith)
                    requires
                        i <= 0xffff_ffff_ffff_ffff,
                        d <= 0xffff_ffff,
                ;
                let q: u128 = (i as u128 * d + (m - 1)) / m;
                proof {
                    lemma_floor_of_negative(i * d, m as int);
                    assert(i * (end - start) == -(i * d)) by (nonlinear_arith)
                        requires
                            d == start - end,
                    ;
                }
                start - q as u32
            }
        };
        values.push(value);
        i = i + 1;
    }
    assert(values@ =~= interpolation(start, end, count as nat));
    values
}

/// The distance between two positions on a field is short enough for its
/// samples to be counted in a `usize`, and every sample lies on the field.
pub proof fn lemma_line_on_field(radius: int, a: Point, b: Point)
    requires
        0 <= radius,
        side(radius) * side(radius) <= usize::MAX,
        in_field(radius, a.x as int, a.y as int),
        in_field(radius, b.x as int, b.y as int),
    ensures
        1 <= sample_count(a, b) <= usize::MAX,
        in_bounds(radius, line_xs(a, b), line_ys(a, b)),
        line_xs(a, b).len() == sample_count(a, b),
        line_xs(a, b)[0] == a.x,
        line_ys(a, b)[0] == a.y,
{
    let s = side(radius);
    let n = sq_dist(a.x as int, a.y as int, b.x as int, b.y as int);
    let dx = a.x as int - b.x as int;
    let dy = a.y as int - b.y as int;
    assert(0 <= n <= 2 * s * s) by (nonlinear_arith)
        requires
            n == dx * dx + dy * dy,
            -s < dx < s,
            -s < dy < s,
    ;
    lemma_rounded_root_exists(n as nat);
    let r = rounded_dist(a, b);
    assert(is_rounded_root(n as nat, r));
    if r >= 2 * s {
        assert(r * r - r >= 2 * s * s) by (nonlinear_arith)
            requires
                r >= 2 * s,
                s >= 1,
        ;
    }
    assert(2 * s <= s * s || s < 2) by (nonlinear_arith)
        requires
            s >= 1,
    ;
    let count = sample_count(a, b);
    assert(count <= usize::MAX);
    assert forall|k: int| 0 <= k < line_xs(a, b).len() implies in_field(
        radius,
        #[trigger] line_xs(a, b)[k] as int,
        line_ys(a, b)[k] as int,
    ) by {
        lemma_sample_between(a.x as int, b.x as int, count as int, k);
        lemma_sample_between(a.y as int, b.y as int, count as int, k);
    }
    lemma_sample_between(a.x as int, b.x as int, count as int, 0);
    lemma_sample_between(a.y as int, b.y as int, count as int, 0);
}

/// The pixels on the segment from `a` to `b`, as their columns and their
/// rows: `x` and `y` are interpolated independently of each other over as
/// many samples as the segment is long, and each sample is rounded down.
/// The walk may name a pixel twice, and a segment shorter than half a pixel
/// yields the one pixel at `a`.
pub fn rasterize(a: Point, b: Point) -> (line: (Vec<u32>, Vec<u32>))
    requires
        sample_count(a, b) <= usize::MAX,
    ensures
        line.0@ == line_xs(a, b),
        line.1@ == line_ys(a, b),
{
    let d: u64 = rounded_distance(a, b);
    let count: usize = if d == 0 {
        1
    } else {
        d as usize
    };
    let xs: Vec<u32> = interpolate(a.x, b.x, count);
    let ys: Vec<u32> = interpolate(a.y, b.y, count);
    (xs, ys)
}

/// Adding a position to a line adds its cell to the sum.
pub proof fn lemma_line_sum_step(cells: Seq<u8>, radius: int, xs: Seq<u32>, ys: Seq<u32>, k: int)
    requires
        0 <= k < xs.len(),
        xs.len() == ys.len(),
    ensures
        line_sum(cells, radius, xs.take(k + 1), ys.take(k + 1)) == line_sum(
            cells,
            radius,
            xs.take(k),
            ys.take(k),
        ) + cells[cell_index(radius, xs[k] as int, ys[k] as int)],
{
    assert(xs.take(k + 1).drop_last() =~= xs.take(k));
    assert(ys.take(k + 1).drop_last() =~= ys.take(k));
}

/// The score of a line on the field: the sum of the darkness at its
/// positions, by saturating addition.
pub fn score(field: &IntensityField, xs: &Vec<u32>, ys: &Vec<u32>) -> (sum: u32)
    requires
        field.wf(),
        in_bounds(field@.radius, xs@, ys@),
    ensures
        sum == line_score(field@.cells, field@.radius, xs@, ys@),
{
    let n: usize = xs.len();
    let mut sum: u32 = 0;
    let mut k: usize = 0;
    while k < n
        invariant
            k <= n,
            n == xs@.len(),
            field.wf(),
            in_bounds(field@.radius, xs@, ys@),
            sum == line_score(field@.cells, field@.radius, xs@.take(k as int), ys@.take(k as int)),
            line_sum(field@.cells, field@.radius, xs@.take(k as int), ys@.take(k as int)) >= 0,
        decreases n - k,
    {
        proof {
            lemma_line_sum_step(field@.cells, field@.radius, xs@, ys@, k as int);
        }
        let value: u8 = field.get(xs[k], ys[k]);
        sum = sum.saturating_add(value as u32);
        k = k + 1;
    }
    assert(xs@.take(n as int) =~= xs@);
    assert(ys@.take(n as int) =~= ys@);
    sum
}

/// Erasing one position more sets one cell more to zero.
pub proof fn lemma_erased_step(cells: Seq<u8>, radius: int, xs: Seq<u32>, ys: Seq<u32>, k: int)
    requires
        0 <= k < xs.len(),
        xs.len() == ys.len(),
        0 <= cell_index(radius, xs[k] as int, ys[k] as int) < cells.len(),
    ensures
        erased(cells, radius, xs.take(k + 1), ys.take(k + 1)) == erased(
            cells,
            radius,
            xs.take(k),
            ys.take(k),
        ).update(cell_index(radius, xs[k] as int, ys[k] as int), 0u8),
{
    let xs0 = xs.take(k);
    let ys0 = ys.take(k);
    let xs1 = xs.take(k + 1);
    let ys1 = ys.take(k + 1);
    let cell = cell_index(radius, xs[k] as int, ys[k] as int);
    let next = erased(cells, radius, xs1, ys1);
    let stepped = erased(cells, radius, xs0, ys0).update(cell, 0u8);
    assert forall|i: int| 0 <= i < next.len() implies next[i] == stepped[i] by {
        if covers(radius, xs0, ys0, i) {
            let j = choose|j: int|
                0 <= j < xs0.len() && #[trigger] cell_index(radius, xs0[j] as int, ys0[j] as int)
                    == i;
            assert(cell_index(radius, xs1[j] as int, ys1[j] as int) == i);
            assert(covers(radius, xs1, ys1, i));
        } else if i == cell {
            assert(cell_index(radius, xs1[k] as int, ys1[k] as int) == i);
            assert(covers(radius, xs1, ys1, i));
        } else {
            if covers(radius, xs1, ys1, i) {
                let j = choose|j: int|
                    0 <= j < xs1.len() && #[trigger] cell_index(
                        radius,
                        xs1[j] as int,
                        ys1[j] as int,
                    ) == i;
                if j < k {
                    assert(cell_index(radius, xs0[j] as int, ys0[j] as int) == i);
                }
                assert(false);
            }
        }
    }
    assert(next =~= stepped);
}

/// Sets the cell at each of the given positions to zero, so that a chord
/// once drawn is not counted again. Erasing the same line a second time
/// changes nothing.
pub fn erase(field: &mut IntensityField, xs: &Vec<u32>, ys: &Vec<u32>)
    requires
        old(field).wf(),
        in_bounds(old(field)@.radius, xs@, ys@),
    ensures
        final(field).wf(),
        final(field)@.radius == old(field)@.radius,
        final(field)@.cells == erased(old(field)@.cells, old(field)@.radius, xs@, ys@),
        forall|i: int|
            0 <= i < old(field)@.cells.len() ==> #[trigger] final(field)@.cells[i] <= old(
                field,
            )@.cells[i],
{
    let n: usize = xs.len();
    let ghost radius = field@.radius;
    let mut k: usize = 0;
    assert(field@.cells =~= erased(old(field)@.cells, radius, xs@.take(0), ys@.take(0)));
    while k < n
        invariant
            k <= n,
            n == xs@.len(),
            field.wf(),
            field@.radius == radius,
            radius == old(field)@.radius,
            in_bounds(radius, xs@, ys@),
            field@.cells == erased(
                old(field)@.cells,
                radius,
                xs@.take(k as int),
                ys@.take(k as int),
            ),
        decreases n - k,
    {
        proof {
            lemma_cell_index(radius, xs@[k as int] as int, ys@[k as int] as int);
        }
        field.clear(xs[k], ys[k]);
        proof {
            lemma_erased_step(old(field)@.cells, radius, xs@, ys@, k as int);
        }
        k = k + 1;
    }
    assert(xs@.take(n as int) =~= xs@);
    assert(ys@.take(n as int) =~= ys@);
}

/// Erasing never raises a value and keeps the number of cells.
pub proof fn lemma_erased_never_increases(
    cells: Seq<u8>,
    radius: int,
    xs: Seq<u32>,
    ys: Seq<u32>,
    i: int,
)
    requires
        0 <= i < cells.len(),
    ensures
        erased(cells, radius, xs, ys).len() == cells.len(),
        erased(cells, radius, xs, ys)[i] <= cells[i],
{
}

/// Erasing the same positions twice leaves the field as erasing them once
/// does.
pub proof fn lemma_erase_idempotent(cells: Seq<u8>, radius: int, xs: Seq<u32>, ys: Seq<u32>)
    ensures
        erased(erased(cells, radius, xs, ys), radius, xs, ys) == erased(cells, radius, xs, ys),
{
    assert(erased(erased(cells, radius, xs, ys), radius, xs, ys) =~= erased(
        cells,
        radius,
        xs,
        ys,
    ));
}

} // verus!
