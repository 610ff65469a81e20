use vstd::prelude::*;
use crate::field::lemma_cell_index;
use crate::geometry::{cell_index, side};
use crate::line::{path_in_bounds, path_view, source_pin, Line, LineView};
use crate::raster::{covers, erased, in_bounds, lemma_erased_step};

verus! {

/// The value of a pixel that no chord passes through.
pub const LIGHT: u8 = 255;

/// The value of a pixel on a chord.
pub const DARK: u8 = 0;

/// A chord of the path passes through the cell with row-major index `cell`.
pub open spec fn path_covers(radius: int, path: Seq<LineView>, cell: int) -> bool {
    exists|i: int| 0 <= i < path.len() && covers(radius, (#[trigger] path[i]).xs, path[i].ys, cell)
}

/// The picture of a path: dark where a chord passes, light elsewhere.
pub open spec fn rendered(radius: int, path: Seq<LineView>) -> Seq<u8> {
    Seq::new(
        (side(radius) * side(radius)) as nat,
        |i: int| if path_covers(radius, path, i) { DARK } else { LIGHT },
    )
}

/// Drawing one chord more onto the picture of a path gives the picture of
/// the longer path.
pub proof fn lemma_rendered_step(radius: int, path: Seq<LineView>, i: int)
    requires
        0 <= i < path.len(),
    ensures
        rendered(radius, path.take(i + 1)) == erased(
            rendered(radius, path.take(i)),
            radius,
            path[i].xs,
            path[i].ys,
        ),
{
    let shorter = path.take(i);
    let longer = path.take(i + 1);
    let drawn = erased(rendered(radius, shorter), radius, path[i].xs, path[i].ys);
    assert forall|c: int| 0 <= c < drawn.len() implies drawn[c] == rendered(radius, longer)[c] by {
        if path_covers(radius, shorter, c) {
            let j = choose|j: int|
                0 <= j < shorter.len() && covers(radius, (#[trigger] shorter[j]).xs, shorter[j].ys, c);
            assert(covers(radius, longer[j].xs, longer[j].ys, c));
        } else if covers(radius, path[i].xs, path[i].ys, c) {
            assert(covers(radius, longer[i].xs, longer[i].ys, c));
        } else {
            if path_covers(radius, longer, c) {
                let j = choose|j: int|
                    0 <= j < longer.len() && covers(
                        radius,
                        (#[trigger] longer[j]).xs,
                        longer[j].ys,
                        c,
                    );
                if j < i {
                    assert(covers(radius, shorter[j].xs, shorter[j].ys, c));
                }
                assert(false);
            }
        }
    }
    assert(rendered(radius, longer) =~= drawn);
}

/// Sets the pixel at each of the given positions to dark.
fn darken(pixels: &mut Vec<u8>, radius: u32, xs: &Vec<u32>, ys: &Vec<u32>)
    requires
        old(pixels)@.len() == side(radius as int) * side(radius as int),
        in_bounds(radius as int, xs@, ys@),
    ensures
        final(pixels)@ == erased(old(pixels)@, radius as int, xs@, ys@),
{
    let n: usize = xs.len();
    let len: usize = pixels.len();
    let ghost s = side(radius as int);
    assert(s <= s * s || s < 1) by (nonlinear_arith);
    let width: usize = 2 * (radius as usize) + 1;
    let mut k: usize = 0;
    assert(pixels@ =~= erased(old(pixels)@, radius as int, xs@.take(0), ys@.take(0)));
    while k < n
        invariant
            k <= n,
            n == xs@.len(),
            width == side(radius as int),
            len == pixels@.len(),
            pixels@.len() == side(radius as int) * side(radius as int),
            old(pixels)@.len() == pixels@.len(),
            in_bounds(radius as int, xs@, ys@),
            pixels@ == erased(
                old(pixels)@,
                radius as int,
                xs@.take(k as int),
                ys@.take(k as int),
            ),
        decreases n - k,
    {
        let x: usize = xs[k] as usize;
        let y: usize = ys[k] as usize;
        proof {
            lemma_cell_index(radius as int, x as int, y as int);
            lemma_erased_step(old(pixels)@, radius as int, xs@, ys@, k as int);
            assert(0 <= y * width <= cell_index(radius as int, x as int, y as int))
                by (nonlinear_arith)
                requires
                    width == side(radius as int),
                    width > 0,
                    0 <= x,
                    0 <= y,
            ;
        }
        pixels.set(y * width + x, DARK);
        k = k + 1;
    }
    assert(xs@.take(n as int) =~= xs@);
    assert(ys@.take(n as int) =~= ys@);
}

/// The picture of a path on a square of side `2 * radius + 1`, row by row:
/// light, with every pixel of every chord dark.
pub fn render(path: &Vec<Line>, radius: u32) -> (pixels: Vec<u8>)
    requires
        side(radius as int) * side(radius as int) <= usize::MAX,
        path_in_bounds(radius as int, path_view(path@)),
    ensures
        pixels@ == rendered(radius as int, path_view(path@)),
{
    let ghost s = side(radius as int);
    assert(s <= s * s || s < 1) by (nonlinear_arith);
    let width: usize = 2 * (radius as usize) + 1;
    assert(width * width == s * s) by (nonlinear_arith)
        requires
            width == s,
    ;
    let mut pixels: Vec<u8> = vec![LIGHT; width * width];
    let ghost shown = path_view(path@);
    let n: usize = path.len();
    let mut i: usize = 0;
    assert(pixels@ =~= rendered(radius as int, shown.take(0)));
    while i < n
        invariant
            i <= n,
            n == path@.len(),
            shown == path_view(path@),
            path_in_bounds(radius as int, shown),
            pixels@.len() == side(radius as int) * side(radius as int),
            pixels@ == rendered(radius as int, shown.take(i as int)),
        decreases n - i,
    {
        proof {
            assert(shown[i as int] == path@[i as int]@);
            lemma_rendered_step(radius as int, shown, i as int);
        }
        darken(&mut pixels, radius, &path[i].xs, &path[i].ys);
        i = i + 1;
    }
    assert(shown.take(n as int) =~= shown);
    pixels
}

/// The chords of a path as pairs of pins, `(source, destination)`, in the
/// order in which they were committed.
pub fn pin_records(path: &Vec<Line>) -> (records: Vec<(usize, usize)>)
    ensures
        records@.len() == path@.len(),
        forall|i: int|
            0 <= i < path@.len() ==> (#[trigger] records@[i]).0 == source_pin(path_view(path@), i)
                && records@[i].1 == path@[i].dest_pin,
{
    let n: usize = path.len();
    let mut records: Vec<(usize, usize)> = Vec::new();
    let mut source: usize = 0;
    let mut i: usize = 0;
    while i < n
        invariant
            i <= n,
            n == path@.len(),
            records@.len() == i,
            source == source_pin(path_view(path@), i as int),
            forall|j: int|
                0 <= j < i ==> (#[trigger] records@[j]).0 == source_pin(path_view(path@), j)
                    && records@[j].1 == path@[j].dest_pin,
        decreases n - i,
    {
        let dest: usize = path[i].dest_pin;
        records.push((source, dest));
        source = dest;
        i = i + 1;
    }
    records
}

/// The chords of a path as the coordinates of their first and last pixel,
/// `(x1, y1, x2, y2)`, in the order in which they were committed.
pub fn coord_records(path: &Vec<Line>) -> (records: Vec<(u32, u32, u32, u32)>)
    requires
        forall|i: int| 0 <= i < path@.len() ==> Line::has_pixels((#[trigger] path@[i])@),
    ensures
        records@.len() == path@.len(),
        forall|i: int|
            0 <= i < path@.len() ==> #[trigger] records@[i] == (
                path@[i]@.xs.first(),
                path@[i]@.ys.first(),
                path@[i]@.xs.last(),
                path@[i]@.ys.last(),
            ),
{
    let n: usize = path.len();
    let mut records: Vec<(u32, u32, u32, u32)> = Vec::new();
    let mut i: usize = 0;
    while i < n
        invariant
            i <= n,
            n == path@.len(),
            records@.len() == i,
            forall|j: int| 0 <= j < path@.len() ==> Line::has_pixels((#[trigger] path@[j])@),
            forall|j: int|
                0 <= j < i ==> #[trigger] records@[j] == (
                    path@[j]@.xs.first(),
                    path@[j]@.ys.first(),
                    path@[j]@.xs.last(),
                    path@[j]@.ys.last(),
                ),
        decreases n - i,
    {
        assert(Line::has_pixels(path@[i as int]@));
        let last: usize = path[i].xs.len() - 1;
        records.push((path[i].xs[0], path[i].ys[0], path[i].xs[last], path[i].ys[last]));
        i = i + 1;
    }
    records
}

} // verus!
