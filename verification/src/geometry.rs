use vstd::prelude::*;

verus! {

/// A pixel position: `x` counts columns from the left, `y` rows from the top.
#[derive(Clone, Copy, Debug, PartialEq, Eq, Structural)]
pub struct Point {
    pub x: u32,
    pub y: u32,
}

/// Side length of the square field of the given radius.
pub open spec fn side(radius: int) -> int {
    2 * radius + 1
}

/// The position lies on the square field of the given radius.
pub open spec fn in_field(radius: int, x: int, y: int) -> bool {
    0 <= x < side(radius) && 0 <= y < side(radius)
}

/// Squared Euclidean distance between two positions.
pub open spec fn sq_dist(ax: int, ay: int, bx: int, by: int) -> int {
    (ax - bx) * (ax - bx) + (ay - by) * (ay - by)
}

/// The position lies within the circle of the given radius centred at
/// `(radius, radius)`, the circle inscribed in the field.
pub open spec fn in_mask(radius: int, x: int, y: int) -> bool {
    sq_dist(x, y, radius, radius) <= radius * radius
}

/// Row-major index of the cell at `(x, y)`.
pub open spec fn cell_index(radius: int, x: int, y: int) -> int {
    y * side(radius) + x
}

/// `r` is the square root of `n` rounded to the nearest integer: `r` is
/// the one natural number with `r - 1/2 <= sqrt(n) < r + 1/2`, stated
/// without fractions.
pub open spec fn is_rounded_root(n: nat, r: nat) -> bool {
    (n == 0 && r == 0) || (r * r - r < n && n <= r * r + r)
}

/// The product `r * (r + 1)`: the largest number whose rounded root is `r`.
pub open spec fn pronic(r: int) -> int {
    r * r + r
}

/// The square root of `n` rounded to the nearest integer.
pub open spec fn rounded_root(n: nat) -> nat {
    choose|r: nat| is_rounded_root(n, r)
}

/// Euclidean distance between two points, rounded to the nearest integer.
pub open spec fn rounded_dist(a: Point, b: Point) -> nat {
    rounded_root(sq_dist(a.x as int, a.y as int, b.x as int, b.y as int) as nat)
}

/// At most one number is the rounded root of `n`.
pub proof fn lemma_rounded_root_unique(n: nat, r1: nat, r2: nat)
    requires
        is_rounded_root(n, r1),
        is_rounded_root(n, r2),
    ensures
        r1 == r2,
{
    if r1 < r2 {
        assert(r1 * r1 + r1 <= r2 * r2 - r2) by (nonlinear_arith)
            requires
                r1 < r2,
        ;
    } else if r2 < r1 {
        assert(r2 * r2 + r2 <= r1 * r1 - r1) by (nonlinear_arith)
            requires
                r2 < r1,
        ;
    }
}

/// Every natural number has a rounded root.
pub proof fn lemma_rounded_root_exists(n: nat)
    ensures
        is_rounded_root(n, rounded_root(n)),
    decreases n,
{
    if n == 0 {
        assert(is_rounded_root(0, 0));
    } else {
        lemma_rounded_root_exists((n - 1) as nat);
        let r = rounded_root((n - 1) as nat);
        if n <= r * r + r {
            assert(r * r - r < n) by (nonlinear_arith)
                requires
                    (n - 1 == 0 && r == 0) || r * r - r < n - 1,
                    n >= 1,
            ;
            assert(is_rounded_root(n, r));
        } else {
            let s = r + 1;
            assert(s * s - s == r * r + r) by (nonlinear_arith)
                requires
                    s == r + 1,
            ;
            assert(s * s + s >= r * r + r + 1) by (nonlinear_arith)
                requires
                    s == r + 1,
            ;
            assert(n - 1 <= r * r + r);
            assert(is_rounded_root(n, s as nat));
        }
    }
}

/// A number that passes the test is the rounded root.
pub proof fn lemma_rounded_root_is(n: nat, r: nat)
    requires
        is_rounded_root(n, r),
    ensures
        rounded_root(n) == r,
{
    lemma_rounded_root_unique(n, r, rounded_root(n));
}

/// The square root of `n`, rounded to the nearest integer.
pub fn rounded_sqrt(n: u128) -> (r: u128)
    ensures
        is_rounded_root(n as nat, r as nat),
        r == rounded_root(n as nat),
        r <= 0x1_0000_0000_0000_0000,
{
    let mut lo: u128 = 0;
    let mut hi: u128 = 0x1_0000_0000_0000_0000;
    assert(n <= pronic(hi as int)) by (nonlinear_arith)
        requires
            hi == 0x1_0000_0000_0000_0000u128,
            n <= u128::MAX,
    ;
    while lo < hi
        invariant
            lo <= hi <= 0x1_0000_0000_0000_0000,
            lo == 0 || pronic(lo - 1) < n,
            n <= pronic(hi as int),
        decreases hi - lo,
    {
        let mid: u128 = lo + (hi - lo) / 2;
        assert(mid * (mid + 1) <= u128::MAX && mid * (mid + 1) == pronic(mid as int))
            by (nonlinear_arith)
            requires
                mid < 0x1_0000_0000_0000_0000u128,
        ;
        if n <= mid * (mid + 1) {
            hi = mid;
        } else {
            lo = mid + 1;
        }
    }
    proof {
        let r = lo as nat;
        if lo > 0 {
            assert(r * r - r == pronic(lo - 1)) by (nonlinear_arith)
                requires
                    r == lo,
                    lo > 0,
            ;
            assert(r * r + r == pronic(lo as int));
            assert(is_rounded_root(n as nat, r));
        } else {
            assert(pronic(0) == 0) by (nonlinear_arith);
            assert(is_rounded_root(n as nat, r));
        }
        lemma_rounded_root_is(n as nat, r);
    }
    lo
}

/// Squared distance of `(x, y)` from `(cx, cy)`.
pub fn squared_distance(x: u32, y: u32, cx: u32, cy: u32) -> (d: u128)
    ensures
        d == sq_dist(x as int, y as int, cx as int, cy as int),
{
    let dx: u128 = (if x >= cx { x - cx } else { cx - x }) as u128;
    let dy: u128 = (if y >= cy { y - cy } else { cy - y }) as u128;
    assert(dx * dx <= 0xffff_ffff * 0xffff_ffff && dx * dx == (x - cx) * (x - cx))
        by (nonlinear_arith)
        requires
            dx <= 0xffff_ffff,
            dx == x - cx || dx == cx - x,
    ;
    assert(dy * dy <= 0xffff_ffff * 0xffff_ffff && dy * dy == (y - cy) * (y - cy))
        by (nonlinear_arith)
        requires
            dy <= 0xffff_ffff,
            dy == y - cy || dy == cy - y,
    ;
    dx * dx + dy * dy
}

/// Whether `p` lies within the circular mask of the given radius.
pub fn within_mask(radius: u32, p: Point) -> (inside: bool)
    ensures
        inside == in_mask(radius as int, p.x as int, p.y as int),
{
    let d: u128 = squared_distance(p.x, p.y, radius, radius);
    let r: u128 = radius as u128;
    assert(r * r <= 0xffff_ffff * 0xffff_ffff) by (nonlinear_arith)
        requires
            r <= 0xffff_ffff,
    ;
    d <= r * r
}

/// Euclidean distance between two points, rounded to the nearest integer.
pub fn rounded_distance(a: Point, b: Point) -> (d: u64)
    ensures
        d == rounded_dist(a, b),
{
    let n: u128 = squared_distance(a.x, a.y, b.x, b.y);
    let r: u128 = rounded_sqrt(n);
    proof {
        let dx = a.x as int - b.x as int;
        let dy = a.y as int - b.y as int;
        assert(dx * dx <= 0xffff_ffff * 0xffff_ffff) by (nonlinear_arith)
            requires
                -0xffff_ffff <= dx <= 0xffff_ffff,
        ;
        assert(dy * dy <= 0xffff_ffff * 0xffff_ffff) by (nonlinear_arith)
            requires
                -0xffff_ffff <= dy <= 0xffff_ffff,
        ;
        if r >= 0x2_0000_0000 {
            assert(r * r - r >= 0x2_0000_0000 * 0x1_ffff_ffff) by (nonlinear_arith)
                requires
                    r >= 0x2_0000_0000,
            ;
        }
    }
    r as u64
}

/// A position within the mask lies on the field.
pub proof fn lemma_mask_in_field(radius: int, x: int, y: int)
    requires
        0 <= radius,
        0 <= x,
        0 <= y,
        in_mask(radius, x, y),
    ensures
        in_field(radius, x, y),
{
    assert(x <= 2 * radius) by (nonlinear_arith)
        requires
            (x - radius) * (x - radius) + (y - radius) * (y - radius) <= radius * radius,
            0 <= radius,
    ;
    assert(y <= 2 * radius) by (nonlinear_arith)
        requires
            (x - radius) * (x - radius) + (y - radius) * (y - radius) <= radius * radius,
            0 <= radius,
    ;
}

} // verus!
