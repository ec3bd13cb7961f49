//! Pixel coordinates, exact distance, circumcircles and affine transforms.
//!
//! Scans and templates both address pixels with non-negative integer
//! coordinates.  The circle and affine solvers work on the exact rational
//! solutions of the underlying linear systems and round once at the end, so
//! their results can be specified to the pixel.

use vstd::prelude::*;

verus! {

/// Exclusive upper bound on the coordinates the geometric solvers accept.
/// Keeping coordinates below 2^24 lets every intermediate product of the
/// exact rational arithmetic fit comfortably in an `i128`.
pub const COORD_LIMIT: u32 = 16777216;

/// One pixel position, either in template space or in scan space.
#[derive(Debug, Clone, Copy, PartialEq, Eq, Structural)]
pub struct Point {
    pub x: u32,
    pub y: u32,
}

/// Square of an integer.
pub open spec fn sq(v: int) -> int {
    v * v
}

/// `r` is `sqrt(d)` rounded to the nearest integer (ties round up):
/// `(2r - 1)^2 <= 4d < (2r + 1)^2`.
pub open spec fn is_rounded_sqrt(r: int, d: int) -> bool {
    &&& r >= 0
    &&& r > 0 ==> sq(2 * r - 1) <= 4 * d
    &&& 4 * d < sq(2 * r + 1)
}

/// Largest integer whose square does not exceed `d`, as a recursive
/// definition usable in specifications.
pub open spec fn floor_sqrt(d: int) -> int
    decreases d,
{
    if d <= 0 {
        0
    } else {
        let p = floor_sqrt(d - 1);
        if sq(p + 1) <= d {
            p + 1
        } else {
            p
        }
    }
}

/// `sqrt(d)` rounded to the nearest integer, ties rounding up.
pub open spec fn rounded_sqrt(d: int) -> int {
    if 4 * d >= sq(2 * floor_sqrt(d) + 1) {
        floor_sqrt(d) + 1
    } else {
        floor_sqrt(d)
    }
}

/// [`floor_sqrt`] really is the floor of the square root.
pub proof fn lemma_floor_sqrt(d: int)
    requires
        d >= 0,
    ensures
        floor_sqrt(d) >= 0,
        sq(floor_sqrt(d)) <= d < sq(floor_sqrt(d) + 1),
    decreases d,
{
    if d > 0 {
        lemma_floor_sqrt(d - 1);
        let p = floor_sqrt(d - 1);
        if sq(p + 1) <= d {
            assert(sq(p + 2) > d) by (nonlinear_arith)
                requires p >= 0 && d - 1 < sq(p + 1) && sq(p + 1) <= d;
        }
    }
}

/// [`rounded_sqrt`] satisfies the rounded-square-root characterization.
pub proof fn lemma_rounded_sqrt(d: int)
    requires
        d >= 0,
    ensures
        is_rounded_sqrt(rounded_sqrt(d), d),
{
    lemma_floor_sqrt(d);
    let s = floor_sqrt(d);
    if 4 * d >= sq(2 * s + 1) {
        assert(is_rounded_sqrt(s + 1, d)) by (nonlinear_arith)
            requires s >= 0 && sq(s) <= d < sq(s + 1) && 4 * d >= sq(2 * s + 1);
    } else {
        assert(is_rounded_sqrt(s, d)) by (nonlinear_arith)
            requires s >= 0 && sq(s) <= d < sq(s + 1) && !(4 * d >= sq(2 * s + 1));
    }
}

/// Only one integer satisfies the rounded-square-root characterization.
pub proof fn lemma_rounded_sqrt_unique(r1: int, r2: int, d: int)
    requires
        is_rounded_sqrt(r1, d),
        is_rounded_sqrt(r2, d),
    ensures
        r1 == r2,
{
    assert(r1 == r2) by (nonlinear_arith)
        requires
            r1 >= 0 && r2 >= 0,
            r1 > 0 ==> sq(2 * r1 - 1) <= 4 * d,
            4 * d < sq(2 * r1 + 1),
            r2 > 0 ==> sq(2 * r2 - 1) <= 4 * d,
            4 * d < sq(2 * r2 + 1);
}

/// Squared Euclidean distance between two points.
pub open spec fn sq_dist(p: Point, q: Point) -> int {
    sq(p.x - q.x) + sq(p.y - q.y)
}

/// Largest integer whose square does not exceed `d`.
fn isqrt(d: u64) -> (s: u64)
    requires
        d < 0x4000000000000,
    ensures
        sq(s as int) <= d < sq(s as int + 1),
        s <= 0x2000000,
{
    let mut lo: u64 = 0;
    let mut hi: u64 = 0x2000000;
    assert(sq(hi as int) > d) by {
        assert(sq(0x2000000) == 0x4000000000000);
    }
    while hi - lo > 1
        invariant
            lo < hi <= 0x2000000,
            sq(lo as int) <= d,
            d < sq(hi as int),
        decreases hi - lo,
    {
        let mid: u64 = lo + (hi - lo) / 2;
        assert(0 <= mid * mid <= 0x4000000000000) by (nonlinear_arith)
            requires 0 <= mid <= 0x2000000;
        if mid * mid <= d {
            lo = mid;
        } else {
            hi = mid;
        }
    }
    lo
}

/// `n / d` rounded to the nearest integer, halves towards positive infinity.
/// Only meaningful for `d > 0`; spec-level `/` is Euclidean, so this is the
/// floor of `(2n + d) / 2d`.
pub open spec fn round_div(n: int, d: int) -> int {
    (2 * n + d) / (2 * d)
}

/// [`round_div`] clamped to the coordinate range `[0, COORD_LIMIT)`.
pub open spec fn round_coord(n: int, d: int) -> int {
    let q = round_div(n, d);
    if q < 0 {
        0
    } else if q > COORD_LIMIT - 1 {
        COORD_LIMIT - 1
    } else {
        q
    }
}

/// Bound on the numerators handed to [`round_to_coord`].
pub const NUM_BOUND: i128 = 0x200000000000000000000000000;

/// `n / d` rounded to the nearest integer and clamped to the coordinate range.
pub(crate) fn round_to_coord(n: i128, d: i128) -> (r: u32)
    requires
        0 < d <= NUM_BOUND,
        -NUM_BOUND <= n <= NUM_BOUND,
    ensures
        r == round_coord(n as int, d as int),
{
    if 2 * n < d {
        // the rounded quotient is at most 0, so it clamps to 0
        assert(round_div(n as int, d as int) <= 0) by {
            assert(2 * n + d < 2 * d);
            if 2 * n + d >= 0 {
                vstd::arithmetic::div_mod::lemma_basic_div(2 * n + d, 2 * d);
            } else {
                vstd::arithmetic::div_mod::lemma_div_is_strictly_smaller(
                    -(2 * n + d), 2 * d);
                assert((2 * n + d) / (2 * d) <= 0) by (nonlinear_arith)
                    requires 2 * n + d < 0 && 2 * d > 0;
            }
        }
        0
    } else {
        let q: i128 = (2 * n + d) / (2 * d);
        assert(q == round_div(n as int, d as int)) by {
            assert(2 * n + d >= 2 * d > 0);
        }
        assert(q >= 1) by {
            vstd::arithmetic::div_mod::lemma_div_is_ordered(2 * d, 2 * n + d, 2 * d);
            vstd::arithmetic::div_mod::lemma_div_by_self(2 * d);
        }
        if q > (COORD_LIMIT - 1) as i128 {
            COORD_LIMIT - 1
        } else {
            q as u32
        }
    }
}

/// Rounding an exact multiple of the denominator recovers the multiplier:
/// if `n == d * k` with `k` in the coordinate range, the rounded and clamped
/// quotient is exactly `k`.
pub proof fn lemma_round_coord_exact(n: int, d: int, k: int)
    requires
        d > 0,
        n == d * k,
        0 <= k < COORD_LIMIT,
    ensures
        round_coord(n, d) == k,
{
    assert(2 * n + d == (2 * d) * k + d) by (nonlinear_arith)
        requires n == d * k;
    vstd::arithmetic::div_mod::lemma_div_multiples_vanish_fancy(k, d, 2 * d);
}

/// Bound on the matrix and translation numerators of a [`Transformation`]
/// (three products of a coordinate and a 2x2 cofactor).
pub const ENTRY_BOUND: i128 = 0x8000000000000000000;

/// Bound on the denominator of a [`Transformation`] (a 3x3 determinant of
/// two coordinate rows and a row of ones).
pub const DEN_BOUND: i128 = 0x10000000000000;

/// An affine map from template space to scan space, kept as the exact
/// rational solution of [`affine_transformation`]: the matrix `m` and the
/// translation `t` are integer numerators over the common denominator `den`,
/// so `apply` maps `p` to `round((m * p + t) / den)`.
#[derive(Debug, Clone, Copy)]
pub struct Transformation {
    pub m00: i128,
    pub m01: i128,
    pub m10: i128,
    pub m11: i128,
    pub t0: i128,
    pub t1: i128,
    pub den: i128,
}

impl Transformation {
    /// The numerators and the denominator stay small enough that `apply`
    /// cannot overflow, and the denominator is positive.
    pub open spec fn wf(self) -> bool {
        &&& 0 < self.den <= DEN_BOUND
        &&& -ENTRY_BOUND <= self.m00 <= ENTRY_BOUND
        &&& -ENTRY_BOUND <= self.m01 <= ENTRY_BOUND
        &&& -ENTRY_BOUND <= self.m10 <= ENTRY_BOUND
        &&& -ENTRY_BOUND <= self.m11 <= ENTRY_BOUND
        &&& -ENTRY_BOUND <= self.t0 <= ENTRY_BOUND
        &&& -ENTRY_BOUND <= self.t1 <= ENTRY_BOUND
    }

    /// Numerator of the x coordinate of the image of `p`.
    pub open spec fn num_x(self, p: Point) -> int {
        self.m00 * p.x + self.m01 * p.y + self.t0
    }

    /// Numerator of the y coordinate of the image of `p`.
    pub open spec fn num_y(self, p: Point) -> int {
        self.m10 * p.x + self.m11 * p.y + self.t1
    }

    /// The image of `p`: each exact rational coordinate rounded to the
    /// nearest pixel and clamped to the coordinate range.
    pub open spec fn apply_spec(self, p: Point) -> Point {
        Point {
            x: round_coord(self.num_x(p), self.den as int) as u32,
            y: round_coord(self.num_y(p), self.den as int) as u32,
        }
    }

    /// Transform a point from template space to scan space.
    pub fn apply(self, p: Point) -> (r: Point)
        requires
            self.wf(),
            p.in_range(),
        ensures
            r == self.apply_spec(p),
            r.in_range(),
    {
        let px: i128 = p.x as i128;
        let py: i128 = p.y as i128;
        assert({
            &&& -0x80000000000000000000000000 <= self.m00 * px <= 0x80000000000000000000000000
            &&& -0x80000000000000000000000000 <= self.m01 * py <= 0x80000000000000000000000000
            &&& -0x80000000000000000000000000 <= self.m10 * px <= 0x80000000000000000000000000
            &&& -0x80000000000000000000000000 <= self.m11 * py <= 0x80000000000000000000000000
        }) by (nonlinear_arith)
            requires
                -ENTRY_BOUND <= self.m00 <= ENTRY_BOUND,
                -ENTRY_BOUND <= self.m01 <= ENTRY_BOUND,
                -ENTRY_BOUND <= self.m10 <= ENTRY_BOUND,
                -ENTRY_BOUND <= self.m11 <= ENTRY_BOUND,
                0 <= px < COORD_LIMIT,
                0 <= py < COORD_LIMIT;
        let nx: i128 = self.m00 * px + self.m01 * py + self.t0;
        let ny: i128 = self.m10 * px + self.m11 * py + self.t1;
        Point {
            x: round_to_coord(nx, self.den),
            y: round_to_coord(ny, self.den),
        }
    }
}

/// The three points lie on one line.
pub open spec fn collinear(a: Point, b: Point, c: Point) -> bool {
    (b.x - a.x) * (c.y - a.y) == (b.y - a.y) * (c.x - a.x)
}

/// Denominator of the exact circumcenter of `a`, `b`, `c` (four times the
/// signed doubled triangle area); zero exactly when the points are collinear.
pub open spec fn cc_den(a: Point, b: Point, c: Point) -> int {
    (2 * (b.x - a.x)) * (2 * (c.y - a.y)) - (2 * (b.y - a.y)) * (2 * (c.x - a.x))
}

/// Numerator of the x coordinate of the exact circumcenter.
pub open spec fn cc_num_x(a: Point, b: Point, c: Point) -> int {
    (sq(b.x as int) - sq(a.x as int) + sq(b.y as int) - sq(a.y as int)) * (2 * (c.y - a.y))
        - (sq(c.x as int) - sq(a.x as int) + sq(c.y as int) - sq(a.y as int)) * (2 * (b.y - a.y))
}

/// Numerator of the y coordinate of the exact circumcenter.
pub open spec fn cc_num_y(a: Point, b: Point, c: Point) -> int {
    (2 * (b.x - a.x)) * (sq(c.x as int) - sq(a.x as int) + sq(c.y as int) - sq(a.y as int))
        - (2 * (c.x - a.x)) * (sq(b.x as int) - sq(a.x as int) + sq(b.y as int) - sq(a.y as int))
}

/// Squared distance from the scaled point `(nx / den, ny / den)` to `p`,
/// scaled by `den^2`.
pub open spec fn scaled_sq_dist(nx: int, ny: int, den: int, p: Point) -> int {
    sq(nx - p.x * den) + sq(ny - p.y * den)
}

/// Difference of two squared scaled offsets, expanded: the building block of
/// the equidistance proof for one coordinate.
proof fn lemma_sq_diff(n: int, u: int, v: int, d: int)
    ensures
        sq(n - u * d) - sq(n - v * d) == 2 * n * d * (v - u) - d * d * (v * v - u * u),
{
    let p = n - u * d;
    let q = n - v * d;
    let w = (v - u) * d;
    assert(p * p - q * q == (p + q) * (p - q)) by (nonlinear_arith);
    assert(p - q == w) by (nonlinear_arith)
        requires p == n - u * d && q == n - v * d && w == (v - u) * d;
    assert(p + q == 2 * n - (u + v) * d) by (nonlinear_arith)
        requires p == n - u * d && q == n - v * d;
    vstd::arithmetic::mul::lemma_mul_is_distributive_sub_other_way(
        w, 2 * n, (u + v) * d);
    assert((2 * n) * w == 2 * n * d * (v - u)) by (nonlinear_arith)
        requires w == (v - u) * d;
    assert(((u + v) * d) * w == d * d * (v * v - u * u)) by (nonlinear_arith)
        requires w == (v - u) * d;
}

/// The exact rational circumcenter is equidistant from the three points that
/// define it: with all distances scaled by the common denominator, the
/// squared distances agree.
pub proof fn lemma_circumcenter_equidistant(a: Point, b: Point, c: Point)
    requires
        !collinear(a, b, c),
    ensures
        scaled_sq_dist(cc_num_x(a, b, c), cc_num_y(a, b, c), cc_den(a, b, c), a)
            == scaled_sq_dist(cc_num_x(a, b, c), cc_num_y(a, b, c), cc_den(a, b, c), b),
        scaled_sq_dist(cc_num_x(a, b, c), cc_num_y(a, b, c), cc_den(a, b, c), a)
            == scaled_sq_dist(cc_num_x(a, b, c), cc_num_y(a, b, c), cc_den(a, b, c), c),
{
    let e11 = 2 * (b.x - a.x);
    let e12 = 2 * (b.y - a.y);
    let r1 = sq(b.x as int) - sq(a.x as int) + sq(b.y as int) - sq(a.y as int);
    let e21 = 2 * (c.x - a.x);
    let e22 = 2 * (c.y - a.y);
    let r2 = sq(c.x as int) - sq(a.x as int) + sq(c.y as int) - sq(a.y as int);
    let den = cc_den(a, b, c);
    let nx = cc_num_x(a, b, c);
    let ny = cc_num_y(a, b, c);
    assert(e11 * nx + e12 * ny == den * r1) by (nonlinear_arith)
        requires
            den == e11 * e22 - e12 * e21,
            nx == r1 * e22 - r2 * e12,
            ny == e11 * r2 - e21 * r1;
    assert(e21 * nx + e22 * ny == den * r2) by (nonlinear_arith)
        requires
            den == e11 * e22 - e12 * e21,
            nx == r1 * e22 - r2 * e12,
            ny == e11 * r2 - e21 * r1;
    lemma_bisector_balance(nx, ny, den, a.x as int, a.y as int, b.x as int, b.y as int);
    lemma_bisector_balance(nx, ny, den, a.x as int, a.y as int, c.x as int, c.y as int);
}

/// If the scaled point `(nx / den, ny / den)` satisfies the perpendicular
/// bisector equation of the segment from `(ax, ay)` to `(bx, by)`, it is
/// equidistant from the segment's two endpoints.
proof fn lemma_bisector_balance(nx: int, ny: int, den: int, ax: int, ay: int, bx: int, by: int)
    requires
        (2 * (bx - ax)) * nx + (2 * (by - ay)) * ny
            == den * (bx * bx - ax * ax + by * by - ay * ay),
    ensures
        sq(nx - ax * den) + sq(ny - ay * den) == sq(nx - bx * den) + sq(ny - by * den),
{
    lemma_sq_diff(nx, ax, bx, den);
    lemma_sq_diff(ny, ay, by, den);
    let t1 = (2 * (bx - ax)) * nx;
    let t2 = (2 * (by - ay)) * ny;
    let s1 = bx * bx - ax * ax;
    let s2 = by * by - ay * ay;
    assert(2 * nx * den * (bx - ax) == den * t1) by (nonlinear_arith)
        requires t1 == (2 * (bx - ax)) * nx;
    assert(2 * ny * den * (by - ay) == den * t2) by (nonlinear_arith)
        requires t2 == (2 * (by - ay)) * ny;
    vstd::arithmetic::mul::lemma_mul_is_distributive_add(den, t1, t2);
    vstd::arithmetic::mul::lemma_mul_is_distributive_add(den * den, s1, s2);
    assert((den * den) * (s1 + s2) == den * (den * (s1 + s2))) by (nonlinear_arith);
    assert(den * (t1 + t2) == den * (den * (s1 + s2)))
        by { assert(t1 + t2 == den * (s1 + s2)); }
}

/// `(p*u + q*v + r*w) * x == p*(u*x) + q*(v*x) + r*(w*x)`.
proof fn lemma_dist3(p: int, q: int, r: int, u: int, v: int, w: int, x: int)
    ensures
        (p * u + q * v + r * w) * x == p * (u * x) + q * (v * x) + r * (w * x),
{
    vstd::arithmetic::mul::lemma_mul_is_distributive_add_other_way(x, p * u + q * v, r * w);
    vstd::arithmetic::mul::lemma_mul_is_distributive_add_other_way(x, p * u, q * v);
    vstd::arithmetic::mul::lemma_mul_is_associative(p, u, x);
    vstd::arithmetic::mul::lemma_mul_is_associative(q, v, x);
    vstd::arithmetic::mul::lemma_mul_is_associative(r, w, x);
}

/// `f * (s1 + s2 + s3) == f*s1 + f*s2 + f*s3`.
proof fn lemma_factor3(f: int, s1: int, s2: int, s3: int)
    ensures
        f * (s1 + s2 + s3) == f * s1 + f * s2 + f * s3,
{
    vstd::arithmetic::mul::lemma_mul_is_distributive_add(f, s1 + s2, s3);
    vstd::arithmetic::mul::lemma_mul_is_distributive_add(f, s1, s2);
}

/// Evaluating the linear map assembled from a dot product of coefficient
/// triples regroups into a dot product of the per-column combinations.
proof fn lemma_row_apply(
    b1: int, b2: int, b3: int,
    c1: int, c2: int, c3: int,
    d1: int, d2: int, d3: int,
    e1: int, e2: int, e3: int,
    px: int, py: int, k1: int, k2: int, k3: int,
)
    requires
        k1 == c1 * px + d1 * py + e1,
        k2 == c2 * px + d2 * py + e2,
        k3 == c3 * px + d3 * py + e3,
    ensures
        (b1 * c1 + b2 * c2 + b3 * c3) * px + (b1 * d1 + b2 * d2 + b3 * d3) * py
            + (b1 * e1 + b2 * e2 + b3 * e3)
            == b1 * k1 + b2 * k2 + b3 * k3,
{
    lemma_dist3(b1, b2, b3, c1, c2, c3, px);
    lemma_dist3(b1, b2, b3, d1, d2, d3, py);
    lemma_factor3(b1, c1 * px, d1 * py, e1);
    lemma_factor3(b2, c2 * px, d2 * py, e2);
    lemma_factor3(b3, c3 * px, d3 * py, e3);
}

/// The matrix `m0, m1` and offset `tt` assembled from the cofactors of the
/// source triangle send each source point to `det` times the corresponding
/// target coordinate.
proof fn lemma_affine_maps(
    a1x: int, a1y: int, a2x: int, a2y: int, a3x: int, a3y: int,
    b1: int, b2: int, b3: int,
    det: int, m0: int, m1: int, tt: int,
)
    requires
        m0 == b1 * (a2y - a3y) + b2 * (a3y - a1y) + b3 * (a1y - a2y),
        m1 == b1 * (a3x - a2x) + b2 * (a1x - a3x) + b3 * (a2x - a1x),
        tt == b1 * (a2x * a3y - a3x * a2y) + b2 * (a3x * a1y - a1x * a3y)
            + b3 * (a1x * a2y - a2x * a1y),
        det == a1x * (a2y - a3y) - a2x * (a1y - a3y) + a3x * (a1y - a2y),
    ensures
        m0 * a1x + m1 * a1y + tt == det * b1,
        m0 * a2x + m1 * a2y + tt == det * b2,
        m0 * a3x + m1 * a3y + tt == det * b3,
{
    let c1 = a2y - a3y;
    let c2 = a3y - a1y;
    let c3 = a1y - a2y;
    let d1 = a3x - a2x;
    let d2 = a1x - a3x;
    let d3 = a2x - a1x;
    let e1 = a2x * a3y - a3x * a2y;
    let e2 = a3x * a1y - a1x * a3y;
    let e3 = a1x * a2y - a2x * a1y;
    assert(c1 * a1x + d1 * a1y + e1 == det) by (nonlinear_arith)
        requires
            c1 == a2y - a3y && d1 == a3x - a2x && e1 == a2x * a3y - a3x * a2y,
            det == a1x * (a2y - a3y) - a2x * (a1y - a3y) + a3x * (a1y - a2y);
    assert(c1 * a2x + d1 * a2y + e1 == 0) by (nonlinear_arith)
        requires c1 == a2y - a3y && d1 == a3x - a2x && e1 == a2x * a3y - a3x * a2y;
    assert(c1 * a3x + d1 * a3y + e1 == 0) by (nonlinear_arith)
        requires c1 == a2y - a3y && d1 == a3x - a2x && e1 == a2x * a3y - a3x * a2y;
    assert(c2 * a1x + d2 * a1y + e2 == 0) by (nonlinear_arith)
        requires c2 == a3y - a1y && d2 == a1x - a3x && e2 == a3x * a1y - a1x * a3y;
    assert(c2 * a2x + d2 * a2y + e2 == det) by (nonlinear_arith)
        requires
            c2 == a3y - a1y && d2 == a1x - a3x && e2 == a3x * a1y - a1x * a3y,
            det == a1x * (a2y - a3y) - a2x * (a1y - a3y) + a3x * (a1y - a2y);
    assert(c2 * a3x + d2 * a3y + e2 == 0) by (nonlinear_arith)
        requires c2 == a3y - a1y && d2 == a1x - a3x && e2 == a3x * a1y - a1x * a3y;
    assert(c3 * a1x + d3 * a1y + e3 == 0) by (nonlinear_arith)
        requires c3 == a1y - a2y && d3 == a2x - a1x && e3 == a1x * a2y - a2x * a1y;
    assert(c3 * a2x + d3 * a2y + e3 == 0) by (nonlinear_arith)
        requires c3 == a1y - a2y && d3 == a2x - a1x && e3 == a1x * a2y - a2x * a1y;
    assert(c3 * a3x + d3 * a3y + e3 == det) by (nonlinear_arith)
        requires
            c3 == a1y - a2y && d3 == a2x - a1x && e3 == a1x * a2y - a2x * a1y,
            det == a1x * (a2y - a3y) - a2x * (a1y - a3y) + a3x * (a1y - a2y);
    lemma_row_apply(b1, b2, b3, c1, c2, c3, d1, d2, d3, e1, e2, e3, a1x, a1y, det, 0, 0);
    lemma_row_apply(b1, b2, b3, c1, c2, c3, d1, d2, d3, e1, e2, e3, a2x, a2y, 0, det, 0);
    lemma_row_apply(b1, b2, b3, c1, c2, c3, d1, d2, d3, e1, e2, e3, a3x, a3y, 0, 0, det);
    vstd::arithmetic::mul::lemma_mul_is_commutative(b1, det);
    vstd::arithmetic::mul::lemma_mul_is_commutative(b2, det);
    vstd::arithmetic::mul::lemma_mul_is_commutative(b3, det);
}

/// Negating every numerator and the denominator of one row of the linear
/// system keeps the mapped value intact.
proof fn lemma_neg_row(m0: int, m1: int, tt: int, px: int, py: int, det: int, b: int)
    requires
        m0 * px + m1 * py + tt == det * b,
    ensures
        (-m0) * px + (-m1) * py + (-tt) == (-det) * b,
{
    assert((-m0) * px == -(m0 * px)) by (nonlinear_arith);
    assert((-m1) * py == -(m1 * py)) by (nonlinear_arith);
    assert((-det) * b == -(det * b)) by (nonlinear_arith);
}

/// Signed doubled area of the source triangle: the determinant of the
/// homogeneous source matrix, zero exactly when the points are collinear.
pub open spec fn af_det(a1: Point, a2: Point, a3: Point) -> int {
    a1.x * (a2.y - a3.y) - a2.x * (a1.y - a3.y) + a3.x * (a1.y - a2.y)
}

/// The affine map as a specification value: the exact cofactor
/// construction of [`affine_transformation`], sign-normalized so the
/// denominator is positive, or `None` for a degenerate source triangle.
pub open spec fn affine_spec(
    a1: Point, a2: Point, a3: Point,
    b1: Point, b2: Point, b3: Point,
) -> Option<Transformation> {
    let det = af_det(a1, a2, a3);
    if det == 0 {
        None
    } else {
        let m00 = b1.x * (a2.y - a3.y) + b2.x * (a3.y - a1.y) + b3.x * (a1.y - a2.y);
        let m01 = b1.x * (a3.x - a2.x) + b2.x * (a1.x - a3.x) + b3.x * (a2.x - a1.x);
        let t0 = b1.x * (a2.x * a3.y - a3.x * a2.y) + b2.x * (a3.x * a1.y - a1.x * a3.y)
            + b3.x * (a1.x * a2.y - a2.x * a1.y);
        let m10 = b1.y * (a2.y - a3.y) + b2.y * (a3.y - a1.y) + b3.y * (a1.y - a2.y);
        let m11 = b1.y * (a3.x - a2.x) + b2.y * (a1.x - a3.x) + b3.y * (a2.x - a1.x);
        let t1 = b1.y * (a2.x * a3.y - a3.x * a2.y) + b2.y * (a3.x * a1.y - a1.x * a3.y)
            + b3.y * (a1.x * a2.y - a2.x * a1.y);
        if det < 0 {
            Some(Transformation {
                m00: -m00 as i128, m01: -m01 as i128, m10: -m10 as i128, m11: -m11 as i128,
                t0: -t0 as i128, t1: -t1 as i128,
                den: -det as i128,
            })
        } else {
            Some(Transformation {
                m00: m00 as i128, m01: m01 as i128, m10: m10 as i128, m11: m11 as i128,
                t0: t0 as i128, t1: t1 as i128,
                den: det as i128,
            })
        }
    }
}

/// The affine map sending the source triangle `a1 a2 a3` to the target
/// triangle `b1 b2 b3`, or `None` when the source triangle is degenerate.
/// A returned transformation maps each source corner exactly onto the
/// corresponding target corner.
pub fn affine_transformation(
    a1: Point, a2: Point, a3: Point,
    b1: Point, b2: Point, b3: Point,
) -> (res: Option<Transformation>)
    requires
        a1.in_range(), a2.in_range(), a3.in_range(),
        b1.in_range(), b2.in_range(), b3.in_range(),
    ensures
        res is Some <==> !collinear(a1, a2, a3),
        res == affine_spec(a1, a2, a3, b1, b2, b3),
        res matches Some(t) ==> {
            &&& t.wf()
            &&& t.apply_spec(a1) == b1
            &&& t.apply_spec(a2) == b2
            &&& t.apply_spec(a3) == b3
        },
{
    let a1x: i128 = a1.x as i128;
    let a1y: i128 = a1.y as i128;
    let a2x: i128 = a2.x as i128;
    let a2y: i128 = a2.y as i128;
    let a3x: i128 = a3.x as i128;
    let a3y: i128 = a3.y as i128;
    assert({
        &&& -0x1000000000000 <= a2x * a3y <= 0x1000000000000
        &&& -0x1000000000000 <= a3x * a2y <= 0x1000000000000
        &&& -0x1000000000000 <= a3x * a1y <= 0x1000000000000
        &&& -0x1000000000000 <= a1x * a3y <= 0x1000000000000
        &&& -0x1000000000000 <= a1x * a2y <= 0x1000000000000
        &&& -0x1000000000000 <= a2x * a1y <= 0x1000000000000
        &&& -0x2000000000000 <= a1x * (a2y - a3y) <= 0x2000000000000
        &&& -0x2000000000000 <= a2x * (a1y - a3y) <= 0x2000000000000
        &&& -0x2000000000000 <= a3x * (a1y - a2y) <= 0x2000000000000
    }) by (nonlinear_arith)
        requires
            0 <= a1x < 0x1000000 && 0 <= a1y < 0x1000000,
            0 <= a2x < 0x1000000 && 0 <= a2y < 0x1000000,
            0 <= a3x < 0x1000000 && 0 <= a3y < 0x1000000;
    let det: i128 = a1x * (a2y - a3y) - a2x * (a1y - a3y) + a3x * (a1y - a2y);
    if det == 0 {
        assert(collinear(a1, a2, a3)) by (nonlinear_arith)
            requires
                a1x * (a2y - a3y) - a2x * (a1y - a3y) + a3x * (a1y - a2y) == 0,
                a1x == a1.x && a1y == a1.y,
                a2x == a2.x && a2y == a2.y,
                a3x == a3.x && a3y == a3.y;
        return None;
    }
    assert(!collinear(a1, a2, a3)) by (nonlinear_arith)
        requires
            a1x * (a2y - a3y) - a2x * (a1y - a3y) + a3x * (a1y - a2y) != 0,
            a1x == a1.x && a1y == a1.y,
            a2x == a2.x && a2y == a2.y,
            a3x == a3.x && a3y == a3.y;
    let b1x: i128 = b1.x as i128;
    let b1y: i128 = b1.y as i128;
    let b2x: i128 = b2.x as i128;
    let b2y: i128 = b2.y as i128;
    let b3x: i128 = b3.x as i128;
    let b3y: i128 = b3.y as i128;
    let c1: i128 = a2y - a3y;
    let c2: i128 = a3y - a1y;
    let c3: i128 = a1y - a2y;
    let d1: i128 = a3x - a2x;
    let d2: i128 = a1x - a3x;
    let d3: i128 = a2x - a1x;
    let e1: i128 = a2x * a3y - a3x * a2y;
    let e2: i128 = a3x * a1y - a1x * a3y;
    let e3: i128 = a1x * a2y - a2x * a1y;
    assert({
        &&& -0x2000000000000000000 <= b1x * e1 <= 0x2000000000000000000
        &&& -0x2000000000000000000 <= b2x * e2 <= 0x2000000000000000000
        &&& -0x2000000000000000000 <= b3x * e3 <= 0x2000000000000000000
        &&& -0x2000000000000000000 <= b1y * e1 <= 0x2000000000000000000
        &&& -0x2000000000000000000 <= b2y * e2 <= 0x2000000000000000000
        &&& -0x2000000000000000000 <= b3y * e3 <= 0x2000000000000000000
        &&& -0x2000000000000 <= b1x * c1 <= 0x2000000000000
        &&& -0x2000000000000 <= b2x * c2 <= 0x2000000000000
        &&& -0x2000000000000 <= b3x * c3 <= 0x2000000000000
        &&& -0x2000000000000 <= b1x * d1 <= 0x2000000000000
        &&& -0x2000000000000 <= b2x * d2 <= 0x2000000000000
        &&& -0x2000000000000 <= b3x * d3 <= 0x2000000000000
        &&& -0x2000000000000 <= b1y * c1 <= 0x2000000000000
        &&& -0x2000000000000 <= b2y * c2 <= 0x2000000000000
        &&& -0x2000000000000 <= b3y * c3 <= 0x2000000000000
        &&& -0x2000000000000 <= b1y * d1 <= 0x2000000000000
        &&& -0x2000000000000 <= b2y * d2 <= 0x2000000000000
        &&& -0x2000000000000 <= b3y * d3 <= 0x2000000000000
    }) by (nonlinear_arith)
        requires
            0 <= b1x < 0x1000000 && 0 <= b1y < 0x1000000,
            0 <= b2x < 0x1000000 && 0 <= b2y < 0x1000000,
            0 <= b3x < 0x1000000 && 0 <= b3y < 0x1000000,
            -0x1000000 <= c1 <= 0x1000000,
            -0x1000000 <= c2 <= 0x1000000,
            -0x1000000 <= c3 <= 0x1000000,
            -0x1000000 <= d1 <= 0x1000000,
            -0x1000000 <= d2 <= 0x1000000,
            -0x1000000 <= d3 <= 0x1000000,
            -0x2000000000000 <= e1 <= 0x2000000000000,
            -0x2000000000000 <= e2 <= 0x2000000000000,
            -0x2000000000000 <= e3 <= 0x2000000000000;
    let m00: i128 = b1x * c1 + b2x * c2 + b3x * c3;
    let m01: i128 = b1x * d1 + b2x * d2 + b3x * d3;
    let t0: i128 = b1x * e1 + b2x * e2 + b3x * e3;
    let m10: i128 = b1y * c1 + b2y * c2 + b3y * c3;
    let m11: i128 = b1y * d1 + b2y * d2 + b3y * d3;
    let t1: i128 = b1y * e1 + b2y * e2 + b3y * e3;
    proof {
        lemma_affine_maps(
            a1x as int, a1y as int, a2x as int, a2y as int, a3x as int, a3y as int,
            b1x as int, b2x as int, b3x as int,
            det as int, m00 as int, m01 as int, t0 as int);
        lemma_affine_maps(
            a1x as int, a1y as int, a2x as int, a2y as int, a3x as int, a3y as int,
            b1y as int, b2y as int, b3y as int,
            det as int, m10 as int, m11 as int, t1 as int);
    }
    let trafo = if det < 0 {
        Transformation {
            m00: -m00, m01: -m01, m10: -m10, m11: -m11,
            t0: -t0, t1: -t1,
            den: -det,
        }
    } else {
        Transformation {
            m00, m01, m10, m11,
            t0, t1,
            den: det,
        }
    };
    proof {
        let dn = trafo.den as int;
        assert(trafo.num_x(a1) == dn * b1.x && trafo.num_y(a1) == dn * b1.y
            && trafo.num_x(a2) == dn * b2.x && trafo.num_y(a2) == dn * b2.y
            && trafo.num_x(a3) == dn * b3.x && trafo.num_y(a3) == dn * b3.y) by {
            if det < 0 {
                lemma_neg_row(m00 as int, m01 as int, t0 as int,
                    a1x as int, a1y as int, det as int, b1x as int);
                lemma_neg_row(m10 as int, m11 as int, t1 as int,
                    a1x as int, a1y as int, det as int, b1y as int);
                lemma_neg_row(m00 as int, m01 as int, t0 as int,
                    a2x as int, a2y as int, det as int, b2x as int);
                lemma_neg_row(m10 as int, m11 as int, t1 as int,
                    a2x as int, a2y as int, det as int, b2y as int);
                lemma_neg_row(m00 as int, m01 as int, t0 as int,
                    a3x as int, a3y as int, det as int, b3x as int);
                lemma_neg_row(m10 as int, m11 as int, t1 as int,
                    a3x as int, a3y as int, det as int, b3y as int);
            }
        }
        lemma_round_coord_exact(trafo.num_x(a1), dn, b1.x as int);
        lemma_round_coord_exact(trafo.num_y(a1), dn, b1.y as int);
        lemma_round_coord_exact(trafo.num_x(a2), dn, b2.x as int);
        lemma_round_coord_exact(trafo.num_y(a2), dn, b2.y as int);
        lemma_round_coord_exact(trafo.num_x(a3), dn, b3.x as int);
        lemma_round_coord_exact(trafo.num_y(a3), dn, b3.y as int);
    }
    Some(trafo)
}

/// The rounded quotient is within half a denominator of the exact one:
/// whenever no clamping takes place, `round_coord(n, d)` differs from the
/// exact rational `n / d` by at most one half.
pub proof fn lemma_round_coord_close(n: int, d: int)
    requires
        d > 0,
        0 <= round_div(n, d) < COORD_LIMIT,
    ensures
        -d <= 2 * (n - round_coord(n, d) * d) < d,
{
    let q = round_div(n, d);
    vstd::arithmetic::div_mod::lemma_fundamental_div_mod(2 * n + d, 2 * d);
    vstd::arithmetic::div_mod::lemma_mod_bound(2 * n + d, 2 * d);
    assert(2 * n + d == (2 * d) * q + (2 * n + d) % (2 * d));
    assert(-d <= 2 * (n - q * d) < d) by (nonlinear_arith)
        requires
            d > 0,
            2 * n + d == (2 * d) * q + (2 * n + d) % (2 * d),
            0 <= (2 * n + d) % (2 * d) < 2 * d;
}

/// Sign-normalized circumcenter denominator (always non-negative).
pub open spec fn cc_den_n(a: Point, b: Point, c: Point) -> int {
    if cc_den(a, b, c) < 0 { -cc_den(a, b, c) } else { cc_den(a, b, c) }
}

/// Sign-normalized circumcenter x numerator.
pub open spec fn cc_num_x_n(a: Point, b: Point, c: Point) -> int {
    if cc_den(a, b, c) < 0 { -cc_num_x(a, b, c) } else { cc_num_x(a, b, c) }
}

/// Sign-normalized circumcenter y numerator.
pub open spec fn cc_num_y_n(a: Point, b: Point, c: Point) -> int {
    if cc_den(a, b, c) < 0 { -cc_num_y(a, b, c) } else { cc_num_y(a, b, c) }
}

/// The circle through three points as a specification value: the rounded
/// center and the rounded distance from the center to the first point, or
/// `None` for collinear points.
pub open spec fn circle_spec(p1: Point, p2: Point, p3: Point) -> Option<(Point, int)> {
    if collinear(p1, p2, p3) {
        None
    } else {
        let c = Point {
            x: round_coord(cc_num_x_n(p1, p2, p3), cc_den_n(p1, p2, p3)) as u32,
            y: round_coord(cc_num_y_n(p1, p2, p3), cc_den_n(p1, p2, p3)) as u32,
        };
        Some((c, rounded_sqrt(sq_dist(c, p1))))
    }
}

/// The center [`find_circle`] returns is within rounding tolerance of the
/// exact circumcenter: whenever the exact center lies inside the coordinate
/// range, each rounded coordinate is within half a pixel of the exact
/// rational one (stated scaled by the positive denominator), and the exact
/// point is equidistant from all three inputs.
pub proof fn lemma_circle_center_close(p1: Point, p2: Point, p3: Point)
    requires
        !collinear(p1, p2, p3),
        0 <= round_div(cc_num_x_n(p1, p2, p3), cc_den_n(p1, p2, p3)) < COORD_LIMIT,
        0 <= round_div(cc_num_y_n(p1, p2, p3), cc_den_n(p1, p2, p3)) < COORD_LIMIT,
    ensures
        -cc_den_n(p1, p2, p3) <= 2 * (cc_num_x_n(p1, p2, p3)
            - round_coord(cc_num_x_n(p1, p2, p3), cc_den_n(p1, p2, p3))
                * cc_den_n(p1, p2, p3)) < cc_den_n(p1, p2, p3),
        -cc_den_n(p1, p2, p3) <= 2 * (cc_num_y_n(p1, p2, p3)
            - round_coord(cc_num_y_n(p1, p2, p3), cc_den_n(p1, p2, p3))
                * cc_den_n(p1, p2, p3)) < cc_den_n(p1, p2, p3),
        scaled_sq_dist(cc_num_x_n(p1, p2, p3), cc_num_y_n(p1, p2, p3),
            cc_den_n(p1, p2, p3), p1)
            == scaled_sq_dist(cc_num_x_n(p1, p2, p3), cc_num_y_n(p1, p2, p3),
                cc_den_n(p1, p2, p3), p2),
        scaled_sq_dist(cc_num_x_n(p1, p2, p3), cc_num_y_n(p1, p2, p3),
            cc_den_n(p1, p2, p3), p1)
            == scaled_sq_dist(cc_num_x_n(p1, p2, p3), cc_num_y_n(p1, p2, p3),
                cc_den_n(p1, p2, p3), p3),
{
    let den = cc_den_n(p1, p2, p3);
    assert(cc_den(p1, p2, p3) != 0) by (nonlinear_arith)
        requires !((p2.x - p1.x) * (p3.y - p1.y) == (p2.y - p1.y) * (p3.x - p1.x));
    assert(den > 0);
    lemma_round_coord_close(cc_num_x_n(p1, p2, p3), den);
    lemma_round_coord_close(cc_num_y_n(p1, p2, p3), den);
    lemma_circumcenter_equidistant(p1, p2, p3);
    if cc_den(p1, p2, p3) < 0 {
        lemma_scaled_sq_dist_neg(cc_num_x(p1, p2, p3), cc_num_y(p1, p2, p3),
            cc_den(p1, p2, p3), p1);
        lemma_scaled_sq_dist_neg(cc_num_x(p1, p2, p3), cc_num_y(p1, p2, p3),
            cc_den(p1, p2, p3), p2);
        lemma_scaled_sq_dist_neg(cc_num_x(p1, p2, p3), cc_num_y(p1, p2, p3),
            cc_den(p1, p2, p3), p3);
    }
}

/// Negating numerators and denominator together leaves a scaled squared
/// distance unchanged.
proof fn lemma_scaled_sq_dist_neg(nx: int, ny: int, den: int, p: Point)
    ensures
        scaled_sq_dist(-nx, -ny, -den, p) == scaled_sq_dist(nx, ny, den, p),
{
    assert((-nx - p.x * -den) * (-nx - p.x * -den) == (nx - p.x * den) * (nx - p.x * den))
        by (nonlinear_arith);
    assert((-ny - p.y * -den) * (-ny - p.y * -den) == (ny - p.y * den) * (ny - p.y * den))
        by (nonlinear_arith);
}

/// Center of the circle through three points, rounded to the nearest pixel,
/// together with the rounded distance from that center to `p1`; `None`
/// exactly when the points are collinear.
pub fn find_circle(p1: Point, p2: Point, p3: Point) -> (res: Option<(Point, u32)>)
    requires
        p1.in_range(),
        p2.in_range(),
        p3.in_range(),
    ensures
        res is Some <==> !collinear(p1, p2, p3),
        res matches Some((center, radius)) ==> {
            &&& center.x == round_coord(cc_num_x_n(p1, p2, p3), cc_den_n(p1, p2, p3))
            &&& center.y == round_coord(cc_num_y_n(p1, p2, p3), cc_den_n(p1, p2, p3))
            &&& center.in_range()
            &&& is_rounded_sqrt(radius as int, sq_dist(center, p1))
            &&& circle_spec(p1, p2, p3) == Some((center, radius as int))
        },
{
    let ax: i128 = p1.x as i128;
    let ay: i128 = p1.y as i128;
    let bx: i128 = p2.x as i128;
    let by: i128 = p2.y as i128;
    let cx: i128 = p3.x as i128;
    let cy: i128 = p3.y as i128;
    let e11: i128 = 2 * (bx - ax);
    let e12: i128 = 2 * (by - ay);
    let e21: i128 = 2 * (cx - ax);
    let e22: i128 = 2 * (cy - ay);
    assert({
        &&& -0x20000000000000 <= e11 * e22 <= 0x20000000000000
        &&& -0x20000000000000 <= e12 * e21 <= 0x20000000000000
        &&& 0 <= ax * ax < 0x1000000000000
        &&& 0 <= ay * ay < 0x1000000000000
        &&& 0 <= bx * bx < 0x1000000000000
        &&& 0 <= by * by < 0x1000000000000
        &&& 0 <= cx * cx < 0x1000000000000
        &&& 0 <= cy * cy < 0x1000000000000
    }) by (nonlinear_arith)
        requires
            -0x2000000 <= e11 <= 0x2000000,
            -0x2000000 <= e12 <= 0x2000000,
            -0x2000000 <= e21 <= 0x2000000,
            -0x2000000 <= e22 <= 0x2000000,
            0 <= ax < 0x1000000,
            0 <= ay < 0x1000000,
            0 <= bx < 0x1000000,
            0 <= by < 0x1000000,
            0 <= cx < 0x1000000,
            0 <= cy < 0x1000000;
    let den: i128 = e11 * e22 - e12 * e21;
    if den == 0 {
        assert(collinear(p1, p2, p3)) by (nonlinear_arith)
            requires
                e11 * e22 - e12 * e21 == 0,
                e11 == 2 * (p2.x - p1.x),
                e12 == 2 * (p2.y - p1.y),
                e21 == 2 * (p3.x - p1.x),
                e22 == 2 * (p3.y - p1.y);
        return None;
    }
    assert(!collinear(p1, p2, p3)) by (nonlinear_arith)
        requires
            e11 * e22 - e12 * e21 != 0,
            e11 == 2 * (p2.x - p1.x),
            e12 == 2 * (p2.y - p1.y),
            e21 == 2 * (p3.x - p1.x),
            e22 == 2 * (p3.y - p1.y);
    let r1: i128 = bx * bx - ax * ax + by * by - ay * ay;
    let r2: i128 = cx * cx - ax * ax + cy * cy - ay * ay;
    assert({
        &&& -0x100000000000000000000 <= r1 * e22 <= 0x100000000000000000000
        &&& -0x100000000000000000000 <= r2 * e12 <= 0x100000000000000000000
        &&& -0x100000000000000000000 <= r1 * e21 <= 0x100000000000000000000
        &&& -0x100000000000000000000 <= r2 * e11 <= 0x100000000000000000000
        &&& -0x100000000000000000000 <= e21 * r1 <= 0x100000000000000000000
        &&& -0x100000000000000000000 <= e11 * r2 <= 0x100000000000000000000
    }) by (nonlinear_arith)
        requires
            -0x2000000000000 <= r1 <= 0x2000000000000,
            -0x2000000000000 <= r2 <= 0x2000000000000,
            -0x2000000 <= e11 <= 0x2000000,
            -0x2000000 <= e12 <= 0x2000000,
            -0x2000000 <= e21 <= 0x2000000,
            -0x2000000 <= e22 <= 0x2000000;
    let nx: i128 = r1 * e22 - r2 * e12;
    let ny: i128 = e11 * r2 - e21 * r1;
    let (nx, ny, den): (i128, i128, i128) = if den < 0 {
        (-nx, -ny, -den)
    } else {
        (nx, ny, den)
    };
    let center = Point {
        x: round_to_coord(nx, den),
        y: round_to_coord(ny, den),
    };
    let radius: u32 = center.distance(p1);
    Some((center, radius))
}

impl Point {
    /// Both coordinates lie below [`COORD_LIMIT`].
    pub open spec fn in_range(self) -> bool {
        self.x < COORD_LIMIT && self.y < COORD_LIMIT
    }

    /// Euclidean distance to `other`, rounded to the nearest pixel.
    pub fn distance(self, other: Point) -> (r: u32)
        requires
            self.in_range(),
            other.in_range(),
        ensures
            r == rounded_sqrt(sq_dist(self, other)),
            is_rounded_sqrt(r as int, sq_dist(self, other)),
            r <= 0x2000001,
    {
        let dx: i64 = self.x as i64 - other.x as i64;
        let dy: i64 = self.y as i64 - other.y as i64;
        assert(0 <= dx * dx < 0x1000000000000 && 0 <= dy * dy < 0x1000000000000)
            by (nonlinear_arith)
            requires -0x1000000 < dx < 0x1000000 && -0x1000000 < dy < 0x1000000;
        let d: u64 = (dx * dx) as u64 + (dy * dy) as u64;
        assert(d == sq_dist(self, other));
        let s: u64 = isqrt(d);
        assert(0 <= s * s <= 0x4000000000000) by (nonlinear_arith)
            requires 0 <= s <= 0x2000000;
        // round to nearest: go up exactly when 4d reaches (2s + 1)^2
        if 4 * d >= 4 * (s * s) + 4 * s + 1 {
            assert(is_rounded_sqrt(s as int + 1, d as int)) by (nonlinear_arith)
                requires
                    sq(s as int) <= d < sq(s as int + 1),
                    4 * d >= 4 * (s * s) + 4 * s + 1,
                    0 <= s <= 0x2000000;
            proof {
                lemma_rounded_sqrt(d as int);
                lemma_rounded_sqrt_unique(s as int + 1, rounded_sqrt(d as int), d as int);
            }
            (s + 1) as u32
        } else {
            assert(is_rounded_sqrt(s as int, d as int)) by (nonlinear_arith)
                requires
                    sq(s as int) <= d < sq(s as int + 1),
                    !(4 * d >= 4 * (s * s) + 4 * s + 1),
                    0 <= s <= 0x2000000;
            proof {
                lemma_rounded_sqrt(d as int);
                lemma_rounded_sqrt_unique(s as int, rounded_sqrt(d as int), d as int);
            }
            s as u32
        }
    }
}

} // verus!
