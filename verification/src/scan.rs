//! One binarized page and the search for its registration marks.
//!
//! The scan measures ink fractions inside elliptic regions, walks rays to
//! find the inner boundary of a registration ring, fits a circle through the
//! boundary points and validates the candidate.  Every routine is a pure
//! function of the bitmap, specified by an executable-mirroring model, so
//! locating runs are reproducible.

use vstd::prelude::*;
use crate::bitmap::Bitmap;
use crate::frac::Frac;
use crate::point::Point;
use crate::point::sq;
use crate::point::find_circle;
use crate::point::sq_dist;

verus! {

/// Exclusive upper bound on the coordinates [`Scan::blackness`] accepts;
/// keeps the exact ellipse test inside `i128`.
pub const PROBE_LIMIT: u32 = 0x8000000;

/// Exclusive upper bound on the radii the locator accepts.
pub const RADIUS_LIMIT: u32 = 0x100000;

/// One binarized page.
#[derive(Debug, Clone)]
pub struct Scan {
    pub image: Bitmap,
}

/// The lattice point `(x, y)` lies inside the ellipse inscribed in the
/// rectangle `[x0, x1] x [y0, y1]`, by the exact cross-multiplied form of
/// `((x - cx) / a)^2 + ((y - cy) / b)^2 <= 1`.
pub open spec fn in_ellipse(x: int, y: int, x0: int, x1: int, y0: int, y1: int) -> bool {
    sq(2 * x - x0 - x1) * sq(y1 - y0) + sq(2 * y - y0 - y1) * sq(x1 - x0)
        <= sq(x1 - x0) * sq(y1 - y0)
}

/// The cell `(x, y)` is sampled by the blackness measurement: inside the
/// ellipse and inside the bitmap frame.
pub open spec fn cell_sampled(b: Bitmap, x0: int, x1: int, y0: int, y1: int, x: int, y: int) -> bool {
    &&& in_ellipse(x, y, x0, x1, y0, y1)
    &&& 0 <= x < b.spec_width()
    &&& 0 <= y < b.spec_height()
}

/// The cell is sampled and carries ink.
pub open spec fn cell_dark(b: Bitmap, x0: int, x1: int, y0: int, y1: int, x: int, y: int) -> bool {
    cell_sampled(b, x0, x1, y0, y1, x, y) && b.ink(x, y)
}

/// Number of sampled cells in column `x`, rows `y0 .. y0 + n`.
pub open spec fn col_sampled(b: Bitmap, x0: int, x1: int, y0: int, y1: int, x: int, n: int) -> int
    decreases n,
{
    if n <= 0 {
        0
    } else {
        col_sampled(b, x0, x1, y0, y1, x, n - 1)
            + if cell_sampled(b, x0, x1, y0, y1, x, y0 + n - 1) { 1int } else { 0int }
    }
}

/// Number of dark cells in column `x`, rows `y0 .. y0 + n`.
pub open spec fn col_dark(b: Bitmap, x0: int, x1: int, y0: int, y1: int, x: int, n: int) -> int
    decreases n,
{
    if n <= 0 {
        0
    } else {
        col_dark(b, x0, x1, y0, y1, x, n - 1)
            + if cell_dark(b, x0, x1, y0, y1, x, y0 + n - 1) { 1int } else { 0int }
    }
}

/// Number of sampled cells in columns `x0 .. x0 + m`, all rows `y0 .. y1`.
pub open spec fn rect_sampled(b: Bitmap, x0: int, x1: int, y0: int, y1: int, m: int) -> int
    decreases m,
{
    if m <= 0 {
        0
    } else {
        rect_sampled(b, x0, x1, y0, y1, m - 1)
            + col_sampled(b, x0, x1, y0, y1, x0 + m - 1, y1 - y0)
    }
}

/// Number of dark cells in columns `x0 .. x0 + m`, all rows `y0 .. y1`.
pub open spec fn rect_dark(b: Bitmap, x0: int, x1: int, y0: int, y1: int, m: int) -> int
    decreases m,
{
    if m <= 0 {
        0
    } else {
        rect_dark(b, x0, x1, y0, y1, m - 1)
            + col_dark(b, x0, x1, y0, y1, x0 + m - 1, y1 - y0)
    }
}

/// Column counts are ordered and at most `n`.
proof fn lemma_col_bounds(b: Bitmap, x0: int, x1: int, y0: int, y1: int, x: int, n: int)
    requires
        n >= 0,
    ensures
        0 <= col_dark(b, x0, x1, y0, y1, x, n)
            <= col_sampled(b, x0, x1, y0, y1, x, n) <= n,
    decreases n,
{
    if n > 0 {
        lemma_col_bounds(b, x0, x1, y0, y1, x, n - 1);
    }
}

/// A column left of the frame or right of it samples nothing.
proof fn lemma_col_out_of_frame(b: Bitmap, x0: int, x1: int, y0: int, y1: int, x: int, n: int)
    requires
        n >= 0,
        x >= b.spec_width() || x < 0,
    ensures
        col_sampled(b, x0, x1, y0, y1, x, n) == 0,
    decreases n,
{
    if n > 0 {
        lemma_col_out_of_frame(b, x0, x1, y0, y1, x, n - 1);
    }
}

/// A column samples at most the rows of the frame it meets.
proof fn lemma_col_le_height(b: Bitmap, x0: int, x1: int, y0: int, y1: int, x: int, n: int)
    requires
        n >= 0,
        y0 >= 0,
    ensures
        col_sampled(b, x0, x1, y0, y1, x, n)
            <= if y0 + n <= b.spec_height() { n } else if b.spec_height() - y0 >= 0 {
                b.spec_height() - y0 } else { 0 },
    decreases n,
{
    if n > 0 {
        lemma_col_le_height(b, x0, x1, y0, y1, x, n - 1);
    }
}

/// Rectangle counts are ordered and at most the rectangle's area.
proof fn lemma_rect_bounds(b: Bitmap, x0: int, x1: int, y0: int, y1: int, m: int)
    requires
        m >= 0,
        y1 - y0 >= 0,
    ensures
        0 <= rect_dark(b, x0, x1, y0, y1, m)
            <= rect_sampled(b, x0, x1, y0, y1, m) <= m * (y1 - y0),
    decreases m,
{
    if m > 0 {
        lemma_rect_bounds(b, x0, x1, y0, y1, m - 1);
        lemma_col_bounds(b, x0, x1, y0, y1, x0 + m - 1, y1 - y0);
        assert(m * (y1 - y0) == (m - 1) * (y1 - y0) + (y1 - y0)) by (nonlinear_arith);
    }
}

/// The whole rectangle samples at most one frame's worth of cells.
proof fn lemma_rect_le_area(b: Bitmap, x0: int, x1: int, y0: int, y1: int, m: int)
    requires
        m >= 0,
        x0 >= 0,
        y0 >= 0,
    ensures
        rect_sampled(b, x0, x1, y0, y1, m) <= b.spec_width() * b.spec_height(),
    decreases m,
{
    let w = b.spec_width();
    let h = b.spec_height();
    lemma_rect_le_cols(b, x0, x1, y0, y1, m);
    let cols = if x0 + m <= w { m } else if w - x0 >= 0 { w - x0 } else { 0 };
    assert(cols * h <= w * h) by (nonlinear_arith)
        requires 0 <= cols <= w && h >= 0;
}

/// The rectangle samples at most `h` cells for every frame column it meets.
proof fn lemma_rect_le_cols(b: Bitmap, x0: int, x1: int, y0: int, y1: int, m: int)
    requires
        m >= 0,
        x0 >= 0,
        y0 >= 0,
    ensures
        rect_sampled(b, x0, x1, y0, y1, m)
            <= (if x0 + m <= b.spec_width() { m } else if b.spec_width() - x0 >= 0 {
                b.spec_width() - x0 } else { 0 }) * b.spec_height(),
    decreases m,
{
    let w = b.spec_width();
    let h = b.spec_height();
    if m > 0 {
        lemma_rect_le_cols(b, x0, x1, y0, y1, m - 1);
        let prev = if x0 + m - 1 <= w { m - 1 } else if w - x0 >= 0 { w - x0 } else { 0 };
        let cur = if x0 + m <= w { m } else if w - x0 >= 0 { w - x0 } else { 0 };
        if x0 + m - 1 < w {
            // the new column may contribute up to h cells
            if y1 - y0 >= 0 {
                lemma_col_le_height(b, x0, x1, y0, y1, x0 + m - 1, y1 - y0);
                lemma_col_bounds(b, x0, x1, y0, y1, x0 + m - 1, y1 - y0);
                assert(col_sampled(b, x0, x1, y0, y1, x0 + m - 1, y1 - y0) <= h);
            } else {
                assert(col_sampled(b, x0, x1, y0, y1, x0 + m - 1, y1 - y0) == 0);
            }
            assert(cur == prev + 1);
            assert(cur * h == prev * h + h) by (nonlinear_arith)
                requires cur == prev + 1;
        } else {
            if y1 - y0 >= 0 {
                lemma_col_out_of_frame(b, x0, x1, y0, y1, x0 + m - 1, y1 - y0);
            }
            assert(col_sampled(b, x0, x1, y0, y1, x0 + m - 1, y1 - y0) == 0);
            assert(cur == prev);
        }
    } else {
        let cur = if x0 + m <= w { m } else if w - x0 >= 0 { w - x0 } else { 0 };
        assert(cur * h >= 0) by (nonlinear_arith)
            requires cur >= 0 && h >= 0;
    }
}

/// The exact ink fraction of the elliptic sampling region between the two
/// corner points, as a pair of counts; the zero ratio when no cell at all is
/// sampled.
pub open spec fn blackness_spec(b: Bitmap, p1: Point, p2: Point) -> Frac {
    let x0 = if p1.x <= p2.x { p1.x as int } else { p2.x as int };
    let x1 = if p1.x <= p2.x { p2.x as int } else { p1.x as int };
    let y0 = if p1.y <= p2.y { p1.y as int } else { p2.y as int };
    let y1 = if p1.y <= p2.y { p2.y as int } else { p1.y as int };
    let tot = rect_sampled(b, x0, x1, y0, y1, x1 - x0);
    if tot == 0 {
        Frac { num: 0, den: 1 }
    } else {
        Frac { num: rect_dark(b, x0, x1, y0, y1, x1 - x0) as u64, den: tot as u64 }
    }
}

/// A blackness measurement is a genuine fraction: the ink count never
/// exceeds the sampled count, so the ratio always lies in `[0, 1]`.
pub proof fn lemma_blackness_unit(b: Bitmap, p1: Point, p2: Point)
    ensures
        0 <= blackness_spec(b, p1, p2).num <= blackness_spec(b, p1, p2).den,
{
    let x0 = if p1.x <= p2.x { p1.x as int } else { p2.x as int };
    let x1 = if p1.x <= p2.x { p2.x as int } else { p1.x as int };
    let y0 = if p1.y <= p2.y { p1.y as int } else { p2.y as int };
    let y1 = if p1.y <= p2.y { p2.y as int } else { p1.y as int };
    lemma_rect_bounds(b, x0, x1, y0, y1, x1 - x0);
    assert((x1 - x0) * (y1 - y0) < 0x10000000000000000) by (nonlinear_arith)
        requires 0 <= x1 - x0 < 0x100000000 && 0 <= y1 - y0 < 0x100000000;
}

impl Scan {
    /// The page's bitmap is well formed.
    pub open spec fn wf(self) -> bool {
        self.image.wf()
    }

    /// Fraction of ink pixels inside the ellipse inscribed in the rectangle
    /// spanned by the two corner points (restricting the sample to the
    /// inscribed ellipse keeps a bubble's printed rectangular outline out of
    /// the measurement).  The fraction is exact, always in `[0, 1]`, and
    /// zero for an empty or fully off-frame region.
    pub fn blackness(&self, p1: Point, p2: Point) -> (r: Frac)
        requires
            self.wf(),
            p1.x < PROBE_LIMIT && p1.y < PROBE_LIMIT,
            p2.x < PROBE_LIMIT && p2.y < PROBE_LIMIT,
        ensures
            r.wf(),
            r == blackness_spec(self.image, p1, p2),
    {
        let x0: u32 = if p1.x <= p2.x { p1.x } else { p2.x };
        let x1: u32 = if p1.x <= p2.x { p2.x } else { p1.x };
        let y0: u32 = if p1.y <= p2.y { p1.y } else { p2.y };
        let y1: u32 = if p1.y <= p2.y { p2.y } else { p1.y };
        let w: usize = self.image.width();
        let h: usize = self.image.height();
        let ddx: i128 = (x1 - x0) as i128;
        let ddy: i128 = (y1 - y0) as i128;
        assert(0 <= ddx * ddx < 0x40000000000000 && 0 <= ddy * ddy < 0x40000000000000)
            by (nonlinear_arith)
            requires 0 <= ddx < 0x8000000 && 0 <= ddy < 0x8000000;
        let aa: i128 = ddx * ddx;
        let bb: i128 = ddy * ddy;
        assert(0 <= aa * bb < 0x1000000000000000000000000000) by (nonlinear_arith)
            requires 0 <= aa < 0x40000000000000 && 0 <= bb < 0x40000000000000;
        let cc: i128 = aa * bb;
        let mut total: u64 = 0;
        let mut dark: u64 = 0;
        let mut x: u32 = x0;
        while x < x1
            invariant
                self.wf(),
                x0 <= x <= x1 < PROBE_LIMIT,
                y0 <= y1 < PROBE_LIMIT,
                w == self.image.spec_width(),
                h == self.image.spec_height(),
                aa == sq(x1 - x0),
                bb == sq(y1 - y0),
                cc == sq(x1 - x0) * sq(y1 - y0),
                0 <= aa < 0x40000000000000,
                0 <= bb < 0x40000000000000,
                total == rect_sampled(self.image, x0 as int, x1 as int, y0 as int, y1 as int,
                    x - x0),
                dark == rect_dark(self.image, x0 as int, x1 as int, y0 as int, y1 as int,
                    x - x0),
                0 <= dark <= total <= (x - x0) * (y1 - y0),
            decreases x1 - x,
        {
            let ghost gm = (x - x0) as int;
            let mut y: u32 = y0;
            while y < y1
                invariant
                    self.wf(),
                    x0 <= x < x1 < PROBE_LIMIT,
                    y0 <= y <= y1 < PROBE_LIMIT,
                    w == self.image.spec_width(),
                    h == self.image.spec_height(),
                    aa == sq(x1 - x0),
                    bb == sq(y1 - y0),
                    cc == sq(x1 - x0) * sq(y1 - y0),
                    0 <= aa < 0x40000000000000,
                    0 <= bb < 0x40000000000000,
                    gm == x - x0,
                    total == rect_sampled(self.image, x0 as int, x1 as int, y0 as int,
                        y1 as int, gm)
                        + col_sampled(self.image, x0 as int, x1 as int, y0 as int, y1 as int,
                            x as int, y - y0),
                    dark == rect_dark(self.image, x0 as int, x1 as int, y0 as int,
                        y1 as int, gm)
                        + col_dark(self.image, x0 as int, x1 as int, y0 as int, y1 as int,
                            x as int, y - y0),
                    0 <= dark <= total <= gm * (y1 - y0) + (y - y0),
                decreases y1 - y,
            {
                let u: i128 = 2 * (x as i128) - (x0 as i128) - (x1 as i128);
                let v: i128 = 2 * (y as i128) - (y0 as i128) - (y1 as i128);
                assert({
                    &&& 0 <= u * u < 0x200000000000000
                    &&& 0 <= v * v < 0x200000000000000
                }) by (nonlinear_arith)
                    requires -0x10000000 <= u <= 0x10000000 && -0x10000000 <= v <= 0x10000000;
                assert({
                    &&& 0 <= (u * u) * bb < 0x8000000000000000000000000000
                    &&& 0 <= (v * v) * aa < 0x8000000000000000000000000000
                }) by (nonlinear_arith)
                    requires
                        0 <= u * u < 0x200000000000000,
                        0 <= v * v < 0x200000000000000,
                        0 <= aa < 0x40000000000000,
                        0 <= bb < 0x40000000000000;
                let lhs: i128 = (u * u) * bb + (v * v) * aa;
                let inside: bool = lhs <= cc;
                assert(inside == in_ellipse(x as int, y as int, x0 as int, x1 as int,
                    y0 as int, y1 as int));
                let sampled: bool = inside && (x as usize) < w && (y as usize) < h;
                assert(sampled == cell_sampled(self.image, x0 as int, x1 as int, y0 as int,
                    y1 as int, x as int, y as int));
                if sampled {
                    assert(total < 0x100000000000000) by (nonlinear_arith)
                        requires
                            total <= gm * ((y1 - y0) as int) + (y - y0),
                            0 <= gm < 0x8000000,
                            0 <= y1 - y0 < 0x8000000,
                            0 <= y - y0 < 0x8000000;
                    total = total + 1;
                    if self.image.get(x, y) {
                        dark = dark + 1;
                    }
                }
                proof {
                    assert(col_sampled(self.image, x0 as int, x1 as int, y0 as int, y1 as int,
                        x as int, (y + 1) - y0)
                        == col_sampled(self.image, x0 as int, x1 as int, y0 as int, y1 as int,
                            x as int, y - y0)
                        + if cell_sampled(self.image, x0 as int, x1 as int, y0 as int,
                            y1 as int, x as int, y as int) { 1int } else { 0int });
                    assert(col_dark(self.image, x0 as int, x1 as int, y0 as int, y1 as int,
                        x as int, (y + 1) - y0)
                        == col_dark(self.image, x0 as int, x1 as int, y0 as int, y1 as int,
                            x as int, y - y0)
                        + if cell_dark(self.image, x0 as int, x1 as int, y0 as int,
                            y1 as int, x as int, y as int) { 1int } else { 0int });
                }
                y = y + 1;
            }
            proof {
                assert(rect_sampled(self.image, x0 as int, x1 as int, y0 as int, y1 as int,
                    (x + 1) - x0)
                    == rect_sampled(self.image, x0 as int, x1 as int, y0 as int, y1 as int,
                        x - x0)
                    + col_sampled(self.image, x0 as int, x1 as int, y0 as int, y1 as int,
                        x as int, y1 - y0));
                assert(rect_dark(self.image, x0 as int, x1 as int, y0 as int, y1 as int,
                    (x + 1) - x0)
                    == rect_dark(self.image, x0 as int, x1 as int, y0 as int, y1 as int,
                        x - x0)
                    + col_dark(self.image, x0 as int, x1 as int, y0 as int, y1 as int,
                        x as int, y1 - y0));
                assert(((x + 1) - x0) * (y1 - y0) == (x - x0) * (y1 - y0) + (y1 - y0))
                    by (nonlinear_arith);
            }
            x = x + 1;
        }
        if total == 0 {
            Frac::zero()
        } else {
            proof {
                lemma_rect_le_area(self.image, x0 as int, x1 as int, y0 as int, y1 as int,
                    x1 - x0);
                lemma_rect_bounds(self.image, x0 as int, x1 as int, y0 as int, y1 as int,
                    x1 - x0);
                assert(self.image.spec_width() * self.image.spec_height() < 0x40000000)
                    by (nonlinear_arith)
                    requires
                        0 <= self.image.spec_width() < 0x8000,
                        0 <= self.image.spec_height() < 0x8000;
            }
            Frac { num: dark, den: total }
        }
    }
}


/// Clamp a coordinate difference at zero.
pub open spec fn sat0(v: int) -> int {
    if v < 0 { 0 } else { v }
}

/// The blackness of the square window of half-side `r` around `p`.
pub open spec fn around_spec(b: Bitmap, p: Point, r: int) -> Frac {
    blackness_spec(
        b,
        Point { x: sat0(p.x - r) as u32, y: sat0(p.y - r) as u32 },
        Point { x: (p.x + r) as u32, y: (p.y + r) as u32 },
    )
}

/// One step state of the diagonal boundary walk: starting at distance
/// `dist` from the seed with `run` consecutive ink pixels already seen and
/// `first` the start of the current run, the walk returns the first point
/// of the first run of `need` consecutive ink pixels; a walk that leaves
/// the frame or exhausts its step budget without completing a run fails.
pub open spec fn ray_walk(
    b: Bitmap, cx: int, cy: int, dx: int, dy: int,
    limit: int, need: int, dist: int, run: int, first: Option<Point>,
) -> Option<Point>
    decreases limit + 1 - dist,
{
    if dist > limit {
        None
    } else {
        let x = cx + dx * dist;
        let y = cy + dy * dist;
        if !(0 <= x < b.spec_width() && 0 <= y < b.spec_height()) {
            None
        } else {
            let hit = b.ink(x, y);
            let run2: int = if hit { run + 1 } else { 0 };
            let first2: Option<Point> = if hit {
                if first is Some { first } else { Some(Point { x: x as u32, y: y as u32 }) }
            } else {
                None
            };
            if run2 >= need {
                first2
            } else {
                ray_walk(b, cx, cy, dx, dy, limit, need, dist + 1, run2, first2)
            }
        }
    }
}

/// Every point the walk hands back lies inside the bitmap frame.
proof fn lemma_ray_walk_frame(
    b: Bitmap, cx: int, cy: int, dx: int, dy: int,
    limit: int, need: int, dist: int, run: int, first: Option<Point>,
)
    requires
        first matches Some(p) ==> p.x < b.spec_width() && p.y < b.spec_height(),
    ensures
        ray_walk(b, cx, cy, dx, dy, limit, need, dist, run, first) matches Some(p)
            ==> p.x < b.spec_width() && p.y < b.spec_height(),
    decreases limit + 1 - dist,
{
    if dist <= limit {
        let x = cx + dx * dist;
        let y = cy + dy * dist;
        if 0 <= x < b.spec_width() && 0 <= y < b.spec_height() {
            let hit = b.ink(x, y);
            let run2: int = if hit { run + 1 } else { 0 };
            let first2: Option<Point> = if hit {
                if first is Some { first } else { Some(Point { x: x as u32, y: y as u32 }) }
            } else {
                None
            };
            if !(run2 >= need) {
                lemma_ray_walk_frame(b, cx, cy, dx, dy, limit, need, dist + 1, run2, first2);
            }
        }
    }
}

/// The three boundary points of the registration ring around `c`: walks in
/// the up-left, down-left and down-right diagonal directions, each looking
/// for `need` consecutive ink pixels within `2r + need` steps.
pub open spec fn boundary_spec(b: Bitmap, c: Point, r: int, need: int)
    -> Option<(Point, Point, Point)>
{
    let limit = 2 * r + need;
    match ray_walk(b, c.x as int, c.y as int, -1, -1, limit, need, 1, 0, None) {
        None => None,
        Some(p0) => match ray_walk(b, c.x as int, c.y as int, -1, 1, limit, need, 1, 0, None) {
            None => None,
            Some(p1) => match ray_walk(b, c.x as int, c.y as int, 1, 1, limit, need, 1, 0, None) {
                None => None,
                Some(p2) => Some((p0, p1, p2)),
            },
        },
    }
}

/// One probe of the candidate-center validation: the window of half-side
/// `radius / 5` centered `5/3 * radius` away along the axis direction
/// `(dx, dy)` is at least 60 percent ink (a probe pushed off the page
/// fails).
pub open spec fn probe_ok(b: Bitmap, center: Point, radius: int, dx: int, dy: int) -> bool {
    let off = 5 * radius / 3;
    let x = center.x + dx * off;
    let y = center.y + dy * off;
    &&& x >= 0
    &&& y >= 0
    &&& !crate::frac::frac_lt(
        around_spec(b, Point { x: x as u32, y: y as u32 }, radius / 5), 3, 5)
}

/// The candidate center really sits inside a solid ring: all four axis
/// probes find mostly ink.
pub open spec fn is_circle_center_spec(b: Bitmap, center: Point, radius: int) -> bool {
    &&& probe_ok(b, center, radius, 1, 0)
    &&& probe_ok(b, center, radius, -1, 0)
    &&& probe_ok(b, center, radius, 0, 1)
    &&& probe_ok(b, center, radius, 0, -1)
}

/// First x position on the horizontal edge at height `y` whose window of
/// half-side `rr` is whiter than `cn / cd`.
pub open spec fn scan_horiz_spec(
    b: Bitmap, x: int, x_end: int, y: int, rr: int, cn: int, cd: int,
) -> Option<Point>
    decreases x_end - x,
{
    if x >= x_end {
        None
    } else if crate::frac::frac_lt(around_spec(b, Point { x: x as u32, y: y as u32 }, rr), cn, cd) {
        Some(Point { x: x as u32, y: y as u32 })
    } else {
        scan_horiz_spec(b, x + 1, x_end, y, rr, cn, cd)
    }
}

/// First y position on the vertical edge at `x` whose window of half-side
/// `rr` is whiter than `cn / cd`.
pub open spec fn scan_vert_spec(
    b: Bitmap, y: int, y_end: int, x: int, rr: int, cn: int, cd: int,
) -> Option<Point>
    decreases y_end - y,
{
    if y >= y_end {
        None
    } else if crate::frac::frac_lt(around_spec(b, Point { x: x as u32, y: y as u32 }, rr), cn, cd) {
        Some(Point { x: x as u32, y: y as u32 })
    } else {
        scan_vert_spec(b, y + 1, y_end, x, rr, cn, cd)
    }
}

/// A point option as a sequence of zero or one points.
pub open spec fn opt_seq(o: Option<Point>) -> Seq<Point> {
    match o {
        Some(p) => seq![p],
        None => Seq::empty(),
    }
}

/// The white spots found on the four edges of the box of half-side
/// `4/3 * inner_radius` around `start`, in top, bottom, left, right order:
/// seeds for restarting the boundary walk when the first probe landed on
/// the solid ring instead of its light core.
pub open spec fn white_spots_spec(b: Bitmap, start: Point, inner_radius: int) -> Seq<Point> {
    let tlx = sat0(start.x - 4 * inner_radius / 3);
    let tly = sat0(start.y - 4 * inner_radius / 3);
    let brx = start.x + 4 * inner_radius / 3;
    let bry = start.y + 4 * inner_radius / 3;
    let rr = inner_radius / 10;
    opt_seq(scan_horiz_spec(b, tlx, brx, tly, rr, 1, 100))
        + opt_seq(scan_horiz_spec(b, tlx, brx, bry, rr, 1, 100))
        + opt_seq(scan_vert_spec(b, tly, bry, tlx, rr, 1, 100))
        + opt_seq(scan_vert_spec(b, tly, bry, brx, rr, 1, 10))
}

/// Walk the white-spot seeds in order: the first seed whose boundary walk
/// and circle fit both succeed decides the outcome, and the candidate is
/// accepted only when the ring validation holds.
pub open spec fn spots_result(b: Bitmap, spots: Seq<Point>, r: int, i: int) -> Option<Point>
    decreases spots.len() - i,
{
    if i >= spots.len() || i < 0 {
        None
    } else {
        match boundary_spec(b, spots[i], r, r / 4) {
            Some((q0, q1, q2)) => match crate::point::circle_spec(q0, q1, q2) {
                Some((center, radius)) => if radius < RADIUS_LIMIT
                    && is_circle_center_spec(b, center, radius) {
                    Some(center)
                } else {
                    None
                },
                None => spots_result(b, spots, r, i + 1),
            },
            None => spots_result(b, spots, r, i + 1),
        }
    }
}

/// The full single-seed center search: if the quarter-radius window around
/// the seed is at least 40 percent ink the seed sits on the ring, so the
/// search restarts from the white spots; otherwise the boundary walk starts
/// directly at the seed.
pub open spec fn real_center_spec(b: Bitmap, approx: Point, max_radius: int) -> Option<Point> {
    let a = Point { x: sat0(approx.x - max_radius / 4) as u32, y: sat0(approx.y - max_radius / 4) as u32 };
    let bb = Point { x: (approx.x + max_radius / 4) as u32, y: (approx.y + max_radius / 4) as u32 };
    if !crate::frac::frac_lt(blackness_spec(b, a, bb), 2, 5) {
        spots_result(b, white_spots_spec(b, approx, max_radius), max_radius, 0)
    } else {
        match boundary_spec(b, approx, max_radius, max_radius / 10) {
            Some((q0, q1, q2)) => match crate::point::circle_spec(q0, q1, q2) {
                Some((center, radius)) => if radius < RADIUS_LIMIT
                    && is_circle_center_spec(b, center, radius) {
                    Some(center)
                } else {
                    None
                },
                None => None,
            },
            None => None,
        }
    }
}

/// One vertical retry position of the fuzzy search.
pub open spec fn fuzzy_at(b: Bitmap, approx: Point, max_radius: int, fix: int) -> Option<Point> {
    let y = sat0(approx.y + fix * max_radius);
    real_center_spec(b, Point { x: approx.x, y: y as u32 }, max_radius)
}

/// The fuzzy center search: retry the single-seed search at vertical
/// offsets `0, +r, -r, +2r, -2r` and accept the first success.
pub open spec fn real_center_fuzzy_spec(b: Bitmap, approx: Point, max_radius: int) -> Option<Point> {
    match fuzzy_at(b, approx, max_radius, 0) {
        Some(c) => Some(c),
        None => match fuzzy_at(b, approx, max_radius, 1) {
            Some(c) => Some(c),
            None => match fuzzy_at(b, approx, max_radius, -1) {
                Some(c) => Some(c),
                None => match fuzzy_at(b, approx, max_radius, 2) {
                    Some(c) => Some(c),
                    None => fuzzy_at(b, approx, max_radius, -2),
                },
            },
        },
    }
}


/// The three located ring centers and the measured average ring radius:
/// each seed is located with the fuzzy search at `1.05` times the nominal
/// radius, then each center's ring is walked again and the nine
/// center-to-boundary distances are averaged.
pub open spec fn centers_with_radius_spec(b: Bitmap, c1: Point, c2: Point, c3: Point, approx_radius: int)
    -> Option<(Point, Point, Point, int)>
{
    let mr = crate::point::round_div(21 * approx_radius, 20);
    match real_center_fuzzy_spec(b, c1, mr) {
        None => None,
        Some(r1) => match real_center_fuzzy_spec(b, c2, mr) {
            None => None,
            Some(r2) => match real_center_fuzzy_spec(b, c3, mr) {
                None => None,
                Some(r3) => match boundary_spec(b, r1, mr, 3) {
                    None => None,
                    Some((a0, a1, a2)) => match boundary_spec(b, r2, mr, 3) {
                        None => None,
                        Some((b0, b1, b2)) => match boundary_spec(b, r3, mr, 3) {
                            None => None,
                            Some((d0, d1, d2)) => {
                                let total = crate::point::rounded_sqrt(sq_dist(r1, a0))
                                    + crate::point::rounded_sqrt(sq_dist(r1, a1))
                                    + crate::point::rounded_sqrt(sq_dist(r1, a2))
                                    + crate::point::rounded_sqrt(sq_dist(r2, b0))
                                    + crate::point::rounded_sqrt(sq_dist(r2, b1))
                                    + crate::point::rounded_sqrt(sq_dist(r2, b2))
                                    + crate::point::rounded_sqrt(sq_dist(r3, d0))
                                    + crate::point::rounded_sqrt(sq_dist(r3, d1))
                                    + crate::point::rounded_sqrt(sq_dist(r3, d2));
                                Some((r1, r2, r3, crate::point::round_div(total, 9)))
                            },
                        },
                    },
                },
            },
        },
    }
}

impl Scan {
    /// Blackness of the square window of half-side `r` around `p`.
    pub fn blackness_around(&self, p: Point, r: u32) -> (res: Frac)
        requires
            self.wf(),
            p.x + r < PROBE_LIMIT,
            p.y + r < PROBE_LIMIT,
        ensures
            res.wf(),
            res == around_spec(self.image, p, r as int),
    {
        let p1 = Point {
            x: if p.x >= r { p.x - r } else { 0 },
            y: if p.y >= r { p.y - r } else { 0 },
        };
        let p2 = Point { x: p.x + r, y: p.y + r };
        self.blackness(p1, p2)
    }

    /// Validate a candidate ring center by four axis probes.
    pub fn is_circle_center(&self, center: Point, radius: u32) -> (res: bool)
        requires
            self.wf(),
            center.x < 0x2000000,
            center.y < 0x2000000,
            radius < RADIUS_LIMIT,
        ensures
            res == is_circle_center_spec(self.image, center, radius as int),
    {
        let off: u32 = 5 * radius / 3;
        let rr: u32 = radius / 5;
        let ok_e: bool = self.blackness_around(Point { x: center.x + off, y: center.y }, rr)
            .ge_three_fifths();
        let ok_w: bool = center.x >= off
            && self.blackness_around(Point { x: center.x - off, y: center.y }, rr)
                .ge_three_fifths();
        let ok_s: bool = self.blackness_around(Point { x: center.x, y: center.y + off }, rr)
            .ge_three_fifths();
        let ok_n: bool = center.y >= off
            && self.blackness_around(Point { x: center.x, y: center.y - off }, rr)
                .ge_three_fifths();
        ok_e && ok_w && ok_s && ok_n
    }
}

/// The three boundary points of the ring around `c`; `None` when any of
/// the diagonal walks fails to find `min_count` consecutive ink pixels
/// inside the frame within its step budget.  Every returned point lies
/// inside the bitmap frame.
pub fn find_inner_boundary_points(image: &Bitmap, c: Point, r: u32, min_count: u32)
    -> (res: Option<(Point, Point, Point)>)
    requires
        image.wf(),
        c.x < 0x4000000,
        c.y < 0x4000000,
        r < RADIUS_LIMIT,
        min_count <= RADIUS_LIMIT,
    ensures
        res == boundary_spec(*image, c, r as int, min_count as int),
        res matches Some((p0, p1, p2)) ==> {
            &&& p0.x < image.spec_width() && p0.y < image.spec_height()
            &&& p1.x < image.spec_width() && p1.y < image.spec_height()
            &&& p2.x < image.spec_width() && p2.y < image.spec_height()
        },
{
    let limit: u32 = 2 * r + min_count;
    proof {
        lemma_ray_walk_frame(*image, c.x as int, c.y as int, -1, -1, limit as int,
            min_count as int, 1, 0, None);
        lemma_ray_walk_frame(*image, c.x as int, c.y as int, -1, 1, limit as int,
            min_count as int, 1, 0, None);
        lemma_ray_walk_frame(*image, c.x as int, c.y as int, 1, 1, limit as int,
            min_count as int, 1, 0, None);
    }
    let p0 = ray_walk_exec(image, c.x as i64, c.y as i64, -1, -1, limit, min_count, 1, 0, None);
    let p0 = match p0 {
        Some(p) => p,
        None => { return None; },
    };
    let p1 = ray_walk_exec(image, c.x as i64, c.y as i64, -1, 1, limit, min_count, 1, 0, None);
    let p1 = match p1 {
        Some(p) => p,
        None => { return None; },
    };
    let p2 = ray_walk_exec(image, c.x as i64, c.y as i64, 1, 1, limit, min_count, 1, 0, None);
    let p2 = match p2 {
        Some(p) => p,
        None => { return None; },
    };
    Some((p0, p1, p2))
}

/// One diagonal walk step; mirrors [`ray_walk`] exactly.
fn ray_walk_exec(
    b: &Bitmap, cx: i64, cy: i64, dx: i64, dy: i64,
    limit: u32, need: u32, dist: u32, run: u32, first: Option<Point>,
) -> (res: Option<Point>)
    requires
        b.wf(),
        dx == 1i64 || dx == -1i64,
        dy == 1i64 || dy == -1i64,
        0 <= cx < 0x8000000,
        0 <= cy < 0x8000000,
        limit <= 0x400000,
        need <= 0x400000,
        1 <= dist <= limit + 1,
        run <= 0x400000,
    ensures
        res == ray_walk(*b, cx as int, cy as int, dx as int, dy as int,
            limit as int, need as int, dist as int, run as int, first),
    decreases limit + 1 - dist,
{
    if dist > limit {
        return None;
    }
    let step: i64 = dist as i64;
    let x: i64 = if dx == 1 { cx + step } else { cx - step };
    let y: i64 = if dy == 1 { cy + step } else { cy - step };
    proof {
        assert(dx as int * dist as int == if dx == 1i64 { dist as int } else { -(dist as int) })
            by (nonlinear_arith)
            requires dx == 1i64 || dx == -1i64;
        assert(dy as int * dist as int == if dy == 1i64 { dist as int } else { -(dist as int) })
            by (nonlinear_arith)
            requires dy == 1i64 || dy == -1i64;
    }
    if x < 0 || y < 0 || x >= (b.width() as i64) || y >= (b.height() as i64) {
        return None;
    }
    let hit: bool = b.get(x as u32, y as u32);
    let run2: u32 = if hit { run + 1 } else { 0 };
    let first2: Option<Point> = if hit {
        match first {
            Some(p) => Some(p),
            None => Some(Point { x: x as u32, y: y as u32 }),
        }
    } else {
        None
    };
    if run2 >= need {
        first2
    } else {
        ray_walk_exec(b, cx, cy, dx, dy, limit, need, dist + 1, run2, first2)
    }
}


/// Horizontal edge scan; mirrors [`scan_horiz_spec`].
fn scan_horiz_exec(s: &Scan, x: u32, x_end: u32, y: u32, rr: u32, cn: u64, cd: u64)
    -> (res: Option<Point>)
    requires
        s.wf(),
        x_end < 0x4000000,
        y < 0x4000000,
        rr < RADIUS_LIMIT,
        0 < cn < 0x10000,
        0 < cd < 0x10000,
    ensures
        res == scan_horiz_spec(s.image, x as int, x_end as int, y as int, rr as int,
            cn as int, cd as int),
    decreases x_end - x,
{
    if x >= x_end {
        None
    } else {
        let f = s.blackness_around(Point { x, y }, rr);
        if crate::frac::is_frac_lt(f, cn, cd) {
            Some(Point { x, y })
        } else {
            scan_horiz_exec(s, x + 1, x_end, y, rr, cn, cd)
        }
    }
}

/// Vertical edge scan; mirrors [`scan_vert_spec`].
fn scan_vert_exec(s: &Scan, y: u32, y_end: u32, x: u32, rr: u32, cn: u64, cd: u64)
    -> (res: Option<Point>)
    requires
        s.wf(),
        y_end < 0x4000000,
        x < 0x4000000,
        rr < RADIUS_LIMIT,
        0 < cn < 0x10000,
        0 < cd < 0x10000,
    ensures
        res == scan_vert_spec(s.image, y as int, y_end as int, x as int, rr as int,
            cn as int, cd as int),
    decreases y_end - y,
{
    if y >= y_end {
        None
    } else {
        let f = s.blackness_around(Point { x, y }, rr);
        if crate::frac::is_frac_lt(f, cn, cd) {
            Some(Point { x, y })
        } else {
            scan_vert_exec(s, y + 1, y_end, x, rr, cn, cd)
        }
    }
}

impl Scan {
    /// Scan the four edges of the box around `start` for white spots; the
    /// results come in top, bottom, left, right order.
    #[verifier::rlimit(50)]
    #[verifier::spinoff_prover]
    pub fn find_white_spot_from_annulus(&self, start: Point, inner_radius: u32)
        -> (res: Vec<Point>)
        requires
            self.wf(),
            start.x < 0x2000000,
            start.y < 0x2000000,
            inner_radius < RADIUS_LIMIT,
        ensures
            res@ == white_spots_spec(self.image, start, inner_radius as int),
            forall|i: int| 0 <= i < res@.len() ==>
                (#[trigger] res@[i]).x < 0x4000000 && res@[i].y < 0x4000000,
    {
        let reach: u32 = 4 * inner_radius / 3;
        let tlx: u32 = if start.x >= reach { start.x - reach } else { 0 };
        let tly: u32 = if start.y >= reach { start.y - reach } else { 0 };
        let brx: u32 = start.x + reach;
        let bry: u32 = start.y + reach;
        let rr: u32 = inner_radius / 10;
        let mut res: Vec<Point> = Vec::new();
        let top = scan_horiz_exec(self, tlx, brx, tly, rr, 1, 100);
        if let Some(p) = top {
            res.push(p);
        }
        let bottom = scan_horiz_exec(self, tlx, brx, bry, rr, 1, 100);
        if let Some(p) = bottom {
            res.push(p);
        }
        let left = scan_vert_exec(self, tly, bry, tlx, rr, 1, 100);
        if let Some(p) = left {
            res.push(p);
        }
        let right = scan_vert_exec(self, tly, bry, brx, rr, 1, 10);
        if let Some(p) = right {
            res.push(p);
        }
        proof {
            assert(res@ =~= opt_seq(top) + opt_seq(bottom) + opt_seq(left) + opt_seq(right));
            assert forall|i: int| 0 <= i < res@.len() implies
                (#[trigger] res@[i]).x < 0x4000000 && res@[i].y < 0x4000000 by {
                lemma_scan_horiz_range(self.image, tlx as int, brx as int, tly as int,
                    rr as int, 1, 100);
                lemma_scan_horiz_range(self.image, tlx as int, brx as int, bry as int,
                    rr as int, 1, 100);
                lemma_scan_vert_range(self.image, tly as int, bry as int, tlx as int,
                    rr as int, 1, 100);
                lemma_scan_vert_range(self.image, tly as int, bry as int, brx as int,
                    rr as int, 1, 10);
            }
        }
        res
    }

    /// Locate the true center of the registration ring from one seed.
    #[verifier::rlimit(50)]
    #[verifier::spinoff_prover]
    pub fn real_center(&self, approx_center: Point, max_radius: u32) -> (res: Option<Point>)
        requires
            self.wf(),
            approx_center.x < 0x2000000,
            approx_center.y < 0x2000000,
            max_radius < RADIUS_LIMIT,
        ensures
            res == real_center_spec(self.image, approx_center, max_radius as int),
            res matches Some(c) ==> c.in_range(),
    {
        let quarter: u32 = max_radius / 4;
        let a = Point {
            x: if approx_center.x >= quarter { approx_center.x - quarter } else { 0 },
            y: if approx_center.y >= quarter { approx_center.y - quarter } else { 0 },
        };
        let bb = Point { x: approx_center.x + quarter, y: approx_center.y + quarter };
        let window = self.blackness(a, bb);
        if !crate::frac::is_frac_lt(window, 2, 5) {
            // the seed sits on the solid ring: restart from the white spots
            let spots = self.find_white_spot_from_annulus(approx_center, max_radius);
            let ghost gspots = spots@;
            assert(real_center_spec(self.image, approx_center, max_radius as int)
                == spots_result(self.image, gspots, max_radius as int, 0));
            let mut i: usize = 0;
            while i < spots.len()
                invariant
                    self.wf(),
                    spots@ == gspots,
                    0 <= i <= spots@.len(),
                    max_radius < RADIUS_LIMIT,
                    real_center_spec(self.image, approx_center, max_radius as int)
                        == spots_result(self.image, gspots, max_radius as int, 0),
                    forall|k: int| 0 <= k < spots@.len() ==>
                        (#[trigger] spots@[k]).x < 0x4000000 && spots@[k].y < 0x4000000,
                    spots_result(self.image, gspots, max_radius as int, 0)
                        == spots_result(self.image, gspots, max_radius as int, i as int),
                decreases spots@.len() - i,
            {
                let p = spots[i];
                let walked = find_inner_boundary_points(&self.image, p, max_radius,
                    max_radius / 4);
                if let Some((q0, q1, q2)) = walked {
                    if let Some((center, radius)) = crate::point::find_circle(q0, q1, q2) {
                        let good: bool = radius < RADIUS_LIMIT
                            && self.is_circle_center(center, radius);
                        assert(spots_result(self.image, gspots, max_radius as int, i as int)
                            == if good { Some(center) } else { None::<Point> });
                        if good {
                            return Some(center);
                        } else {
                            return None;
                        }
                    }
                }
                i = i + 1;
            }
            None
        } else {
            match find_inner_boundary_points(&self.image, approx_center, max_radius,
                max_radius / 10) {
                Some((q0, q1, q2)) => {
                    match crate::point::find_circle(q0, q1, q2) {
                        Some((center, radius)) => {
                            if radius < RADIUS_LIMIT && self.is_circle_center(center, radius) {
                                Some(center)
                            } else {
                                None
                            }
                        },
                        None => None,
                    }
                },
                None => None,
            }
        }
    }


    /// Locate the three ring centers near the approximate positions and
    /// measure the actual ring radius as the rounded average of the nine
    /// center-to-boundary distances.
    #[verifier::rlimit(50)]
    #[verifier::spinoff_prover]
    pub fn real_centers_with_radius(&self, c1: Point, c2: Point, c3: Point, approx_radius: u32)
        -> (res: Option<(Point, Point, Point, u32)>)
        requires
            self.wf(),
            c1.in_range(),
            c2.in_range(),
            c3.in_range(),
            0 < approx_radius <= 0xF0000,
        ensures
            match res {
                Some((r1, r2, r3, avg)) => centers_with_radius_spec(self.image, c1, c2, c3,
                    approx_radius as int) == Some((r1, r2, r3, avg as int))
                    && r1.in_range() && r2.in_range() && r3.in_range(),
                None => centers_with_radius_spec(self.image, c1, c2, c3,
                    approx_radius as int) is None,
            },
    {
        let mr: u32 = (42 * approx_radius + 20) / 40;
        assert(mr == crate::point::round_div(21 * approx_radius, 20));
        let r1 = match self.real_center_fuzzy(c1, mr) {
            Some(p) => p,
            None => { return None; },
        };
        let r2 = match self.real_center_fuzzy(c2, mr) {
            Some(p) => p,
            None => { return None; },
        };
        let r3 = match self.real_center_fuzzy(c3, mr) {
            Some(p) => p,
            None => { return None; },
        };
        let (a0, a1, a2) = match find_inner_boundary_points(&self.image, r1, mr, 3) {
            Some(t) => t,
            None => { return None; },
        };
        let (b0, b1, b2) = match find_inner_boundary_points(&self.image, r2, mr, 3) {
            Some(t) => t,
            None => { return None; },
        };
        let (d0, d1, d2) = match find_inner_boundary_points(&self.image, r3, mr, 3) {
            Some(t) => t,
            None => { return None; },
        };
        let total: u64 = r1.distance(a0) as u64 + r1.distance(a1) as u64
            + r1.distance(a2) as u64
            + r2.distance(b0) as u64 + r2.distance(b1) as u64 + r2.distance(b2) as u64
            + r3.distance(d0) as u64 + r3.distance(d1) as u64 + r3.distance(d2) as u64;
        let avg: u32 = ((2 * total + 9) / 18) as u32;
        assert(avg == crate::point::round_div(total as int, 9));
        Some((r1, r2, r3, avg))
    }

    /// Retry the center search at five vertical offsets and accept the
    /// first success.
    #[verifier::rlimit(100)]
    #[verifier::spinoff_prover]
    pub fn real_center_fuzzy(&self, approx_center: Point, max_radius: u32) -> (res: Option<Point>)
        requires
            self.wf(),
            approx_center.in_range(),
            0 < max_radius < RADIUS_LIMIT,
        ensures
            res == real_center_fuzzy_spec(self.image, approx_center, max_radius as int),
            res matches Some(c) ==> c.in_range(),
    {
        let r0 = self.real_center(approx_center, max_radius);
        assert(r0 == fuzzy_at(self.image, approx_center, max_radius as int, 0));
        if r0.is_some() {
            return r0;
        }
        let r1 = self.real_center(
            Point { x: approx_center.x, y: approx_center.y + max_radius }, max_radius);
        assert(r1 == fuzzy_at(self.image, approx_center, max_radius as int, 1));
        if r1.is_some() {
            return r1;
        }
        let y2: u32 = if approx_center.y >= max_radius { approx_center.y - max_radius } else { 0 };
        let r2 = self.real_center(Point { x: approx_center.x, y: y2 }, max_radius);
        assert(r2 == fuzzy_at(self.image, approx_center, max_radius as int, -1));
        if r2.is_some() {
            return r2;
        }
        let r3 = self.real_center(
            Point { x: approx_center.x, y: approx_center.y + 2 * max_radius }, max_radius);
        assert(r3 == fuzzy_at(self.image, approx_center, max_radius as int, 2));
        if r3.is_some() {
            return r3;
        }
        let y4: u32 = if approx_center.y >= 2 * max_radius {
            approx_center.y - 2 * max_radius
        } else {
            0
        };
        let r4 = self.real_center(Point { x: approx_center.x, y: y4 }, max_radius);
        assert(r4 == fuzzy_at(self.image, approx_center, max_radius as int, -2));
        r4
    }
}

/// A horizontal scan result stays on its edge, inside the scanned range.
proof fn lemma_scan_horiz_range(b: Bitmap, x: int, x_end: int, y: int, rr: int, cn: int, cd: int)
    requires
        0 <= x,
        0 <= y < 0x4000000,
        x_end <= 0x4000000,
    ensures
        scan_horiz_spec(b, x, x_end, y, rr, cn, cd) matches Some(p)
            ==> x <= p.x < x_end && p.y == y,
    decreases x_end - x,
{
    if x < x_end {
        lemma_scan_horiz_range(b, x + 1, x_end, y, rr, cn, cd);
    }
}

/// A vertical scan result stays on its edge, inside the scanned range.
proof fn lemma_scan_vert_range(b: Bitmap, y: int, y_end: int, x: int, rr: int, cn: int, cd: int)
    requires
        0 <= y,
        0 <= x < 0x4000000,
        y_end <= 0x4000000,
    ensures
        scan_vert_spec(b, y, y_end, x, rr, cn, cd) matches Some(p)
            ==> y <= p.y < y_end && p.x == x,
    decreases y_end - y,
{
    if y < y_end {
        lemma_scan_vert_range(b, y + 1, y_end, x, rr, cn, cd);
    }
}


/// Two bitmaps agree in size and pixel for pixel.
pub open spec fn same_ink(b1: Bitmap, b2: Bitmap) -> bool {
    &&& b1.spec_width() == b2.spec_width()
    &&& b1.spec_height() == b2.spec_height()
    &&& forall|x: int, y: int| #![trigger b1.ink(x, y)] b1.ink(x, y) == b2.ink(x, y)
}

/// Column counts read only the ink view.
proof fn lemma_col_same(b1: Bitmap, b2: Bitmap, x0: int, x1: int, y0: int, y1: int, x: int, n: int)
    requires
        same_ink(b1, b2),
    ensures
        col_sampled(b1, x0, x1, y0, y1, x, n) == col_sampled(b2, x0, x1, y0, y1, x, n),
        col_dark(b1, x0, x1, y0, y1, x, n) == col_dark(b2, x0, x1, y0, y1, x, n),
    decreases n,
{
    if n > 0 {
        lemma_col_same(b1, b2, x0, x1, y0, y1, x, n - 1);
        assert(b1.ink(x, y0 + n - 1) == b2.ink(x, y0 + n - 1));
    }
}

/// Rectangle counts read only the ink view.
proof fn lemma_rect_same(b1: Bitmap, b2: Bitmap, x0: int, x1: int, y0: int, y1: int, m: int)
    requires
        same_ink(b1, b2),
    ensures
        rect_sampled(b1, x0, x1, y0, y1, m) == rect_sampled(b2, x0, x1, y0, y1, m),
        rect_dark(b1, x0, x1, y0, y1, m) == rect_dark(b2, x0, x1, y0, y1, m),
    decreases m,
{
    if m > 0 {
        lemma_rect_same(b1, b2, x0, x1, y0, y1, m - 1);
        lemma_col_same(b1, b2, x0, x1, y0, y1, x0 + m - 1, y1 - y0);
    }
}

/// A blackness measurement reads only the ink view.
pub proof fn lemma_blackness_same(b1: Bitmap, b2: Bitmap, p1: Point, p2: Point)
    requires
        same_ink(b1, b2),
    ensures
        blackness_spec(b1, p1, p2) == blackness_spec(b2, p1, p2),
{
    let x0 = if p1.x <= p2.x { p1.x as int } else { p2.x as int };
    let x1 = if p1.x <= p2.x { p2.x as int } else { p1.x as int };
    let y0 = if p1.y <= p2.y { p1.y as int } else { p2.y as int };
    let y1 = if p1.y <= p2.y { p2.y as int } else { p1.y as int };
    lemma_rect_same(b1, b2, x0, x1, y0, y1, x1 - x0);
}

/// A window measurement reads only the ink view.
proof fn lemma_around_same(b1: Bitmap, b2: Bitmap, p: Point, r: int)
    requires
        same_ink(b1, b2),
    ensures
        around_spec(b1, p, r) == around_spec(b2, p, r),
{
    lemma_blackness_same(
        b1, b2,
        Point { x: sat0(p.x - r) as u32, y: sat0(p.y - r) as u32 },
        Point { x: (p.x + r) as u32, y: (p.y + r) as u32 },
    );
}

/// The diagonal walk reads only the ink view.
proof fn lemma_ray_walk_same(
    b1: Bitmap, b2: Bitmap, cx: int, cy: int, dx: int, dy: int,
    limit: int, need: int, dist: int, run: int, first: Option<Point>,
)
    requires
        same_ink(b1, b2),
    ensures
        ray_walk(b1, cx, cy, dx, dy, limit, need, dist, run, first)
            == ray_walk(b2, cx, cy, dx, dy, limit, need, dist, run, first),
    decreases limit + 1 - dist,
{
    if dist <= limit {
        let x = cx + dx * dist;
        let y = cy + dy * dist;
        if 0 <= x < b1.spec_width() && 0 <= y < b1.spec_height() {
            assert(b1.ink(x, y) == b2.ink(x, y));
            let hit = b1.ink(x, y);
            let run2: int = if hit { run + 1 } else { 0 };
            let first2: Option<Point> = if hit {
                if first is Some { first } else { Some(Point { x: x as u32, y: y as u32 }) }
            } else {
                None
            };
            if !(run2 >= need) {
                lemma_ray_walk_same(b1, b2, cx, cy, dx, dy, limit, need, dist + 1, run2, first2);
            }
        }
    }
}

/// The boundary walk reads only the ink view.
proof fn lemma_boundary_same(b1: Bitmap, b2: Bitmap, c: Point, r: int, need: int)
    requires
        same_ink(b1, b2),
    ensures
        boundary_spec(b1, c, r, need) == boundary_spec(b2, c, r, need),
{
    let limit = 2 * r + need;
    lemma_ray_walk_same(b1, b2, c.x as int, c.y as int, -1, -1, limit, need, 1, 0, None);
    lemma_ray_walk_same(b1, b2, c.x as int, c.y as int, -1, 1, limit, need, 1, 0, None);
    lemma_ray_walk_same(b1, b2, c.x as int, c.y as int, 1, 1, limit, need, 1, 0, None);
}

/// The ring validation reads only the ink view.
proof fn lemma_circle_center_same(b1: Bitmap, b2: Bitmap, center: Point, radius: int)
    requires
        same_ink(b1, b2),
    ensures
        is_circle_center_spec(b1, center, radius) == is_circle_center_spec(b2, center, radius),
{
    let off = 5 * radius / 3;
    lemma_around_same(b1, b2,
        Point { x: (center.x + off) as u32, y: center.y }, radius / 5);
    if center.x - off >= 0 {
        lemma_around_same(b1, b2,
            Point { x: (center.x - off) as u32, y: center.y }, radius / 5);
    }
    lemma_around_same(b1, b2,
        Point { x: center.x, y: (center.y + off) as u32 }, radius / 5);
    if center.y - off >= 0 {
        lemma_around_same(b1, b2,
            Point { x: center.x, y: (center.y - off) as u32 }, radius / 5);
    }
}

/// The horizontal edge scan reads only the ink view.
proof fn lemma_scan_horiz_same(
    b1: Bitmap, b2: Bitmap, x: int, x_end: int, y: int, rr: int, cn: int, cd: int,
)
    requires
        same_ink(b1, b2),
    ensures
        scan_horiz_spec(b1, x, x_end, y, rr, cn, cd) == scan_horiz_spec(b2, x, x_end, y, rr, cn, cd),
    decreases x_end - x,
{
    if x < x_end {
        lemma_around_same(b1, b2, Point { x: x as u32, y: y as u32 }, rr);
        lemma_scan_horiz_same(b1, b2, x + 1, x_end, y, rr, cn, cd);
    }
}

/// The vertical edge scan reads only the ink view.
proof fn lemma_scan_vert_same(
    b1: Bitmap, b2: Bitmap, y: int, y_end: int, x: int, rr: int, cn: int, cd: int,
)
    requires
        same_ink(b1, b2),
    ensures
        scan_vert_spec(b1, y, y_end, x, rr, cn, cd) == scan_vert_spec(b2, y, y_end, x, rr, cn, cd),
    decreases y_end - y,
{
    if y < y_end {
        lemma_around_same(b1, b2, Point { x: x as u32, y: y as u32 }, rr);
        lemma_scan_vert_same(b1, b2, y + 1, y_end, x, rr, cn, cd);
    }
}

/// The white-spot search reads only the ink view.
proof fn lemma_white_spots_same(b1: Bitmap, b2: Bitmap, start: Point, inner_radius: int)
    requires
        same_ink(b1, b2),
    ensures
        white_spots_spec(b1, start, inner_radius) == white_spots_spec(b2, start, inner_radius),
{
    let tlx = sat0(start.x - 4 * inner_radius / 3);
    let tly = sat0(start.y - 4 * inner_radius / 3);
    let brx = start.x + 4 * inner_radius / 3;
    let bry = start.y + 4 * inner_radius / 3;
    let rr = inner_radius / 10;
    lemma_scan_horiz_same(b1, b2, tlx, brx, tly, rr, 1, 100);
    lemma_scan_horiz_same(b1, b2, tlx, brx, bry, rr, 1, 100);
    lemma_scan_vert_same(b1, b2, tly, bry, tlx, rr, 1, 100);
    lemma_scan_vert_same(b1, b2, tly, bry, brx, rr, 1, 10);
}

/// The seed iteration reads only the ink view.
proof fn lemma_spots_result_same(b1: Bitmap, b2: Bitmap, spots: Seq<Point>, r: int, i: int)
    requires
        same_ink(b1, b2),
    ensures
        spots_result(b1, spots, r, i) == spots_result(b2, spots, r, i),
    decreases spots.len() - i,
{
    if 0 <= i < spots.len() {
        lemma_boundary_same(b1, b2, spots[i], r, r / 4);
        match boundary_spec(b1, spots[i], r, r / 4) {
            Some((q0, q1, q2)) => {
                match crate::point::circle_spec(q0, q1, q2) {
                    Some((center, radius)) => {
                        lemma_circle_center_same(b1, b2, center, radius);
                    },
                    None => {
                        lemma_spots_result_same(b1, b2, spots, r, i + 1);
                    },
                }
            },
            None => {
                lemma_spots_result_same(b1, b2, spots, r, i + 1);
            },
        }
    }
}

/// The single-seed center search reads only the ink view.
proof fn lemma_real_center_same(b1: Bitmap, b2: Bitmap, approx: Point, max_radius: int)
    requires
        same_ink(b1, b2),
    ensures
        real_center_spec(b1, approx, max_radius) == real_center_spec(b2, approx, max_radius),
{
    let a = Point {
        x: sat0(approx.x - max_radius / 4) as u32,
        y: sat0(approx.y - max_radius / 4) as u32,
    };
    let bb = Point { x: (approx.x + max_radius / 4) as u32, y: (approx.y + max_radius / 4) as u32 };
    lemma_blackness_same(b1, b2, a, bb);
    lemma_white_spots_same(b1, b2, approx, max_radius);
    lemma_spots_result_same(b1, b2, white_spots_spec(b1, approx, max_radius), max_radius, 0);
    lemma_boundary_same(b1, b2, approx, max_radius, max_radius / 10);
    match boundary_spec(b1, approx, max_radius, max_radius / 10) {
        Some((q0, q1, q2)) => {
            match crate::point::circle_spec(q0, q1, q2) {
                Some((center, radius)) => {
                    lemma_circle_center_same(b1, b2, center, radius);
                },
                None => {},
            }
        },
        None => {},
    }
}

/// The fuzzy center search reads only the ink view.
proof fn lemma_fuzzy_at_same(b1: Bitmap, b2: Bitmap, approx: Point, max_radius: int, fix: int)
    requires
        same_ink(b1, b2),
    ensures
        fuzzy_at(b1, approx, max_radius, fix) == fuzzy_at(b2, approx, max_radius, fix),
{
    lemma_real_center_same(b1, b2,
        Point { x: approx.x, y: sat0(approx.y + fix * max_radius) as u32 }, max_radius);
}

/// The fuzzy center search reads only the ink view.
#[verifier::rlimit(100)]
#[verifier::spinoff_prover]
pub proof fn lemma_real_center_fuzzy_same(b1: Bitmap, b2: Bitmap, approx: Point, max_radius: int)
    requires
        same_ink(b1, b2),
    ensures
        real_center_fuzzy_spec(b1, approx, max_radius)
            == real_center_fuzzy_spec(b2, approx, max_radius),
{
    lemma_fuzzy_at_same(b1, b2, approx, max_radius, 0);
    lemma_fuzzy_at_same(b1, b2, approx, max_radius, 1);
    lemma_fuzzy_at_same(b1, b2, approx, max_radius, -1);
    lemma_fuzzy_at_same(b1, b2, approx, max_radius, 2);
    lemma_fuzzy_at_same(b1, b2, approx, max_radius, -2);
}

} // verus!
