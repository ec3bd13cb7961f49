//! Color rasters for annotated score reports.
//!
//! The report pass renders the binarized page into an RGB raster and then
//! recolors regions: background tints for correct answers, strong tints for
//! detected marks, highlight tints for ambiguous regions, crosses for the
//! located registration centers.  Every primitive states pixel by pixel
//! what it changes.

use vstd::prelude::*;
use crate::bitmap::Bitmap;
use crate::point::Point;
use crate::point::sq;

verus! {

/// One RGB color.
pub type Colour = (u8, u8, u8);

/// A color raster, row-major.
#[derive(Debug, Clone)]
pub struct RgbBitmap {
    pub width: usize,
    pub height: usize,
    pub px: Vec<Colour>,
}

/// The position lies in the clipped inclusive rectangle: coordinates are
/// clamped to the frame as the recoloring primitives do.
pub open spec fn in_clipped_rect(
    x: int, y: int, x0: int, y0: int, x1: int, y1: int, w: int, h: int,
) -> bool {
    &&& (if x0 < w { x0 } else { w - 1 }) <= x <= (if x1 < w { x1 } else { w - 1 })
    &&& (if y0 < h { y0 } else { h - 1 }) <= y <= (if y1 < h { y1 } else { h - 1 })
}

impl RgbBitmap {
    /// Storage matches the dimensions.
    pub open spec fn wf(self) -> bool {
        &&& self.px.len() == self.width * self.height
        &&& self.width < 0x8000
        &&& self.height < 0x8000
    }

    /// The pixel at `(x, y)`; white for positions outside the frame.
    pub open spec fn pix(self, x: int, y: int) -> Colour {
        if 0 <= x < self.width && 0 <= y < self.height {
            self.px[y * self.width + x]
        } else {
            (255u8, 255u8, 255u8)
        }
    }

    /// Read one pixel.
    pub fn get(&self, x: u32, y: u32) -> (r: Colour)
        requires
            self.wf(),
        ensures
            r == self.pix(x as int, y as int),
    {
        if (x as usize) < self.width && (y as usize) < self.height {
            assert(0 <= (y as int) * self.width + x < self.px.len()) by (nonlinear_arith)
                requires
                    0 <= x < self.width,
                    0 <= y < self.height,
                    self.px.len() == self.width * self.height;
            let idx: usize = (y as usize) * self.width + (x as usize);
            self.px[idx]
        } else {
            (255, 255, 255)
        }
    }

    /// Write one pixel inside the frame.
    pub fn set(&mut self, x: u32, y: u32, v: Colour)
        requires
            old(self).wf(),
            x < old(self).width,
            y < old(self).height,
        ensures
            final(self).wf(),
            final(self).width == old(self).width,
            final(self).height == old(self).height,
            forall|i: int, j: int| #![trigger final(self).pix(i, j)]
                final(self).pix(i, j)
                    == if i == x && j == y { v } else { old(self).pix(i, j) },
    {
        assert(0 <= (y as int) * self.width + x < self.px.len()) by (nonlinear_arith)
            requires
                0 <= x < self.width,
                0 <= y < self.height,
                self.px.len() == self.width * self.height;
        let idx: usize = (y as usize) * self.width + (x as usize);
        self.px.set(idx, v);
        assert forall|i: int, j: int|
            final(self).pix(i, j) == if i == x && j == y { v } else { old(self).pix(i, j) }
        by {
            if 0 <= i < self.width && 0 <= j < self.height {
                assert(j * self.width + i < self.px.len()
                    && (j * self.width + i == idx <==> i == x && j == y))
                    by (nonlinear_arith)
                    requires
                        idx == y * self.width + x,
                        0 <= x < self.width,
                        0 <= y < self.height,
                        0 <= i < self.width,
                        0 <= j < self.height,
                        self.px.len() == self.width * self.height;
            }
        }
    }

    /// In the clipped inclusive rectangle, repaint every pixel that shows
    /// `from` with `to`; everything else stays.
    pub fn replace_colour(&mut self, x0: u32, y0: u32, x1: u32, y1: u32, from: Colour, to: Colour)
        requires
            old(self).wf(),
            old(self).width > 0,
            old(self).height > 0,
        ensures
            final(self).wf(),
            final(self).width == old(self).width,
            final(self).height == old(self).height,
            forall|i: int, j: int| #![trigger final(self).pix(i, j)]
                final(self).pix(i, j)
                    == if in_clipped_rect(i, j, x0 as int, y0 as int, x1 as int, y1 as int,
                        old(self).width as int, old(self).height as int)
                        && old(self).pix(i, j) == from { to } else { old(self).pix(i, j) },
    {
        let w: usize = self.width;
        let h: usize = self.height;
        let cx0: u32 = if (x0 as usize) < w { x0 } else { (w - 1) as u32 };
        let cy0: u32 = if (y0 as usize) < h { y0 } else { (h - 1) as u32 };
        let cx1: u32 = if (x1 as usize) < w { x1 } else { (w - 1) as u32 };
        let cy1: u32 = if (y1 as usize) < h { y1 } else { (h - 1) as u32 };
        if cx0 > cx1 || cy0 > cy1 {
            return;
        }
        let ghost orig = *self;
        let mut y: u32 = cy0;
        while y <= cy1
            invariant
                self.wf(),
                self.width == orig.width == w,
                self.height == orig.height == h,
                w > 0 && h > 0,
                cx0 == if x0 < w { x0 as int } else { w - 1 },
                cy0 == if y0 < h { y0 as int } else { h - 1 },
                cx1 == if x1 < w { x1 as int } else { w - 1 },
                cy1 == if y1 < h { y1 as int } else { h - 1 },
                cx0 < w && cy0 < h && cx1 < w && cy1 < h,
                cx0 <= cx1 && cy0 <= cy1,
                cy0 <= y <= cy1 + 1,
                forall|i: int, j: int| #![trigger self.pix(i, j)]
                    self.pix(i, j)
                        == if cx0 <= i <= cx1 && cy0 <= j < y && orig.pix(i, j) == from {
                            to
                        } else {
                            orig.pix(i, j)
                        },
            decreases cy1 + 1 - y,
        {
            let mut x: u32 = cx0;
            while x <= cx1
                invariant
                    self.wf(),
                    self.width == orig.width == w,
                    self.height == orig.height == h,
                    w > 0 && h > 0,
                    cx0 < w && cy0 < h && cx1 < w && cy1 < h,
                    cx0 <= cx1 && cy0 <= cy1,
                    cy0 <= y <= cy1,
                    cx0 <= x <= cx1 + 1,
                    forall|i: int, j: int| #![trigger self.pix(i, j)]
                        self.pix(i, j)
                            == if (cx0 <= i <= cx1 && cy0 <= j < y
                                    || (j == y && cx0 <= i < x))
                                && orig.pix(i, j) == from {
                                to
                            } else {
                                orig.pix(i, j)
                            },
                decreases cx1 + 1 - x,
            {
                let c = self.get(x, y);
                if c.0 == from.0 && c.1 == from.1 && c.2 == from.2 {
                    assert(c == from);
                    self.set(x, y, to);
                }
                x = x + 1;
            }
            y = y + 1;
        }
    }

    /// Paint one pixel if it lies inside the frame.
    fn dot(&mut self, x: i64, y: i64, colour: Colour)
        requires
            old(self).wf(),
        ensures
            final(self).wf(),
            final(self).width == old(self).width,
            final(self).height == old(self).height,
            forall|i: int, j: int| #![trigger final(self).pix(i, j)]
                final(self).pix(i, j)
                    == if i == x && j == y && 0 <= i < old(self).width
                        && 0 <= j < old(self).height { colour } else { old(self).pix(i, j) },
    {
        if 0 <= x && x < self.width as i64 && 0 <= y && y < self.height as i64 {
            self.set(x as u32, y as u32, colour);
        }
    }

    /// Paint a small cross at `p` to mark a located registration center:
    /// the pixel itself and up to three pixels along each axis direction.
    pub fn draw_cross(&mut self, p: Point, colour: Colour)
        requires
            old(self).wf(),
            p.in_range(),
        ensures
            final(self).wf(),
            final(self).width == old(self).width,
            final(self).height == old(self).height,
            forall|i: int, j: int| #![trigger final(self).pix(i, j)]
                final(self).pix(i, j)
                    == if on_cross(i, j, p) && 0 <= i < old(self).width
                        && 0 <= j < old(self).height { colour } else { old(self).pix(i, j) },
    {
        let ghost orig = *self;
        let cx: i64 = p.x as i64;
        let cy: i64 = p.y as i64;
        self.dot(cx - 3, cy, colour);
        self.dot(cx - 2, cy, colour);
        self.dot(cx - 1, cy, colour);
        self.dot(cx, cy, colour);
        self.dot(cx + 1, cy, colour);
        self.dot(cx + 2, cy, colour);
        self.dot(cx + 3, cy, colour);
        self.dot(cx, cy - 3, colour);
        self.dot(cx, cy - 2, colour);
        self.dot(cx, cy - 1, colour);
        self.dot(cx, cy + 1, colour);
        self.dot(cx, cy + 2, colour);
        self.dot(cx, cy + 3, colour);
        assert forall|i: int, j: int|
            self.pix(i, j)
                == if on_cross(i, j, p) && 0 <= i < orig.width
                    && 0 <= j < orig.height { colour } else { orig.pix(i, j) } by {
            if 0 <= i < orig.width && 0 <= j < orig.height {
                if on_cross(i, j, p) {
                    let d = choose|d: int| -3 <= d <= 3 && on_cross_arm(i, j, p, d);
                    assert(on_cross_arm(i, j, p, d));
                    assert(d == -3 || d == -2 || d == -1 || d == 0 || d == 1 || d == 2
                        || d == 3);
                } else {
                    assert(!on_cross_arm(i, j, p, -3));
                    assert(!on_cross_arm(i, j, p, -2));
                    assert(!on_cross_arm(i, j, p, -1));
                    assert(!on_cross_arm(i, j, p, 0));
                    assert(!on_cross_arm(i, j, p, 1));
                    assert(!on_cross_arm(i, j, p, 2));
                    assert(!on_cross_arm(i, j, p, 3));
                }
            }
        }
    }
}

/// `(i, j)` lies on the arm pixel at offset `d` of the cross at `p`.
pub open spec fn on_cross_arm(i: int, j: int, p: Point, d: int) -> bool {
    (i == p.x + d && j == p.y) || (i == p.x && j == p.y + d)
}

/// `(i, j)` lies on the cross marker at `p` (arms of three pixels).
pub open spec fn on_cross(i: int, j: int, p: Point) -> bool {
    exists|d: int| -3 <= d <= 3 && on_cross_arm(i, j, p, d)
}

/// Render a binarized page as a color raster: ink black, paper white.
pub fn rgb_from_bitmap(b: &Bitmap) -> (r: RgbBitmap)
    requires
        b.wf(),
    ensures
        r.wf(),
        r.width == b.spec_width(),
        r.height == b.spec_height(),
        forall|i: int, j: int| 0 <= i < r.width && 0 <= j < r.height ==>
            #[trigger] r.pix(i, j) == if b.ink(i, j) { (0u8, 0u8, 0u8) } else { (255u8, 255u8, 255u8) },
{
    let w: usize = b.width();
    let h: usize = b.height();
    assert(0 <= w * h < 0x40000000) by (nonlinear_arith)
        requires 0 <= w < 0x8000 && 0 <= h < 0x8000;
    let mut px: Vec<Colour> = Vec::new();
    let mut y: usize = 0;
    while y < h
        invariant
            b.wf(),
            w == b.spec_width(),
            h == b.spec_height(),
            y <= h,
            px.len() == y * w,
            forall|i: int, j: int| #![trigger b.ink(i, j)] 0 <= i < w && 0 <= j < y ==>
                px[j * w + i] == if b.ink(i, j) { (0u8, 0u8, 0u8) } else { (255u8, 255u8, 255u8) },
        decreases h - y,
    {
        let mut x: usize = 0;
        while x < w
            invariant
                b.wf(),
                w == b.spec_width(),
                h == b.spec_height(),
                y < h,
                x <= w,
                px.len() == y * w + x,
                forall|i: int, j: int| #![trigger b.ink(i, j)] 0 <= i < w
                    && (0 <= j < y || (j == y && i < x)) ==>
                    px[j * w + i] == if b.ink(i, j) { (0u8, 0u8, 0u8) } else { (255u8, 255u8, 255u8) },
            decreases w - x,
        {
            assert(y * w + x < 0x40000000 && (y + 1) * w == y * w + w) by (nonlinear_arith)
                requires 0 <= x < w < 0x8000 && 0 <= y < h < 0x8000;
            if b.get(x as u32, y as u32) {
                px.push((0, 0, 0));
            } else {
                px.push((255, 255, 255));
            }
            assert forall|i: int, j: int| 0 <= i < w && (0 <= j < y || (j == y && i <= x))
                implies px[j * w + i] == if b.ink(i, j) { (0u8, 0u8, 0u8) } else {
                    (255u8, 255u8, 255u8) } by {
                assert(0 <= j * w + i < px.len() && (j * w + i == y * w + x <==> i == x && j == y))
                    by (nonlinear_arith)
                    requires
                        0 <= i < w,
                        0 <= j <= y,
                        j < y || i <= x,
                        0 <= x < w,
                        px.len() == y * w + x + 1;
            }
            x = x + 1;
        }
        proof {
            assert((y + 1) * w == y * w + w) by (nonlinear_arith);
        }
        y = y + 1;
    }
    proof {
        assert(h * w == w * h) by (nonlinear_arith);
    }
    let r = RgbBitmap { width: w, height: h, px };
    assert forall|i: int, j: int| 0 <= i < r.width && 0 <= j < r.height implies
        #[trigger] r.pix(i, j) == if b.ink(i, j) { (0u8, 0u8, 0u8) } else {
            (255u8, 255u8, 255u8) } by {
        assert(0 <= j * w + i < r.px.len()) by (nonlinear_arith)
            requires
                0 <= i < w,
                0 <= j < h,
                r.px.len() == w * h;
    }
    r
}

/// Paint a hollow ring: every pixel whose squared distance from `center`
/// lies between `r^2` and `(r + 1)^2` takes the given color.
pub open spec fn on_ring(i: int, j: int, center: Point, r: int) -> bool {
    sq(r) <= sq(i - center.x) + sq(j - center.y) < sq(r + 1)
}

impl RgbBitmap {
    /// Draw the hollow ring of radius `r` around `center`.
    pub fn draw_ring(&mut self, center: Point, r: u32, colour: Colour)
        requires
            old(self).wf(),
            center.in_range(),
            r < 0x100000,
        ensures
            final(self).wf(),
            final(self).width == old(self).width,
            final(self).height == old(self).height,
            forall|i: int, j: int| #![trigger final(self).pix(i, j)]
                final(self).pix(i, j)
                    == if on_ring(i, j, center, r as int) && 0 <= i < old(self).width
                        && 0 <= j < old(self).height { colour } else { old(self).pix(i, j) },
    {
        let ghost orig = *self;
        let w: usize = self.width;
        let h: usize = self.height;
        let mut y: usize = 0;
        while y < h
            invariant
                self.wf(),
                self.width == orig.width == w,
                self.height == orig.height == h,
                center.in_range(),
                r < 0x100000,
                y <= h,
                forall|i: int, j: int| #![trigger self.pix(i, j)]
                    self.pix(i, j)
                        == if on_ring(i, j, center, r as int) && 0 <= i < w && 0 <= j < y {
                            colour
                        } else {
                            orig.pix(i, j)
                        },
            decreases h - y,
        {
            let mut x: usize = 0;
            while x < w
                invariant
                    self.wf(),
                    self.width == orig.width == w,
                    self.height == orig.height == h,
                    center.in_range(),
                    r < 0x100000,
                    y < h,
                    x <= w,
                    forall|i: int, j: int| #![trigger self.pix(i, j)]
                        self.pix(i, j)
                            == if on_ring(i, j, center, r as int)
                                && (0 <= i < w && 0 <= j < y || (j == y && 0 <= i < x)) {
                                colour
                            } else {
                                orig.pix(i, j)
                            },
                decreases w - x,
            {
                let dx: i64 = x as i64 - center.x as i64;
                let dy: i64 = y as i64 - center.y as i64;
                assert(0 <= dx * dx < 0x4000000000000 && 0 <= dy * dy < 0x4000000000000)
                    by (nonlinear_arith)
                    requires
                        -0x2000000 < dx < 0x2000000,
                        -0x2000000 < dy < 0x2000000;
                assert(dx * dx == sq(x - center.x) && dy * dy == sq(y - center.y));
                let d2: i64 = dx * dx + dy * dy;
                let rr: i64 = r as i64;
                assert(0 <= rr * rr < 0x100000000000 && 0 < (rr + 1) * (rr + 1) < 0x100000000000)
                    by (nonlinear_arith)
                    requires 0 <= rr < 0x100000;
                assert(rr * rr == sq(r as int) && (rr + 1) * (rr + 1) == sq(r as int + 1));
                if rr * rr <= d2 && d2 < (rr + 1) * (rr + 1) {
                    self.set(x as u32, y as u32, colour);
                }
                x = x + 1;
            }
            y = y + 1;
        }
    }
}

} // verus!
