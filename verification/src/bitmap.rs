//! Two-level (ink / paper) bitmaps.
//!
//! A scanned page is handed to the engine as a binarized raster: every pixel
//! is either ink or paper.  The bitmap is stored row-major; reads outside the
//! frame count as paper, which keeps every pixel predicate total.

use vstd::prelude::*;

verus! {

/// Exclusive upper bound on bitmap dimensions; keeps pixel counts and index
/// arithmetic far away from overflow.
pub const DIM_LIMIT: usize = 32768;

/// A binarized raster: `true` is ink, `false` is paper.
#[derive(Debug, Clone)]
pub struct Bitmap {
    pub width: usize,
    pub height: usize,
    pub px: Vec<bool>,
}

impl Bitmap {
    /// Row-major pixel storage matches the dimensions.
    pub open spec fn wf(self) -> bool {
        &&& self.px.len() == self.width * self.height
        &&& self.width < DIM_LIMIT
        &&& self.height < DIM_LIMIT
    }

    /// Width in pixels.
    pub open spec fn spec_width(self) -> int {
        self.width as int
    }

    /// Height in pixels.
    pub open spec fn spec_height(self) -> int {
        self.height as int
    }

    /// The pixel at `(x, y)` is ink; positions outside the frame are paper.
    pub open spec fn ink(self, x: int, y: int) -> bool {
        &&& 0 <= x < self.width
        &&& 0 <= y < self.height
        &&& self.px[y * self.width + x]
    }

    /// An all-paper bitmap of the given dimensions.
    pub fn new(width: usize, height: usize) -> (r: Bitmap)
        requires
            width < DIM_LIMIT,
            height < DIM_LIMIT,
        ensures
            r.wf(),
            r.spec_width() == width,
            r.spec_height() == height,
            forall|x: int, y: int| !r.ink(x, y),
    {
        assert(0 <= width * height < 0x40000000) by (nonlinear_arith)
            requires 0 <= width < DIM_LIMIT && 0 <= height < DIM_LIMIT;
        let n: usize = width * height;
        let mut px: Vec<bool> = Vec::new();
        let mut k: usize = 0;
        while k < n
            invariant
                px.len() == k,
                k <= n,
                forall|i: int| 0 <= i < k ==> !px[i],
            decreases n - k,
        {
            px.push(false);
            k = k + 1;
        }
        let r = Bitmap { width, height, px };
        assert forall|x: int, y: int| !r.ink(x, y) by {
            if 0 <= x < width && 0 <= y < height {
                assert(0 <= y * r.width + x < r.px.len()) by (nonlinear_arith)
                    requires
                        0 <= x < r.width,
                        0 <= y < r.height,
                        r.px.len() == r.width * r.height;
            }
        }
        r
    }

    /// Width in pixels.
    pub fn width(&self) -> (r: usize)
        ensures
            r == self.spec_width(),
    {
        self.width
    }

    /// Height in pixels.
    pub fn height(&self) -> (r: usize)
        ensures
            r == self.spec_height(),
    {
        self.height
    }

    /// Read one pixel; positions outside the frame read as paper.
    pub fn get(&self, x: u32, y: u32) -> (r: bool)
        requires
            self.wf(),
        ensures
            r == self.ink(x as int, y as int),
    {
        if (x as usize) < self.width && (y as usize) < self.height {
            assert(0 <= (y as int) * self.width + x < self.px.len()) by (nonlinear_arith)
                requires
                    0 <= x < self.width,
                    0 <= y < self.height,
                    self.px.len() == self.width * self.height;
            let idx: usize = (y as usize) * self.width + (x as usize);
            self.px[idx]
        } else {
            false
        }
    }

    /// Write one pixel inside the frame.
    pub fn set(&mut self, x: u32, y: u32, v: bool)
        requires
            old(self).wf(),
            x < old(self).spec_width(),
            y < old(self).spec_height(),
        ensures
            final(self).wf(),
            final(self).spec_width() == old(self).spec_width(),
            final(self).spec_height() == old(self).spec_height(),
            forall|i: int, j: int|
                final(self).ink(i, j) == if i == x && j == y { v } else { old(self).ink(i, j) },
    {
        assert(0 <= (y as int) * self.width + x < self.px.len()) by (nonlinear_arith)
            requires
                0 <= x < self.width,
                0 <= y < self.height,
                self.px.len() == self.width * self.height;
        let idx: usize = (y as usize) * self.width + (x as usize);
        self.px.set(idx, v);
        assert forall|i: int, j: int|
            final(self).ink(i, j) == if i == x && j == y { v } else { old(self).ink(i, j) }
        by {
            if 0 <= i < self.width && 0 <= j < self.height {
                assert(j * self.width + i < self.px.len()
                    && (j * self.width + i == idx <==> i == x && j == y))
                    by (nonlinear_arith)
                    requires
                        idx == y * self.width + x,
                        0 <= x < self.width,
                        0 <= y < self.height,
                        0 <= i < self.width,
                        0 <= j < self.height,
                        self.px.len() == self.width * self.height;
            }
        }
    }
}

/// The pixel survives one round of erosion: it is ink and so are its four
/// axis neighbours (positions outside the frame count as paper, so ink on
/// the frame's border is always worn away).
pub open spec fn eroded(b: Bitmap, x: int, y: int) -> bool {
    &&& b.ink(x, y)
    &&& b.ink(x - 1, y)
    &&& b.ink(x + 1, y)
    &&& b.ink(x, y - 1)
    &&& b.ink(x, y + 1)
}

/// Shrink every ink region by one pixel: a pixel stays ink only when its
/// whole axis-neighbourhood was ink.  One such pass removes thin noise
/// specks and flood artifacts from badly exposed scans.
pub fn erode(b: &Bitmap) -> (r: Bitmap)
    requires
        b.wf(),
    ensures
        r.wf(),
        r.spec_width() == b.spec_width(),
        r.spec_height() == b.spec_height(),
        forall|x: int, y: int| r.ink(x, y) == eroded(*b, x, y),
{
    let w: usize = b.width();
    let h: usize = b.height();
    let mut out = Bitmap::new(w, h);
    let mut y: usize = 0;
    while y < h
        invariant
            b.wf(),
            out.wf(),
            out.spec_width() == b.spec_width() == w,
            out.spec_height() == b.spec_height() == h,
            y <= h,
            forall|i: int, j: int| #![trigger out.ink(i, j)]
                out.ink(i, j) == (j < y && eroded(*b, i, j)),
        decreases h - y,
    {
        let mut x: usize = 0;
        while x < w
            invariant
                b.wf(),
                out.wf(),
                out.spec_width() == b.spec_width() == w,
                out.spec_height() == b.spec_height() == h,
                x <= w,
                y < h,
                forall|i: int, j: int| #![trigger out.ink(i, j)]
                    out.ink(i, j) == ((j < y || (j == y && i < x)) && eroded(*b, i, j)),
            decreases w - x,
        {
            let keep: bool = b.get(x as u32, y as u32)
                && (x > 0 && b.get((x - 1) as u32, y as u32))
                && (x + 1 < w && b.get((x + 1) as u32, y as u32))
                && (y > 0 && b.get(x as u32, (y - 1) as u32))
                && (y + 1 < h && b.get(x as u32, (y + 1) as u32));
            assert(keep == eroded(*b, x as int, y as int));
            out.set(x as u32, y as u32, keep);
            x = x + 1;
        }
        y = y + 1;
    }
    out
}

/// Binarize an 8-bit grayscale raster: a pixel becomes ink exactly when its
/// intensity is at most `threshold`.
pub fn binarize(gray: &Vec<u8>, width: usize, height: usize, threshold: u8) -> (r: Bitmap)
    requires
        width < DIM_LIMIT,
        height < DIM_LIMIT,
        gray.len() == width * height,
    ensures
        r.wf(),
        r.spec_width() == width,
        r.spec_height() == height,
        forall|x: int, y: int| #![trigger r.ink(x, y)]
            r.ink(x, y) == (0 <= x < width && 0 <= y < height
                && gray[y * width + x] <= threshold),
{
    let mut out = Bitmap::new(width, height);
    let mut y: usize = 0;
    while y < height
        invariant
            out.wf(),
            out.spec_width() == width,
            out.spec_height() == height,
            width < DIM_LIMIT,
            height < DIM_LIMIT,
            gray.len() == width * height,
            y <= height,
            forall|i: int, j: int| #![trigger out.ink(i, j)]
                out.ink(i, j) == (j < y && 0 <= i < width && 0 <= j < height
                    && gray[j * width + i] <= threshold),
        decreases height - y,
    {
        let mut x: usize = 0;
        while x < width
            invariant
                out.wf(),
                out.spec_width() == width,
                out.spec_height() == height,
                width < DIM_LIMIT,
                height < DIM_LIMIT,
                gray.len() == width * height,
                x <= width,
                y < height,
                forall|i: int, j: int| #![trigger out.ink(i, j)]
                    out.ink(i, j) == ((j < y || (j == y && i < x))
                        && 0 <= i < width && 0 <= j < height
                        && gray[j * width + i] <= threshold),
            decreases width - x,
        {
            assert(0 <= (y as int) * width + x < gray.len()) by (nonlinear_arith)
                requires
                    0 <= x < width,
                    0 <= y < height,
                    gray.len() == width * height;
            let idx: usize = y * width + x;
            out.set(x as u32, y as u32, gray[idx] <= threshold);
            x = x + 1;
        }
        y = y + 1;
    }
    out
}

/// Count, for every intensity level, how many pixels of the raster carry it:
/// the 256-bin histogram an entropy-based binarization threshold is chosen
/// from.
pub fn histogram(gray: &Vec<u8>) -> (r: Vec<u64>)
    requires
        gray.len() < 0x1000000000000,
    ensures
        r.len() == 256,
        forall|v: int| 0 <= v < 256 ==>
            #[trigger] r[v] == count_level(gray@, v, gray.len() as int),
{
    let mut counts: Vec<u64> = Vec::new();
    let mut i: usize = 0;
    while i < 256
        invariant
            counts.len() == i <= 256,
            forall|v: int| 0 <= v < i ==> #[trigger] counts[v] == 0,
        decreases 256 - i,
    {
        counts.push(0);
        i = i + 1;
    }
    assert(forall|v: int| 0 <= v < 256 ==> #[trigger] counts[v] == count_level(gray@, v, 0));
    let mut k: usize = 0;
    while k < gray.len()
        invariant
            counts.len() == 256,
            k <= gray.len(),
            gray.len() < 0x1000000000000,
            forall|v: int| 0 <= v < 256 ==>
                #[trigger] counts[v] == count_level(gray@, v, k as int),
        decreases gray.len() - k,
    {
        let v: u8 = gray[k];
        let c: u64 = counts[v as usize];
        proof {
            lemma_count_level_bound(gray@, v as int, k as int);
        }
        counts.set(v as usize, c + 1);
        k = k + 1;
    }
    counts
}

/// Number of entries among the first `n` of `s` equal to the level `v`.
pub open spec fn count_level(s: Seq<u8>, v: int, n: int) -> int
    decreases n,
{
    if n <= 0 {
        0
    } else {
        count_level(s, v, n - 1) + if s[n - 1] == v { 1int } else { 0int }
    }
}

/// The count of one level among `n` entries is at most `n`.
proof fn lemma_count_level_bound(s: Seq<u8>, v: int, n: int)
    requires
        n >= 0,
    ensures
        0 <= count_level(s, v, n) <= n,
    decreases n,
{
    if n > 0 {
        lemma_count_level_bound(s, v, n - 1);
    }
}

} // verus!
