//! Exact fill-ratio values.
//!
//! A blackness measurement is the ratio of ink pixels to sampled pixels.
//! Instead of a lossy floating-point quotient the engine keeps the exact
//! pair of counts and compares ratios by cross-multiplication, so every
//! threshold decision is exact.

use vstd::prelude::*;

verus! {

/// Exclusive upper bound on the numerator and denominator of a [`Frac`]:
/// a pixel count bounded by the bitmap area.
pub const FRAC_LIMIT: u64 = 0x40000000;

/// A ratio of pixel counts in `[0, 1]`: `num` ink pixels out of `den`
/// sampled ones.
#[derive(Debug, Clone, Copy, PartialEq, Eq, Structural)]
pub struct Frac {
    pub num: u64,
    pub den: u64,
}

impl Frac {
    /// A denominator is always present and the ratio never exceeds one.
    pub open spec fn wf(self) -> bool {
        &&& 0 < self.den < FRAC_LIMIT
        &&& self.num <= self.den
    }

    /// The zero ratio.
    pub fn zero() -> (r: Frac)
        ensures
            r.wf(),
            r.num == 0 && r.den == 1,
    {
        Frac { num: 0, den: 1 }
    }

    /// The ratio is at least three fifths (the ring-validation cutoff).
    pub fn ge_three_fifths(self) -> (r: bool)
        requires
            self.wf(),
        ensures
            r == !frac_lt(self, 3, 5),
    {
        !is_frac_lt(self, 3, 5)
    }

    /// This ratio is strictly smaller than `other`.
    pub open spec fn spec_lt(self, other: Frac) -> bool {
        self.num * other.den < other.num * self.den
    }

    /// Compare two ratios exactly.
    pub fn lt(self, other: Frac) -> (r: bool)
        requires
            self.wf(),
            other.wf(),
        ensures
            r == self.spec_lt(other),
    {
        assert(0 <= (self.num as int) * (other.den as int) < 0x1000000000000000000
            && 0 <= (other.num as int) * (self.den as int) < 0x1000000000000000000)
            by (nonlinear_arith)
            requires
                self.num <= self.den < FRAC_LIMIT,
                other.num <= other.den < FRAC_LIMIT;
        let a: u128 = (self.num as u128) * (other.den as u128);
        let b: u128 = (other.num as u128) * (self.den as u128);
        a < b
    }
}

/// The ratio `v` lies strictly above the adaptive threshold
/// `min + 0.6 * (max - min)`, that is `5 v > 2 min + 3 max`.
pub open spec fn above_adaptive_threshold(v: Frac, mn: Frac, mx: Frac) -> bool {
    5 * v.num * mn.den * mx.den > 2 * mn.num * v.den * mx.den + 3 * mx.num * v.den * mn.den
}

/// Decide [`above_adaptive_threshold`] exactly.
pub fn is_above_adaptive_threshold(v: Frac, mn: Frac, mx: Frac) -> (r: bool)
    requires
        v.wf(),
        mn.wf(),
        mx.wf(),
    ensures
        r == above_adaptive_threshold(v, mn, mx),
{
    assert({
        &&& 0 <= 5 * (v.num as int) * (mn.den as int) < 0x4000000000000000000
        &&& 0 <= 5 * (v.num as int) * (mn.den as int) * (mx.den as int) < 0x100000000000000000000000000
        &&& 0 <= 2 * (mn.num as int) * (v.den as int) < 0x4000000000000000000
        &&& 0 <= 2 * (mn.num as int) * (v.den as int) * (mx.den as int) < 0x100000000000000000000000000
        &&& 0 <= 3 * (mx.num as int) * (v.den as int) < 0x4000000000000000000
        &&& 0 <= 3 * (mx.num as int) * (v.den as int) * (mn.den as int) < 0x100000000000000000000000000
    }) by (nonlinear_arith)
        requires
            v.num <= v.den < FRAC_LIMIT,
            mn.num <= mn.den < FRAC_LIMIT,
            mx.num <= mx.den < FRAC_LIMIT;
    let lhs: i128 = 5 * (v.num as i128) * (mn.den as i128) * (mx.den as i128);
    let rhs2: i128 = 2 * (mn.num as i128) * (v.den as i128) * (mx.den as i128);
    let rhs3: i128 = 3 * (mx.num as i128) * (v.den as i128) * (mn.den as i128);
    lhs > rhs2 + rhs3
}

/// The ratio exceeds `cn / cd` (used for the fixed guards such as
/// `max > 0.45` and `blackness >= 0.4`).
pub open spec fn frac_gt(v: Frac, cn: int, cd: int) -> bool {
    cd * v.num > cn * v.den
}

/// The ratio is below `cn / cd` (used for the fixed guards such as
/// `blackness < 0.01` on a white probe).
pub open spec fn frac_lt(v: Frac, cn: int, cd: int) -> bool {
    cd * v.num < cn * v.den
}

/// Decide whether `v < cn / cd` for small constant fractions.
pub fn is_frac_lt(v: Frac, cn: u64, cd: u64) -> (r: bool)
    requires
        v.wf(),
        cn < 0x10000,
        cd < 0x10000,
    ensures
        r == frac_lt(v, cn as int, cd as int),
{
    assert(0 <= (cd as int) * (v.num as int) < 0x100000000000000000000
        && 0 <= (cn as int) * (v.den as int) < 0x100000000000000000000)
        by (nonlinear_arith)
        requires
            v.num <= v.den < FRAC_LIMIT,
            cn < 0x10000,
            cd < 0x10000;
    let lhs: u128 = (cd as u128) * (v.num as u128);
    let rhs: u128 = (cn as u128) * (v.den as u128);
    lhs < rhs
}

/// Decide whether `v > cn / cd` for small constant fractions.
pub fn is_frac_gt(v: Frac, cn: u64, cd: u64) -> (r: bool)
    requires
        v.wf(),
        cn < 0x10000,
        cd < 0x10000,
    ensures
        r == frac_gt(v, cn as int, cd as int),
{
    assert(0 <= (cd as int) * (v.num as int) < 0x100000000000000000000
        && 0 <= (cn as int) * (v.den as int) < 0x100000000000000000000)
        by (nonlinear_arith)
        requires
            v.num <= v.den < FRAC_LIMIT,
            cn < 0x10000,
            cd < 0x10000;
    let lhs: u128 = (cd as u128) * (v.num as u128);
    let rhs: u128 = (cn as u128) * (v.den as u128);
    lhs > rhs
}

/// The rounded percentage of a well-formed ratio lies between 0 and 100.
pub proof fn lemma_percent_range(f: Frac)
    requires
        f.wf(),
    ensures
        0 <= (200 * f.num + f.den) / (2 * f.den) <= 100,
{
    vstd::arithmetic::div_mod::lemma_div_pos_is_pos(200 * f.num + f.den, 2 * f.den);
    vstd::arithmetic::div_mod::lemma_multiply_divide_lt(200 * f.num + f.den, 2 * f.den, 101);
    assert(200 * f.num + f.den < (2 * f.den) * 101) by (nonlinear_arith)
        requires 0 < f.den && f.num <= f.den;
}

} // verus!
