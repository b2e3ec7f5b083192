//! Exact nonnegative rationals for well widths.
//!
//! Widths are configured as quotients (for example a target width divided by
//! a prime), so comparisons against integers and among widths are done with
//! cross-multiplication instead of approximate arithmetic.

use vstd::prelude::*;

verus! {

/// An exact nonnegative rational `num / den` with `den >= 1`.
#[derive(Clone, Copy, PartialEq, Eq, Structural, Debug)]
pub struct Ratio {
    pub num: u64,
    pub den: u64,
}

impl Ratio {
    /// The denominator is positive, so the value `num / den` is defined.
    pub open spec fn wf(self) -> bool {
        self.den >= 1
    }

    /// The value of `self` is at most the integer `k`.
    pub open spec fn le_int(self, k: int) -> bool {
        self.num <= k * self.den
    }

    /// The value of `self` is less than the integer `k`.
    pub open spec fn lt_int(self, k: int) -> bool {
        self.num < k * self.den
    }

    /// The value of `self` is at least the integer `k`.
    pub open spec fn ge_int(self, k: int) -> bool {
        self.num >= k * self.den
    }

    /// The value of `self` is greater than the integer `k`.
    pub open spec fn gt_int(self, k: int) -> bool {
        self.num > k * self.den
    }

    pub fn new(num: u64, den: u64) -> (r: Ratio)
        requires
            den >= 1,
        ensures
            r == (Ratio { num, den }),
            r.wf(),
    {
        Ratio { num, den }
    }

    /// Decides `self <= k` by cross-multiplication.
    pub fn le(&self, k: i64) -> (b: bool)
        requires
            self.wf(),
        ensures
            b == self.le_int(k as int),
    {
        proof {
            assert((k as i128) * (self.den as i128) <= (i64::MAX as i128) * (u64::MAX as i128)
                && (i64::MIN as i128) * (u64::MAX as i128) <= (k as i128) * (self.den as i128))
                by (nonlinear_arith)
                requires
                    i64::MIN <= k <= i64::MAX,
                    0 < self.den <= u64::MAX,
            ;
        }
        (self.num as i128) <= (k as i128) * (self.den as i128)
    }

    /// Decides `self < k` by cross-multiplication.
    pub fn lt(&self, k: i64) -> (b: bool)
        requires
            self.wf(),
        ensures
            b == self.lt_int(k as int),
    {
        proof {
            assert((k as i128) * (self.den as i128) <= (i64::MAX as i128) * (u64::MAX as i128)
                && (i64::MIN as i128) * (u64::MAX as i128) <= (k as i128) * (self.den as i128))
                by (nonlinear_arith)
                requires
                    i64::MIN <= k <= i64::MAX,
                    0 < self.den <= u64::MAX,
            ;
        }
        (self.num as i128) < (k as i128) * (self.den as i128)
    }

    /// Decides `self >= k` by cross-multiplication.
    pub fn ge(&self, k: i64) -> (b: bool)
        requires
            self.wf(),
        ensures
            b == self.ge_int(k as int),
    {
        !self.lt(k)
    }

    /// Decides `self > k` by cross-multiplication.
    pub fn gt(&self, k: i64) -> (b: bool)
        requires
            self.wf(),
        ensures
            b == self.gt_int(k as int),
    {
        !self.le(k)
    }
}

/// The default width rule: `max(130 / n, 5 / 2)` for a prime `n`,
/// as an exact rational.
pub fn default_width(n: u64) -> (w: Ratio)
    requires
        1 <= n <= 46340,
    ensures
        w.wf(),
        w == (if 260 >= 5 * n {
            Ratio { num: 130, den: n }
        } else {
            Ratio { num: 5, den: 2 }
        }),
{
    if 260 >= 5 * n {
        Ratio { num: 130, den: n }
    } else {
        Ratio { num: 5, den: 2 }
    }
}

} // verus!
