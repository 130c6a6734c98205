//! The coding range: a fixed-precision interval `[low, high)` of integers,
//! narrowed by each symbol and scaled back up whenever it fits in one half
//! of the whole.

use vstd::prelude::*;
use vstd::arithmetic::div_mod::{
    lemma_div_is_ordered, lemma_div_multiples_vanish, lemma_div_plus_one,
};
use vstd::arithmetic::mul::{lemma_mul_inequality, lemma_mul_is_commutative};
use vstd::arithmetic::power2::{
    lemma2_to64, lemma2_to64_rest, lemma_pow2_strictly_increases, lemma_pow2_unfold, pow2,
};
use vstd::bits::lemma_u64_shl_is_mul;

verus! {

/// Where `point`, out of `total`, falls in `[low, high)`:
/// `low + (high - low) * point / total`, the division truncating.
pub open spec fn scale_point(low: int, high: int, point: int, total: int) -> int {
    low + ((high - low) * point) / total
}

/// A point within the total falls within the range.
pub proof fn lemma_scale_point_bounds(low: int, high: int, point: int, total: int)
    requires
        low <= high,
        0 <= point <= total,
        0 < total,
    ensures
        low <= scale_point(low, high, point, total) <= high,
{
    let w: int = high - low;
    lemma_mul_inequality(0, point, w);
    lemma_mul_is_commutative(w, point);
    lemma_mul_is_commutative(w, 0);
    lemma_div_is_ordered(0, w * point, total);
    lemma_mul_inequality(point, total, w);
    lemma_mul_is_commutative(w, total);
    lemma_div_is_ordered(w * point, w * total, total);
    lemma_div_multiples_vanish(w, total);
    lemma_mul_is_commutative(total, w);
}

/// The first point falls on `low`, the total on `high`.
pub proof fn lemma_scale_point_ends(low: int, high: int, total: int)
    requires
        0 < total,
    ensures
        scale_point(low, high, 0, total) == low,
        scale_point(low, high, total, total) == high,
{
    let w: int = high - low;
    lemma_div_multiples_vanish(w, total);
    lemma_mul_is_commutative(total, w);
    assert(w * 0 == 0) by (nonlinear_arith);
}

/// A later point falls no earlier in the range.
pub proof fn lemma_scale_point_monotonic(low: int, high: int, a: int, b: int, total: int)
    requires
        low <= high,
        a <= b,
        0 < total,
    ensures
        scale_point(low, high, a, total) <= scale_point(low, high, b, total),
{
    let w: int = high - low;
    lemma_mul_inequality(a, b, w);
    lemma_mul_is_commutative(w, a);
    lemma_mul_is_commutative(w, b);
    lemma_div_is_ordered(w * a, w * b, total);
}

/// In a range at least as wide as the total, a later point falls strictly later.
pub proof fn lemma_scale_point_strict(low: int, high: int, a: int, b: int, total: int)
    requires
        a < b,
        0 < total <= high - low,
    ensures
        scale_point(low, high, a, total) < scale_point(low, high, b, total),
{
    let w: int = high - low;
    assert(w * a + total <= w * b) by (nonlinear_arith)
        requires
            a + 1 <= b,
            0 < total <= w,
    ;
    lemma_div_plus_one(w * a, total);
    lemma_div_is_ordered(total + w * a, w * b, total);
}

/// The coder's working interval `[low, high)` within `[0, 2^precision)`, with
/// the half and quarter marks that steer its scaling.
pub struct Range {
    pub low: u64,
    pub high: u64,
    pub precision: u8,
    pub half: u64,
    pub quarter: u64,
    pub three_quarters: u64,
}

impl Range {
    /// The size of the whole range, `2^precision`.
    pub open spec fn whole(&self) -> int {
        4 * self.quarter
    }

    /// The precision is between 8 and 62 bits, the marks are those of that
    /// precision, and `0 <= low < high <= whole`.
    pub open spec fn wf(&self) -> bool {
        &&& 8 <= self.precision <= 62
        &&& self.quarter == pow2((self.precision - 2) as nat)
        &&& self.half == 2 * self.quarter
        &&& self.three_quarters == 3 * self.quarter
        &&& self.low < self.high <= 4 * self.quarter
    }

    /// The range lies below the half mark.
    pub open spec fn bottom_half(&self) -> bool {
        self.high < self.half
    }

    /// The range lies at or above the half mark.
    pub open spec fn above_half(&self) -> bool {
        self.low >= self.half
    }

    /// The range starts above the quarter mark.
    pub open spec fn above_quarter(&self) -> bool {
        self.low > self.quarter
    }

    /// The range lies within the middle half of the whole.
    pub open spec fn middle_half(&self) -> bool {
        self.low >= self.quarter && self.high < self.three_quarters
    }

    /// No scaling applies: the range fits in neither half nor in the middle.
    pub open spec fn quiescent(&self) -> bool {
        !self.bottom_half() && !self.above_half() && !self.middle_half()
    }

    /// The same marks with another interval.
    pub open spec fn same_marks(&self, other: &Range) -> bool {
        &&& self.precision == other.precision
        &&& self.half == other.half
        &&& self.quarter == other.quarter
        &&& self.three_quarters == other.three_quarters
    }

    /// The marks of a well-formed range are powers of two within `u64`.
    pub proof fn lemma_marks(&self)
        requires
            self.wf(),
        ensures
            64 <= self.quarter <= 0x1000_0000_0000_0000,
            self.whole() == pow2(self.precision as nat),
            self.half == pow2((self.precision - 1) as nat),
            self.whole() <= 0x4000_0000_0000_0000,
    {
        let p: nat = self.precision as nat;
        lemma2_to64();
        lemma2_to64_rest();
        lemma_pow2_unfold(p);
        lemma_pow2_unfold((p - 1) as nat);
        if p > 8 {
            lemma_pow2_strictly_increases(6, (p - 2) as nat);
        }
        if p < 62 {
            lemma_pow2_strictly_increases((p - 2) as nat, 60);
        }
    }

    /// The whole range `[0, 2^precision)` at the given precision.
    pub fn new(precision: u8) -> (r: Self)
        requires
            8 <= precision <= 62,
        ensures
            r.wf(),
            r.quiescent(),
            r.precision == precision,
            r.low == 0,
            r.high == r.whole(),
    {
        proof {
            let p: nat = precision as nat;
            lemma2_to64();
            lemma2_to64_rest();
            lemma_pow2_unfold(p);
            lemma_pow2_unfold((p - 1) as nat);
            if p < 62 {
                lemma_pow2_strictly_increases(p, 62);
            }
            lemma_pow2_strictly_increases((p - 1) as nat, p);
            lemma_pow2_strictly_increases((p - 2) as nat, p);
            lemma_u64_shl_is_mul(1, precision as u64);
            lemma_u64_shl_is_mul(1, (precision - 1) as u64);
            lemma_u64_shl_is_mul(1, (precision - 2) as u64);
            lemma_u64_shl_is_mul(3, (precision - 2) as u64);
        }
        let whole: u64 = 1u64 << (precision as u64);
        let half: u64 = 1u64 << ((precision - 1) as u64);
        let quarter: u64 = 1u64 << ((precision - 2) as u64);
        let three_quarters: u64 = 3u64 << ((precision - 2) as u64);
        Self { low: 0, high: whole, precision, half, quarter, three_quarters }
    }

    /// Narrows the range to the part that the symbol interval
    /// `[symbol_low, symbol_high)` of `cumulative_frequency` takes of it.
    pub fn update_range(&mut self, symbol_low: u64, symbol_high: u64, cumulative_frequency: u64)
        requires
            old(self).wf(),
            symbol_low < symbol_high <= cumulative_frequency,
            cumulative_frequency <= old(self).high - old(self).low,
        ensures
            final(self).wf(),
            final(self).same_marks(old(self)),
            final(self).low == scale_point(
                old(self).low as int,
                old(self).high as int,
                symbol_low as int,
                cumulative_frequency as int,
            ),
            final(self).high == scale_point(
                old(self).low as int,
                old(self).high as int,
                symbol_high as int,
                cumulative_frequency as int,
            ),
            old(self).low <= final(self).low,
            final(self).high <= old(self).high,
    {
        proof {
            lemma_scale_point_strict(
                self.low as int,
                self.high as int,
                symbol_low as int,
                symbol_high as int,
                cumulative_frequency as int,
            );
        }
        let (low, high) = self.calculate_range(symbol_low, symbol_high, cumulative_frequency);
        self.low = low;
        self.high = high;
    }

    /// The bounds that `update_range` would give, the range left as it is.
    pub fn calculate_range(
        &self,
        symbol_low: u64,
        symbol_high: u64,
        cumulative_frequency: u64,
    ) -> (r: (u64, u64))
        requires
            self.wf(),
            symbol_low < symbol_high <= cumulative_frequency,
        ensures
            r.0 == scale_point(
                self.low as int,
                self.high as int,
                symbol_low as int,
                cumulative_frequency as int,
            ),
            r.1 == scale_point(
                self.low as int,
                self.high as int,
                symbol_high as int,
                cumulative_frequency as int,
            ),
            self.low <= r.0 <= r.1 <= self.high,
    {
        proof {
            self.lemma_marks();
            lemma_scale_point_bounds(
                self.low as int,
                self.high as int,
                symbol_low as int,
                cumulative_frequency as int,
            );
            lemma_scale_point_bounds(
                self.low as int,
                self.high as int,
                symbol_high as int,
                cumulative_frequency as int,
            );
            lemma_scale_point_monotonic(
                self.low as int,
                self.high as int,
                symbol_low as int,
                symbol_high as int,
                cumulative_frequency as int,
            );
        }
        let range: u128 = (self.high - self.low) as u128;
        assert(range * symbol_high <= u128::MAX && range * symbol_low <= u128::MAX)
            by (nonlinear_arith)
            requires
                0 <= range <= 0x4000_0000_0000_0000,
                0 <= symbol_low <= symbol_high <= 0xffff_ffff_ffff_ffff,
        ;
        let high: u64 = self.low + ((range * (symbol_high as u128)) / (
        cumulative_frequency as u128)) as u64;
        let low: u64 = self.low + ((range * (symbol_low as u128)) / (
        cumulative_frequency as u128)) as u64;
        (low, high)
    }

    /// Whether the range lies below the half mark.
    pub fn is_bottom_half(&self) -> (b: bool)
        ensures
            b == self.bottom_half(),
    {
        self.high < self.half
    }

    /// Whether the range lies at or above the half mark.
    pub fn is_above_half(&self) -> (b: bool)
        ensures
            b == self.above_half(),
    {
        self.low >= self.half
    }

    /// Whether the range starts above the quarter mark.
    pub fn is_above_quarter(&self) -> (b: bool)
        ensures
            b == self.above_quarter(),
    {
        self.low > self.quarter
    }

    /// Whether the range lies within the middle half of the whole.
    pub fn is_middle_half(&self) -> (b: bool)
        ensures
            b == self.middle_half(),
    {
        self.low >= self.quarter && self.high < self.three_quarters
    }

    /// Doubles a range that lies below the half mark.
    pub fn scale_bottom_half(&mut self)
        requires
            old(self).wf(),
            old(self).bottom_half(),
        ensures
            final(self).wf(),
            final(self).same_marks(old(self)),
            final(self).low == 2 * old(self).low,
            final(self).high == 2 * old(self).high,
    {
        proof {
            self.lemma_marks();
        }
        self.low *= 2;
        self.high *= 2;
    }

    /// Doubles, from the half mark, a range that lies at or above it.
    pub fn scale_above_half(&mut self)
        requires
            old(self).wf(),
            old(self).above_half(),
        ensures
            final(self).wf(),
            final(self).same_marks(old(self)),
            final(self).low == 2 * (old(self).low - old(self).half),
            final(self).high == 2 * (old(self).high - old(self).half),
    {
        proof {
            self.lemma_marks();
        }
        self.low = (self.low - self.half) * 2;
        self.high = (self.high - self.half) * 2;
    }

    /// Doubles, from the quarter mark, a range that lies within the middle half.
    pub fn scale_middle_half(&mut self)
        requires
            old(self).wf(),
            old(self).middle_half(),
        ensures
            final(self).wf(),
            final(self).same_marks(old(self)),
            final(self).low == 2 * (old(self).low - old(self).quarter),
            final(self).high == 2 * (old(self).high - old(self).quarter),
    {
        proof {
            self.lemma_marks();
        }
        self.low = (self.low - self.quarter) * 2;
        self.high = (self.high - self.quarter) * 2;
    }
}

} // verus!
