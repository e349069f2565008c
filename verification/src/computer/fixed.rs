//! Signed fixed-point arithmetic for burst-length predictions.
//!
//! The scheduler's shortest-remaining-time policy keeps a per-process
//! prediction of remaining runtime (tau) and refines it by exponential
//! smoothing.  Predictions are fractional quantities, so they are held in a
//! fixed-point representation: a value counts `FIXED_SCALE` steps per time
//! unit.  Predictions may go negative (a prediction is not a counter), and
//! every operation here is total: results saturate at the representation's
//! bounds instead of overflowing.

use vstd::prelude::*;

verus! {

/// Number of fixed-point steps per whole time unit.
pub const FIXED_SCALE: i64 = 65536;

/// Raw representation of the default prediction (ten time units) that seeds
/// the table entry of a process id seen for the first time.
pub const INITIAL_TAU_RAW: i64 = 10 * 65536;

/// A signed fixed-point quantity: `raw` counts `FIXED_SCALE`-ths of a time
/// unit.  Used for remaining-time predictions and for smoothing weights.
#[derive(Clone, Copy, Debug, PartialEq, Eq, Structural)]
pub struct Fixed {
    pub raw: i64,
}

/// Clamps a mathematical integer into the range of `i64`.
pub open spec fn spec_clamp_i64(x: int) -> int {
    if x > i64::MAX as int {
        i64::MAX as int
    } else if x < i64::MIN as int {
        i64::MIN as int
    } else {
        x
    }
}

/// Exact weighted average `alpha * t + (1 - alpha) * m` over raw fixed-point
/// values: `a` is the weight (scaled), `t` a whole number of time units and
/// `m` a raw fixed-point value.  Division is Euclidean, so the fractional
/// part rounds toward negative infinity.
pub open spec fn spec_weighted(a: int, t: int, m: int) -> int {
    a * t + (FIXED_SCALE as int - a) * m / (FIXED_SCALE as int)
}

/// The smoothed prediction: the weighted average, saturated into `i64`.
pub open spec fn spec_smooth(a: int, t: int, m: int) -> int {
    spec_clamp_i64(spec_weighted(a, t, m))
}

/// One whole unit subtracted, saturating at the lower bound.
pub open spec fn spec_dec_unit(x: int) -> int {
    if x - FIXED_SCALE as int >= i64::MIN as int {
        x - FIXED_SCALE as int
    } else {
        i64::MIN as int
    }
}

impl Fixed {
    /// A smoothing weight must lie between zero and one.
    pub open spec fn is_weight(self) -> bool {
        0 <= self.raw <= FIXED_SCALE
    }

    /// Subtracts one whole time unit, saturating instead of overflowing.
    pub fn dec_unit(self) -> (r: Fixed)
        ensures
            r.raw as int == spec_dec_unit(self.raw as int),
    {
        if self.raw >= i64::MIN + FIXED_SCALE {
            Fixed { raw: self.raw - FIXED_SCALE }
        } else {
            Fixed { raw: i64::MIN }
        }
    }

    /// Exponentially smoothed prediction: `alpha` weighs the observed total
    /// runtime `actual` against the previous prediction `old_tau`.
    pub fn smooth(alpha: Fixed, actual: usize, old_tau: Fixed) -> (r: Fixed)
        requires
            alpha.is_weight(),
        ensures
            r.raw as int == spec_smooth(alpha.raw as int, actual as int, old_tau.raw as int),
    {
        let a: u128 = alpha.raw as u128;
        let t: u128 = actual as u64 as u128;
        assert(a * t <= 65536 * (u64::MAX as int)) by (nonlinear_arith)
            requires
                a <= 65536,
                t <= u64::MAX,
        ;
        let first: u128 = a * t;
        let w: u128 = 65536 - a;
        // Shift the (possibly negative) old prediction into unsigned range,
        // divide there, and shift back: the offset is a multiple of the
        // scale, so the Euclidean quotient moves by exactly `w << 47`.
        let shifted: u128 = (old_tau.raw as i128 + 9223372036854775808i128) as u128;
        assert(w * shifted <= 65536 * 0x10000000000000000) by (nonlinear_arith)
            requires
                w <= 65536,
                shifted <= 0x10000000000000000,
        ;
        let prod: u128 = w * shifted;
        let q: u128 = prod / 65536;
        assert(q <= prod) by {
            vstd::arithmetic::div_mod::lemma_div_is_ordered_by_denominator(prod as int, 1, 65536);
        }
        let part: i128 = (q as i128) - (w as i128) * 140737488355328i128;
        let total: i128 = (first as i128) + part;
        proof {
            let ai = a as int;
            let mi = old_tau.raw as int;
            let wi = w as int;
            vstd::arithmetic::div_mod::lemma_hoist_over_denominator(
                wi * mi,
                wi * 140737488355328,
                65536,
            );
            assert(wi * (mi + 9223372036854775808) == wi * mi + (wi * 140737488355328) * 65536)
                by (nonlinear_arith);
            assert(total as int == spec_weighted(ai, t as int, mi));
        }
        if total > 9223372036854775807i128 {
            Fixed { raw: i64::MAX }
        } else if total < -9223372036854775808i128 {
            Fixed { raw: i64::MIN }
        } else {
            Fixed { raw: total as i64 }
        }
    }
}

} // verus!
