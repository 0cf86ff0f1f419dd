//! The rate-of-change policy for diff metrics.
//!
//! A diff metric reports a per-minute rate computed from the current and the
//! previous reading of the same key.  The policy decides, from wall-clock
//! seconds and the two bit patterns, whether a rate may be emitted at all;
//! the floating-point quotient itself is evaluated by the caller from the
//! returned sample.

use vstd::prelude::*;

use crate::fbits::{bits_gt, gt_bits};

verus! {

/// Whether no rate is emitted this cycle: the previous sample is older than
/// 600 seconds, the clock did not advance, or the counter appears to have
/// reset (previous value strictly above the current one).
pub open spec fn rate_suppressed(
    value: u64,
    timestamp: int,
    prev_value: u64,
    prev_timestamp: int,
) -> bool {
    prev_timestamp < timestamp - 600 || timestamp <= prev_timestamp || bits_gt(prev_value, value)
}

/// A rate that passed the policy and is ready to be evaluated as
/// `(value - prev_value) / (elapsed / 60)` in binary64 arithmetic.
#[derive(Clone, Copy, Debug, PartialEq, Eq, Structural)]
pub struct RateSample {
    /// Bit pattern of the current reading.
    pub value: u64,
    /// Bit pattern of the previous reading.
    pub prev_value: u64,
    /// Seconds between the two readings; between 1 and 600.
    pub elapsed: u32,
}

/// Decides whether a rate is emitted for one key this cycle, and with which
/// inputs.  `None` exactly when the policy suppresses the emission.
pub fn calc_diff(value: u64, timestamp: i64, prev_value: u64, prev_timestamp: i64) -> (r: Option<
    RateSample,
>)
    ensures
        r is Some <==> !rate_suppressed(value, timestamp as int, prev_value, prev_timestamp as int),
        r matches Some(p) ==> p.value == value && p.prev_value == prev_value && p.elapsed as int
            == timestamp - prev_timestamp,
{
    let ti = timestamp as i128;
    let pi = prev_timestamp as i128;
    if pi < ti - 600 || ti <= pi || gt_bits(prev_value, value) {
        None
    } else {
        let elapsed = (ti - pi) as u32;
        Some(RateSample { value, prev_value, elapsed })
    }
}

} // verus!
