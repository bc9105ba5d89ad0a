//! Thresholds, counts and times.

use vstd::prelude::*;

use crate::binary64::{whole, wholes_in_order, zero, Binary64};
use crate::proc_io::{capped_product, saturating_product};

verus! {

/// How long records are kept: seven days.
pub const RETAIN_SECS: u64 = 604800;

/// How many episodes a query lists.
pub const MAX_LIST: usize = 400;

/// How many offenders are remembered once there are too many.
pub const MAX_OFFENDERS: usize = 500;

/// How many offenders a query lists.
pub const OFFENDERS_LISTED: usize = 40;

/// The minutes of seven days.
pub const MAX_MINUTES: usize = 10080;

/// The gap between one and the next number, 2^-52.
pub const EPSILON_BITS: u64 = 0x3cb0_0000_0000_0000;

pub open spec fn epsilon() -> Binary64 {
    Binary64 { bits: EPSILON_BITS }
}

/// One more, but no more than 32 bits hold.
pub open spec fn next32(n: u32) -> u32 {
    plus32(n, 1)
}

pub open spec fn plus32(a: u32, b: u32) -> u32 {
    if a + b > u32::MAX {
        u32::MAX
    } else {
        (a + b) as u32
    }
}

pub open spec fn plus64(a: u64, b: u64) -> u64 {
    if a + b > u64::MAX {
        u64::MAX
    } else {
        (a + b) as u64
    }
}

pub open spec fn minus64(a: u64, b: u64) -> u64 {
    if a > b {
        (a - b) as u64
    } else {
        0
    }
}

/// A threshold in percent: 20 for what is no finite number, and within 1 and
/// 100 otherwise.
pub open spec fn held_threshold(value: Binary64) -> Binary64 {
    if !value.finite() {
        whole(20)
    } else {
        within(value, whole(1), whole(100))
    }
}

/// A number held between two others; what is not a number stays.
pub open spec fn within(value: Binary64, low: Binary64, high: Binary64) -> Binary64 {
    if value.below(low) {
        low
    } else if high.below(value) {
        high
    } else {
        value
    }
}

/// A number held between two others.
pub fn clamp(value: &Binary64, low: &Binary64, high: &Binary64) -> (r: Binary64)
    ensures
        r == within(*value, *low, *high),
{
    if value.lt(low) {
        *low
    } else if high.lt(value) {
        *high
    } else {
        *value
    }
}

pub fn clamp_threshold(value: &Binary64) -> (r: Binary64)
    ensures
        r == held_threshold(*value),
{
    if !value.is_finite() {
        return Binary64::from_u64(20);
    }
    clamp(value, &Binary64::from_u64(1), &Binary64::from_u64(100))
}

/// The number, or zero for what is no finite number.
pub open spec fn finite_or_zero(n: Binary64) -> Binary64 {
    if n.finite() {
        n
    } else {
        zero()
    }
}

pub fn finite(n: &Binary64) -> (r: Binary64)
    ensures
        r == finite_or_zero(*n),
{
    if n.is_finite() {
        *n
    } else {
        Binary64::from_bits(0)
    }
}

/// The moment before which records have expired.
pub open spec fn cutoff(now: u64) -> u64 {
    minus64(now, RETAIN_SECS)
}

/// When a minute ends.
pub open spec fn minute_end(bucket: u64) -> u64 {
    plus64(capped_product(bucket as int, 60) as u64, 60)
}

pub(crate) fn end_of_minute(bucket: u64) -> (r: u64)
    ensures
        r == minute_end(bucket),
{
    saturating_product(bucket, 60).saturating_add(60)
}

/// Whether a file that was last changed at this time has expired. The time of
/// one that has none is never past.
pub open spec fn past_keeping(modified: Option<u64>, now: u64) -> bool {
    match modified {
        Some(t) => t < cutoff(now),
        None => false,
    }
}

/// Whether a file that was last changed at this time has expired.
pub fn file_expired(modified: Option<u64>, now: u64) -> (r: bool)
    ensures
        r == past_keeping(modified, now),
{
    match modified {
        Some(t) => t < now.saturating_sub(RETAIN_SECS),
        None => false,
    }
}

/// A threshold that holds is between 1 and 100, whatever was asked for.
pub proof fn threshold_is_held(value: Binary64)
    ensures
        whole(1).at_most(held_threshold(value)),
        held_threshold(value).at_most(whole(100)),
{
    wholes_in_order(1, 20);
    wholes_in_order(20, 100);
    wholes_in_order(1, 100);
}

/// A file that holds a record which has not expired has not expired itself: it
/// was written to no earlier than the record was made.
pub proof fn fresh_files_stay(made: u64, modified: u64, now: u64)
    requires
        made <= modified,
        made >= cutoff(now),
    ensures
        !past_keeping(Some(modified), now),
{
}

} // verus!
