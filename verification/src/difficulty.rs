//! Difficulty adjustment. At every interval boundary the target is rescaled
//! by the time the last interval took, in full 256-bit integer arithmetic,
//! with the time clamped to a factor of four either way.

use crate::bigint::{
    big_div, big_from_bytes_be, big_from_u64, big_le, big_mul, big_to_bytes_be,
};
use crate::block::{Block, BlockView};
use crate::bytes::{
    be_bytes, be_value, lemma_be_bytes_of_value, lemma_be_value_bound,
    lemma_be_value_lower_bound, lemma_be_value_zero_padded, lemma_pow256_monotone, right_align_32,
};
use crate::params::{
    max_target, min_target, spec_max_target, spec_min_target, DIFFICULTY_ADJUSTMENT_INTERVAL,
    EXPECTED_INTERVAL_TIME,
};
use vstd::prelude::*;

verus! {

/// The interval time that the adjustment goes by: the measured time, held
/// between a quarter and four times the expected time.
pub open spec fn clamp_time(actual_time: int) -> int {
    if actual_time < EXPECTED_INTERVAL_TIME / 4 {
        EXPECTED_INTERVAL_TIME / 4
    } else if actual_time > EXPECTED_INTERVAL_TIME * 4 {
        EXPECTED_INTERVAL_TIME * 4
    } else {
        actual_time
    }
}

/// A target held between the hardest and the easiest that the network allows.
pub open spec fn clamp_target(target: nat) -> nat {
    if target > be_value(spec_max_target()) {
        be_value(spec_max_target())
    } else if target < be_value(spec_min_target()) {
        be_value(spec_min_target())
    } else {
        target
    }
}

/// The adjusted target as a number: the old one times the clamped time over
/// the expected time, rounded down, then clamped.
pub open spec fn spec_retarget_value(old_target: nat, actual_time: int) -> nat {
    clamp_target((old_target * clamp_time(actual_time)) as nat / (EXPECTED_INTERVAL_TIME as nat))
}

/// The adjusted target. An interval that took no time, or less, leaves the
/// target as it was.
pub open spec fn spec_retarget(old_target: Seq<u8>, actual_time: int) -> Seq<u8> {
    if actual_time <= 0 {
        old_target
    } else {
        be_bytes(spec_retarget_value(be_value(old_target), actual_time), 32)
    }
}

/// The target that the block after `chain` must carry. It changes only where
/// the new block's height is a multiple of the interval and a full interval
/// lies behind it.
pub open spec fn spec_next_target(chain: Seq<BlockView>) -> Seq<u8> {
    let n = DIFFICULTY_ADJUSTMENT_INTERVAL as int;
    let len = chain.len() as int;
    if len == 0 {
        spec_max_target()
    } else if len < n + 1 || len % n != 0 {
        chain.last().header.target
    } else {
        spec_retarget(
            chain.last().header.target,
            chain.last().header.timestamp - chain[len - n - 1].header.timestamp,
        )
    }
}

/// Rescales a target by the time an interval took.
pub fn retarget(prev_target: &[u8; 32], actual_time: i64) -> (next: [u8; 32])
    ensures
        next@ == spec_retarget(prev_target@, actual_time as int),
{
    if actual_time <= 0 {
        return *prev_target;
    }
    let time: u64 = if actual_time < EXPECTED_INTERVAL_TIME / 4 {
        (EXPECTED_INTERVAL_TIME / 4) as u64
    } else if actual_time > EXPECTED_INTERVAL_TIME * 4 {
        (EXPECTED_INTERVAL_TIME * 4) as u64
    } else {
        actual_time as u64
    };
    let old = big_from_bytes_be(prev_target.as_slice());
    let product = big_mul(&old, &big_from_u64(time));
    let scaled = big_div(&product, &big_from_u64(EXPECTED_INTERVAL_TIME as u64));
    let max = big_from_bytes_be(max_target().as_slice());
    let min = big_from_bytes_be(min_target().as_slice());
    let clamped = if !big_le(&scaled, &max) {
        max
    } else if !big_le(&min, &scaled) {
        min
    } else {
        scaled
    };
    let bytes = big_to_bytes_be(&clamped);
    proof {
        lemma_be_value_bound(spec_max_target());
        lemma_be_value_bound(spec_min_target());
        if bytes@.len() > 32 {
            lemma_be_value_lower_bound(bytes@);
            lemma_pow256_monotone(32, (bytes@.len() - 1) as nat);
        }
    }
    let next = right_align_32(bytes.as_slice());
    proof {
        lemma_be_value_zero_padded((32 - bytes@.len()) as nat, bytes@);
        lemma_be_bytes_of_value(next@);
    }
    next
}

/// The target that the block after `chain` must carry.
pub fn calculate_next_target(chain: &[Block]) -> (target: [u8; 32])
    ensures
        target@ == spec_next_target(crate::block::block_views(chain@)),
{
    let height = chain.len();
    if height == 0 {
        return max_target();
    }
    let last = &chain[height - 1];
    if height < DIFFICULTY_ADJUSTMENT_INTERVAL + 1 || height % DIFFICULTY_ADJUSTMENT_INTERVAL != 0 {
        return last.header.target;
    }
    let first = &chain[height - DIFFICULTY_ADJUSTMENT_INTERVAL - 1];
    let diff: i128 = last.header.timestamp as i128 - first.header.timestamp as i128;
    if diff <= 0 {
        return last.header.target;
    }
    let actual_time: i64 = if diff > i64::MAX as i128 {
        i64::MAX
    } else {
        diff as i64
    };
    retarget(&last.header.target, actual_time)
}

/// An interval that took less than a quarter of the expected time, but some
/// time, counts as a quarter: the target is divided by four and no more.
pub proof fn lemma_retarget_clamp_fast(old_target: nat, actual_time: int)
    requires
        0 < actual_time < EXPECTED_INTERVAL_TIME / 4,
    ensures
        spec_retarget_value(old_target, actual_time) == clamp_target(old_target / 4),
{
    assert((old_target * 302_400) as nat / 1_209_600 == old_target / 4) by (nonlinear_arith);
}

/// The same of the target as bytes: after an interval that took some time
/// but less than a quarter of the expected, the new target is a quarter of
/// the old, within the network's bounds.
pub proof fn lemma_retarget_quarters(old_target: Seq<u8>, actual_time: int)
    requires
        0 < actual_time < EXPECTED_INTERVAL_TIME / 4,
    ensures
        spec_retarget(old_target, actual_time) == be_bytes(
            clamp_target(be_value(old_target) / 4),
            32,
        ),
{
    lemma_retarget_clamp_fast(be_value(old_target), actual_time);
}

/// After an interval that took more than four times the expected time, the
/// new target is four times the old, within the network's bounds.
pub proof fn lemma_retarget_quadruples(old_target: Seq<u8>, actual_time: int)
    requires
        actual_time > EXPECTED_INTERVAL_TIME * 4,
    ensures
        spec_retarget(old_target, actual_time) == be_bytes(
            clamp_target(be_value(old_target) * 4),
            32,
        ),
{
    lemma_retarget_clamp_slow(be_value(old_target), actual_time);
}

/// An interval that took more than four times the expected time counts as
/// four times: the target is multiplied by four and no more.
pub proof fn lemma_retarget_clamp_slow(old_target: nat, actual_time: int)
    requires
        actual_time > EXPECTED_INTERVAL_TIME * 4,
    ensures
        spec_retarget_value(old_target, actual_time) == clamp_target(old_target * 4),
{
    assert((old_target * 4_838_400) as nat / 1_209_600 == old_target * 4) by (nonlinear_arith);
}

} // verus!
