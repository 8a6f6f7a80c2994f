//! Network parameters. Changing any of them forks the chain.

use vstd::prelude::*;

verus! {

/// Seconds that a block is meant to take.
pub const TARGET_BLOCK_TIME: i64 = 600;

/// Blocks between two adjustments of the target.
pub const DIFFICULTY_ADJUSTMENT_INTERVAL: usize = 2016;

/// Seconds that one adjustment interval is meant to take.
pub const EXPECTED_INTERVAL_TIME: i64 = 1_209_600;

/// Blocks that must follow a coinbase before its outputs can be spent.
pub const COINBASE_MATURITY: u64 = 100;

/// Blocks whose timestamps a new block's timestamp is held against.
pub const MEDIAN_TIME_SPAN: usize = 11;

/// Seconds by which a block's timestamp may run ahead of the node's clock.
pub const MAX_FUTURE_DRIFT: i64 = 7_200;

/// Blocks between two halvings of the reward.
pub const HALVING_INTERVAL: u64 = 210_000;

/// The reward of the first blocks, in base units.
pub const INITIAL_REWARD: u64 = 5_000_000_000;

/// Largest encoded block, in bytes.
pub const MAX_BLOCK_SIZE: usize = 1_048_576;

/// Largest transaction that the pool admits, by charged size.
pub const MAX_TX_SIZE: usize = 100_000;

/// Most transactions in a block template, the coinbase included.
pub const MAX_BLOCK_TXS: usize = 2_000;

/// Most charged bytes in a block template, the coinbase included.
pub const MAX_BLOCK_TX_BYTES: usize = 1_000_000;

/// Most transactions that the pool holds.
pub const MAX_MEMPOOL_TXS: usize = 50_000;

/// The version that peers must speak.
pub const PROTOCOL_VERSION: u32 = 3;

/// The easiest target: every 32-byte hash meets it.
pub open spec fn spec_max_target() -> Seq<u8> {
    Seq::new(32, |i: int| 0xffu8)
}

/// The hardest target that an adjustment may set: the number one.
pub open spec fn spec_min_target() -> Seq<u8> {
    Seq::new(32, |i: int| if i == 31 { 1u8 } else { 0u8 })
}

/// The reward that the coinbase of a block at `height` may claim besides
/// fees: the initial reward, halved once per halving interval.
pub open spec fn spec_block_reward(height: u64) -> u64 {
    let halvings = height / HALVING_INTERVAL;
    if halvings >= 64 {
        0
    } else {
        INITIAL_REWARD >> halvings
    }
}

/// The easiest target.
pub fn max_target() -> (t: [u8; 32])
    ensures
        t@ == spec_max_target(),
{
    let t: [u8; 32] = [0xffu8; 32];
    assert(t@ =~= spec_max_target());
    t
}

/// The hardest target that an adjustment may set.
pub fn min_target() -> (t: [u8; 32])
    ensures
        t@ == spec_min_target(),
{
    let mut t: [u8; 32] = [0u8; 32];
    t[31] = 1;
    assert(t@ =~= spec_min_target());
    t
}

/// The reward of a block at `height`.
pub fn block_reward(height: u64) -> (reward: u64)
    ensures
        reward == spec_block_reward(height),
{
    let halvings: u64 = height / HALVING_INTERVAL;
    if halvings >= 64 {
        0
    } else {
        INITIAL_REWARD >> halvings
    }
}

} // verus!
