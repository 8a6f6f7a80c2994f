//! Proof-of-work: a header hash, read as a 256-bit big-endian number, must
//! not exceed the target.

use crate::block::{spec_header_hash, Block, BlockHeaderView};
use crate::bytes::{be_value, bytes_eq, lemma_be_value_first_difference};
use vstd::prelude::*;

verus! {

/// The proof-of-work rule: a 32-byte hash that, as a number, is at most the
/// target.
pub open spec fn spec_valid_pow(hash: Seq<u8>, target: Seq<u8>) -> bool {
    hash.len() == 32 && be_value(hash) <= be_value(target)
}

/// Whether a header's own hash meets the header's own target.
pub open spec fn header_meets_target(h: BlockHeaderView) -> bool {
    spec_valid_pow(spec_header_hash(h), h.target)
}

/// A block whose stored hash is the hash of its header and meets its target.
pub open spec fn spec_verify_pow(hash: Seq<u8>, h: BlockHeaderView) -> bool {
    hash == spec_header_hash(h) && spec_valid_pow(hash, h.target)
}

/// The header that mining tries at a given timestamp and nonce.
pub open spec fn candidate(h: BlockHeaderView, timestamp: i64, nonce: u64) -> BlockHeaderView {
    BlockHeaderView { timestamp, nonce, ..h }
}

/// The order in which mining tries candidates: all nonces of one timestamp,
/// then the next timestamp from nonce zero.
pub open spec fn tried_before(t: i64, n: u64, t2: i64, n2: u64) -> bool {
    t < t2 || (t == t2 && n < n2)
}

/// Whether the search that starts at `(t0, n0)` visits `(t, n)`.
pub open spec fn in_search(t0: i64, n0: u64, t: i64, n: u64) -> bool {
    t0 < t || (t == t0 && n0 <= n)
}

/// Checks a hash against a target.
pub fn valid_pow(hash: &[u8], target: &[u8; 32]) -> (ok: bool)
    ensures
        ok == spec_valid_pow(hash@, target@),
{
    if hash.len() != 32 {
        return false;
    }
    let mut i: usize = 0;
    while i < 32
        invariant
            hash@.len() == 32,
            target@.len() == 32,
            i <= 32,
            hash@.take(i as int) == target@.take(i as int),
        decreases 32 - i,
    {
        if hash[i] < target[i] {
            proof {
                lemma_be_value_first_difference(hash@, target@, i as int);
            }
            return true;
        }
        if hash[i] > target[i] {
            proof {
                lemma_be_value_first_difference(target@, hash@, i as int);
            }
            return false;
        }
        assert(hash@.take(i + 1) == hash@.take(i as int).push(hash@[i as int]));
        assert(target@.take(i + 1) == target@.take(i as int).push(target@[i as int]));
        i = i + 1;
    }
    assert(hash@.take(32) == hash@);
    assert(target@.take(32) == target@);
    true
}

impl Block {
    /// Whether the stored hash is the header's hash and meets the target.
    pub fn verify_pow(&self) -> (ok: bool)
        ensures
            ok == spec_verify_pow(self.hash@, self@.header),
    {
        let fresh = self.hash_header();
        bytes_eq(self.hash.as_slice(), fresh.as_slice()) && valid_pow(
            self.hash.as_slice(),
            &self.header.target,
        )
    }
}

/// Searches for a header that meets the block's target. Nonces are tried in
/// rising order from the one the header holds; when they run out the
/// timestamp moves on by one second and the nonce starts again at zero.
/// Returns `true` with the first header found and its hash stored, `false`
/// when the whole space up to the last timestamp is exhausted.
pub fn mine(block: &mut Block) -> (found: bool)
    ensures
        final(block)@.transactions == old(block)@.transactions,
        final(block)@.header == candidate(
            old(block)@.header,
            final(block).header.timestamp,
            final(block).header.nonce,
        ),
        in_search(
            old(block).header.timestamp,
            old(block).header.nonce,
            final(block).header.timestamp,
            final(block).header.nonce,
        ),
        forall|t: i64, n: u64|
            in_search(old(block).header.timestamp, old(block).header.nonce, t, n) && tried_before(
                t,
                n,
                final(block).header.timestamp,
                final(block).header.nonce,
            ) ==> !header_meets_target(#[trigger] candidate(old(block)@.header, t, n)),
        found ==> spec_verify_pow(final(block).hash@, final(block)@.header),
        !found ==> final(block).hash@ == old(block).hash@ && final(block).header.timestamp
            == i64::MAX && final(block).header.nonce == u64::MAX && !header_meets_target(
            final(block)@.header,
        ),
{
    loop
        invariant
            block@.transactions == old(block)@.transactions,
            block.hash@ == old(block).hash@,
            block@.header == candidate(
                old(block)@.header,
                block.header.timestamp,
                block.header.nonce,
            ),
            in_search(
                old(block).header.timestamp,
                old(block).header.nonce,
                block.header.timestamp,
                block.header.nonce,
            ),
            forall|t: i64, n: u64|
                in_search(old(block).header.timestamp, old(block).header.nonce, t, n)
                    && tried_before(t, n, block.header.timestamp, block.header.nonce)
                    ==> !header_meets_target(#[trigger] candidate(old(block)@.header, t, n)),
        decreases i64::MAX - block.header.timestamp, u64::MAX - block.header.nonce,
    {
        let hash = block.hash_header();
        if valid_pow(hash.as_slice(), &block.header.target) {
            block.hash = hash;
            return true;
        }
        if block.header.nonce < u64::MAX {
            block.header.nonce = block.header.nonce + 1;
        } else if block.header.timestamp < i64::MAX {
            block.header.timestamp = block.header.timestamp + 1;
            block.header.nonce = 0;
        } else {
            return false;
        }
    }
}

/// A hash that meets a target meets every target that is no smaller.
pub proof fn lemma_pow_monotone(hash: Seq<u8>, target: Seq<u8>, easier: Seq<u8>)
    requires
        spec_valid_pow(hash, target),
        be_value(target) <= be_value(easier),
    ensures
        spec_valid_pow(hash, easier),
{
}

} // verus!
