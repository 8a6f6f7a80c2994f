//! Suppression of replays: a frame that has been seen within the time to
//! live is not handled again, whichever transport brings it.

use crate::bytes::bytes_eq;
use crate::crypto::{sha256, spec_digest};
use vstd::prelude::*;

verus! {

struct Seen {
    digest: Vec<u8>,
    at: u64,
}

/// The digests of the frames seen lately, each with the time it came.
pub struct MessageDeduplicator {
    seen: Vec<Seen>,
    ttl: u64,
}

/// The time that has passed at `now` since `at`; none where the clock ran
/// back.
pub open spec fn elapsed(at: u64, now: u64) -> u64 {
    if now <= at {
        0
    } else {
        (now - at) as u64
    }
}

/// Whether a frame seen at `at` is still remembered at `now`: less than the
/// time to live has passed. With a time to live of zero nothing is.
pub open spec fn remembered(at: u64, now: u64, ttl: u64) -> bool {
    elapsed(at, now) < ttl
}

/// The entries that are still remembered at `now`, in order.
pub open spec fn unexpired(seen: Seq<(Seq<u8>, u64)>, now: u64, ttl: u64) -> Seq<(Seq<u8>, u64)>
    decreases seen.len(),
{
    if seen.len() == 0 {
        Seq::empty()
    } else {
        let rest = unexpired(seen.drop_last(), now, ttl);
        if remembered(seen.last().1, now, ttl) {
            rest.push(seen.last())
        } else {
            rest
        }
    }
}

/// Whether a digest is among the entries.
pub open spec fn has_digest(seen: Seq<(Seq<u8>, u64)>, digest: Seq<u8>) -> bool {
    exists|i: int| 0 <= i < seen.len() && (#[trigger] seen[i]).0 == digest
}

impl View for MessageDeduplicator {
    type V = Seq<(Seq<u8>, u64)>;

    closed spec fn view(&self) -> Seq<(Seq<u8>, u64)> {
        self.seen@.map_values(|s: Seen| (s.digest@, s.at))
    }
}

impl MessageDeduplicator {
    /// The time for which a frame is remembered.
    pub closed spec fn ttl(&self) -> u64 {
        self.ttl
    }

    /// A deduplicator that remembers every frame for `ttl` units of time.
    pub fn new(ttl: u64) -> (d: Self)
        ensures
            d@ == Seq::<(Seq<u8>, u64)>::empty(),
            d.ttl() == ttl,
    {
        let d = MessageDeduplicator { seen: Vec::new(), ttl };
        assert(d@ =~= Seq::<(Seq<u8>, u64)>::empty());
        d
    }

    /// Forgets what has expired at `now`, then tells whether `data` is new
    /// and remembers it if it is.
    pub fn check_and_insert(&mut self, data: &[u8], now: u64) -> (fresh: bool)
        ensures
            final(self).ttl() == old(self).ttl(),
            fresh == !has_digest(unexpired(old(self)@, now, old(self).ttl()), spec_digest(data@)),
            final(self)@ == if fresh {
                unexpired(old(self)@, now, old(self).ttl()).push((spec_digest(data@), now))
            } else {
                unexpired(old(self)@, now, old(self).ttl())
            },
    {
        let digest = sha256(data);
        let ghost all = self@;
        let mut taken: Vec<Seen> = Vec::new();
        std::mem::swap(&mut self.seen, &mut taken);
        let mut kept: Vec<Seen> = Vec::new();
        let mut found = false;
        let mut i: usize = 0;
        let ghost lines = |s: Seen| (s.digest@, s.at);
        assert(all.take(0) =~= Seq::<(Seq<u8>, u64)>::empty());
        assert(kept@.map_values(lines) =~= Seq::<(Seq<u8>, u64)>::empty());
        while i < taken.len()
            invariant
                i <= taken.len(),
                lines == |s: Seen| (s.digest@, s.at),
                all == taken@.map_values(lines),
                self.ttl == old(self).ttl,
                kept@.map_values(lines) == unexpired(all.take(i as int), now, self.ttl),
                found == has_digest(kept@.map_values(lines), digest@),
            decreases taken.len() - i,
        {
            let ghost before = kept@.map_values(lines);
            proof {
                assert(all.take(i + 1).drop_last() == all.take(i as int));
                assert(all.take(i + 1).last() == (taken[i as int].digest@, taken[i as int].at));
            }
            let passed: u64 = if now <= taken[i].at {
                0
            } else {
                now - taken[i].at
            };
            if passed < self.ttl {
                let same = bytes_eq(taken[i].digest.as_slice(), digest.as_slice());
                let entry = Seen { digest: taken[i].digest.clone(), at: taken[i].at };
                kept.push(entry);
                proof {
                    let after = kept@.map_values(lines);
                    assert(after =~= before.push((entry.digest@, entry.at)));
                    if same {
                        assert(after[after.len() - 1].0 == digest@);
                    }
                    if has_digest(before, digest@) {
                        let j = choose|j: int|
                            0 <= j < before.len() && (#[trigger] before[j]).0 == digest@;
                        assert(after[j].0 == digest@);
                    }
                    if has_digest(after, digest@) && !same {
                        let j = choose|j: int|
                            0 <= j < after.len() && (#[trigger] after[j]).0 == digest@;
                        assert(before[j].0 == digest@);
                    }
                }
                if same {
                    found = true;
                }
            }
            i = i + 1;
        }
        assert(all.take(taken.len() as int) == all);
        if !found {
            let ghost before = kept@.map_values(lines);
            let entry = Seen { digest, at: now };
            kept.push(entry);
            assert(kept@.map_values(lines) =~= before.push((entry.digest@, now)));
        }
        self.seen = kept;
        !found
    }
}

} // verus!
