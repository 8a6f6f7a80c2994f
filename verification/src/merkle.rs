//! The merkle root that a header commits to: transaction identifiers hashed
//! pairwise, level by level, up to a single digest.

use crate::bytes::{write_raw, zeros};
use crate::crypto::{hash256, spec_hash256};
use crate::serialize::tx_bytes;
use crate::transaction::{spec_txid, tx_views, Transaction, TransactionView};
use crate::unique_encoding::{encodable, lemma_encoding_injective};
use vstd::prelude::*;

verus! {

/// The contents of a list of byte strings.
pub open spec fn byte_views(s: Seq<Vec<u8>>) -> Seq<Seq<u8>> {
    s.map_values(|v: Vec<u8>| v@)
}

/// The leaves of the tree: the identifier of each transaction, in order.
pub open spec fn leaf_hashes(txs: Seq<TransactionView>) -> Seq<Seq<u8>> {
    txs.map_values(|t: TransactionView| spec_txid(t))
}

/// The right-hand partner of the node at even index `i`: its neighbour, or
/// the node itself where the level has odd length.
pub open spec fn partner(level: Seq<Seq<u8>>, i: int) -> Seq<u8> {
    if i + 1 < level.len() {
        level[i + 1]
    } else {
        level[i]
    }
}

/// One level up: each pair of neighbours hashed together.
pub open spec fn merkle_level(level: Seq<Seq<u8>>) -> Seq<Seq<u8>> {
    Seq::new(
        ((level.len() + 1) / 2) as nat,
        |k: int| spec_hash256(level[2 * k] + partner(level, 2 * k)),
    )
}

/// The root above a level: the level itself when it is a single node, 32 zero
/// bytes when it is empty.
pub open spec fn merkle_fold(level: Seq<Seq<u8>>) -> Seq<u8>
    decreases level.len(),
{
    if level.len() == 0 {
        zeros(32)
    } else if level.len() == 1 {
        level[0]
    } else {
        merkle_fold(merkle_level(level))
    }
}

/// The merkle root of an ordered list of transactions.
pub open spec fn spec_merkle_root(txs: Seq<TransactionView>) -> Seq<u8> {
    merkle_fold(leaf_hashes(txs))
}

/// Every node of a level is a 32-byte digest.
pub open spec fn all_digests(level: Seq<Seq<u8>>) -> bool {
    forall|i: int| 0 <= i < level.len() ==> (#[trigger] level[i]).len() == 32
}

/// Two different byte strings with one double SHA-256 digest.
pub open spec fn hash_collision() -> bool {
    exists|a: Seq<u8>, b: Seq<u8>| a != b && #[trigger] spec_hash256(a) == #[trigger] spec_hash256(b)
}

fn next_level(level: &Vec<Vec<u8>>) -> (next: Vec<Vec<u8>>)
    ensures
        byte_views(next@) == merkle_level(byte_views(level@)),
{
    let n = level.len();
    let ghost views = byte_views(level@);
    let mut next: Vec<Vec<u8>> = Vec::new();
    let mut i: usize = 0;
    while i < n
        invariant
            n == level.len(),
            views == byte_views(level@),
            i <= n,
            i % 2 == 0 || i == n,
            next.len() == (i + 1) / 2,
            forall|k: int| 0 <= k < next.len() ==> (#[trigger] next@[k])@ == merkle_level(views)[k],
        decreases n - i,
    {
        let mut buf: Vec<u8> = Vec::new();
        write_raw(level[i].as_slice(), &mut buf);
        if n - i >= 2 {
            write_raw(level[i + 1].as_slice(), &mut buf);
        } else {
            write_raw(level[i].as_slice(), &mut buf);
        }
        assert(buf@ == views[i as int] + partner(views, i as int));
        let digest = hash256(buf.as_slice());
        next.push(digest);
        i = if n - i >= 2 {
            i + 2
        } else {
            n
        };
    }
    assert(byte_views(next@) =~= merkle_level(views));
    next
}

/// Computes the merkle root of `txs`; 32 zero bytes for no transactions.
pub fn merkle_root(txs: &[Transaction]) -> (root: Vec<u8>)
    ensures
        root@ == spec_merkle_root(tx_views(txs@)),
        root@.len() == 32,
{
    if txs.len() == 0 {
        let z: [u8; 32] = [0u8; 32];
        let mut root: Vec<u8> = Vec::new();
        write_raw(z.as_slice(), &mut root);
        assert(root@ =~= zeros(32));
        assert(leaf_hashes(tx_views(txs@)).len() == 0);
        return root;
    }
    let ghost leaves = leaf_hashes(tx_views(txs@));
    let mut level: Vec<Vec<u8>> = Vec::new();
    let mut i: usize = 0;
    while i < txs.len()
        invariant
            i <= txs.len(),
            leaves == leaf_hashes(tx_views(txs@)),
            level.len() == i,
            forall|k: int| 0 <= k < i ==> (#[trigger] level@[k])@ == leaves[k],
        decreases txs.len() - i,
    {
        let id = txs[i].txid();
        level.push(id);
        i = i + 1;
    }
    assert(byte_views(level@) =~= leaves);
    while level.len() > 1
        invariant
            level.len() >= 1,
            merkle_fold(byte_views(level@)) == merkle_fold(leaves),
            all_digests(byte_views(level@)),
        decreases level.len(),
    {
        let up = next_level(&level);
        proof {
            let below = byte_views(level@);
            assert(byte_views(up@).len() == up@.len());
            assert(merkle_level(below).len() == (below.len() + 1) / 2);
            assert(merkle_fold(below) == merkle_fold(merkle_level(below)));
        }
        level = up;
    }
    let root = level.pop().unwrap();
    root
}

/// No transactions, no tree: the root is 32 zero bytes.
pub proof fn lemma_merkle_root_of_nothing()
    ensures
        spec_merkle_root(Seq::empty()) == zeros(32),
{
    assert(leaf_hashes(Seq::empty()).len() == 0);
}

/// One level is injective on levels of one length, up to a hash collision.
pub proof fn lemma_merkle_level_injective(a: Seq<Seq<u8>>, b: Seq<Seq<u8>>)
    requires
        a.len() == b.len(),
        all_digests(a),
        all_digests(b),
        merkle_level(a) == merkle_level(b),
    ensures
        a == b || hash_collision(),
{
    if !hash_collision() {
        assert forall|i: int| 0 <= i < a.len() implies a[i] == b[i] by {
            let k = i / 2;
            let x = a[2 * k] + partner(a, 2 * k);
            let y = b[2 * k] + partner(b, 2 * k);
            assert(merkle_level(a)[k] == spec_hash256(x));
            assert(merkle_level(b)[k] == spec_hash256(y));
            assert(x == y);
            assert(x.subrange(0, 32) == a[2 * k]);
            assert(y.subrange(0, 32) == b[2 * k]);
            assert(x.subrange(32, 64) == partner(a, 2 * k));
            assert(y.subrange(32, 64) == partner(b, 2 * k));
        }
        assert(a =~= b);
    }
}

/// Two lists of digests of one length with one root are the same list,
/// unless double SHA-256 collides somewhere.
pub proof fn lemma_merkle_fold_injective(a: Seq<Seq<u8>>, b: Seq<Seq<u8>>)
    requires
        a.len() == b.len(),
        all_digests(a),
        all_digests(b),
        merkle_fold(a) == merkle_fold(b),
    ensures
        a == b || hash_collision(),
    decreases a.len(),
{
    if a.len() == 0 {
        assert(a =~= b);
    } else if a.len() == 1 {
        assert(a =~= b);
    } else {
        lemma_merkle_fold_injective(merkle_level(a), merkle_level(b));
        if !hash_collision() {
            lemma_merkle_level_injective(a, b);
        }
    }
}

/// Two lists of as many transactions with one merkle root hold, place by
/// place, transactions of one encoding, unless double SHA-256 collides.
/// Lists of different lengths are not covered: a list of odd length and the
/// same list with its last transaction repeated have the same root.
pub proof fn lemma_merkle_root_injective(a: Seq<TransactionView>, b: Seq<TransactionView>)
    requires
        a.len() == b.len(),
        spec_merkle_root(a) == spec_merkle_root(b),
    ensures
        hash_collision() || forall|i: int|
            0 <= i < a.len() ==> tx_bytes(#[trigger] a[i]) == tx_bytes(b[i]),
{
    lemma_merkle_fold_injective(leaf_hashes(a), leaf_hashes(b));
    if !hash_collision() {
        assert forall|i: int| 0 <= i < a.len() implies tx_bytes(#[trigger] a[i]) == tx_bytes(
            b[i],
        ) by {
            assert(leaf_hashes(a)[i] == spec_hash256(tx_bytes(a[i])));
            assert(leaf_hashes(b)[i] == spec_hash256(tx_bytes(b[i])));
        }
    }
}

/// Two lists of as many transactions, all of them encodable,
/// with one merkle root are the same list, unless double SHA-256 collides:
/// the root commits to what the transactions hold and to their order.
pub proof fn lemma_merkle_root_commits(a: Seq<TransactionView>, b: Seq<TransactionView>)
    requires
        a.len() == b.len(),
        forall|i: int| 0 <= i < a.len() ==> encodable(#[trigger] a[i]),
        forall|i: int| 0 <= i < b.len() ==> encodable(#[trigger] b[i]),
        spec_merkle_root(a) == spec_merkle_root(b),
    ensures
        a == b || hash_collision(),
{
    lemma_merkle_root_injective(a, b);
    if !hash_collision() {
        assert forall|i: int| 0 <= i < a.len() implies a[i] == b[i] by {
            assert(tx_bytes(a[i]) == tx_bytes(b[i]));
            lemma_encoding_injective(a[i], b[i]);
        }
        assert(a =~= b);
    }
}

} // verus!
