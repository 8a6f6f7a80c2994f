//! Blocks: a header that commits to a list of transactions, and the hash of
//! that header.

use crate::bytes::bytes_eq;
use crate::crypto::{hash256, spec_hash256};
use crate::serialize::{header_bytes, serialize_block_header};
use crate::transaction::{lemma_tx_views_push, tx_views, Transaction, TransactionView};
use vstd::prelude::*;

verus! {

/// What is hashed for proof-of-work: where the block stands, when it was
/// made, what it follows, and what it commits to.
#[derive(Debug)]
pub struct BlockHeader {
    pub height: u64,
    pub timestamp: i64,
    pub prev_hash: Vec<u8>,
    pub nonce: u64,
    pub target: [u8; 32],
    pub merkle_root: Vec<u8>,
}

/// A header, the transactions it commits to, and the header's hash.
#[derive(Debug)]
pub struct Block {
    pub header: BlockHeader,
    pub transactions: Vec<Transaction>,
    pub hash: Vec<u8>,
}

/// What a header holds.
pub struct BlockHeaderView {
    pub height: u64,
    pub timestamp: i64,
    pub prev_hash: Seq<u8>,
    pub nonce: u64,
    pub target: Seq<u8>,
    pub merkle_root: Seq<u8>,
}

/// What a block holds.
pub struct BlockView {
    pub header: BlockHeaderView,
    pub transactions: Seq<TransactionView>,
    pub hash: Seq<u8>,
}

impl View for BlockHeader {
    type V = BlockHeaderView;

    open spec fn view(&self) -> BlockHeaderView {
        BlockHeaderView {
            height: self.height,
            timestamp: self.timestamp,
            prev_hash: self.prev_hash@,
            nonce: self.nonce,
            target: self.target@,
            merkle_root: self.merkle_root@,
        }
    }
}

impl View for Block {
    type V = BlockView;

    open spec fn view(&self) -> BlockView {
        BlockView {
            header: self.header@,
            transactions: tx_views(self.transactions@),
            hash: self.hash@,
        }
    }
}

/// The contents of a list of blocks.
pub open spec fn block_views(s: Seq<Block>) -> Seq<BlockView> {
    s.map_values(|b: Block| b@)
}

/// The hash of a header: the double SHA-256 of its encoding.
pub open spec fn spec_header_hash(h: BlockHeaderView) -> Seq<u8> {
    spec_hash256(header_bytes(h))
}

impl Clone for BlockHeader {
    fn clone(&self) -> (copy: Self)
        ensures
            copy@ == self@,
    {
        BlockHeader {
            height: self.height,
            timestamp: self.timestamp,
            prev_hash: self.prev_hash.clone(),
            nonce: self.nonce,
            target: self.target,
            merkle_root: self.merkle_root.clone(),
        }
    }
}

impl Clone for Block {
    fn clone(&self) -> (copy: Self)
        ensures
            copy@ == self@,
    {
        let mut transactions: Vec<Transaction> = Vec::new();
        let mut i: usize = 0;
        while i < self.transactions.len()
            invariant
                i <= self.transactions.len(),
                tx_views(transactions@) == self@.transactions.take(i as int),
            decreases self.transactions.len() - i,
        {
            let ghost before = transactions@;
            let copy = self.transactions[i].clone();
            transactions.push(copy);
            proof {
                lemma_tx_views_push(before, copy);
                assert(self@.transactions.take(i + 1) == self@.transactions.take(i as int).push(
                    self@.transactions[i as int],
                ));
            }
            i = i + 1;
        }
        assert(self@.transactions.take(self.transactions.len() as int) == self@.transactions);
        Block { header: self.header.clone(), transactions, hash: self.hash.clone() }
    }
}

impl Block {
    /// The hash of this block's header, computed afresh.
    pub fn hash_header(&self) -> (digest: Vec<u8>)
        ensures
            digest@ == spec_header_hash(self@.header),
            digest@.len() == 32,
    {
        let bytes = serialize_block_header(&self.header);
        hash256(bytes.as_slice())
    }
}

impl BlockHeader {
    /// Whether two headers hold the same.
    pub fn same_as(&self, other: &BlockHeader) -> (same: bool)
        ensures
            same == (self@ == other@),
    {
        self.height == other.height && self.timestamp == other.timestamp && bytes_eq(
            self.prev_hash.as_slice(),
            other.prev_hash.as_slice(),
        ) && self.nonce == other.nonce && bytes_eq(self.target.as_slice(), other.target.as_slice())
            && bytes_eq(self.merkle_root.as_slice(), other.merkle_root.as_slice())
    }
}

impl Block {
    fn same_transactions(&self, other: &Block) -> (same: bool)
        ensures
            same == (self@.transactions == other@.transactions),
    {
        if self.transactions.len() != other.transactions.len() {
            assert(self@.transactions.len() != other@.transactions.len());
            return false;
        }
        let mut i: usize = 0;
        while i < self.transactions.len()
            invariant
                i <= self.transactions.len(),
                self.transactions.len() == other.transactions.len(),
                forall|j: int| 0 <= j < i ==> self@.transactions[j] == other@.transactions[j],
            decreases self.transactions.len() - i,
        {
            assert(self@.transactions[i as int] == self.transactions[i as int]@);
            assert(other@.transactions[i as int] == other.transactions[i as int]@);
            if !self.transactions[i].same_as(&other.transactions[i]) {
                return false;
            }
            i = i + 1;
        }
        assert(self@.transactions =~= other@.transactions);
        true
    }

    /// Whether two blocks hold the same: header, transactions and stored
    /// hash.
    pub fn same_as(&self, other: &Block) -> (same: bool)
        ensures
            same == (self@ == other@),
    {
        bytes_eq(self.hash.as_slice(), other.hash.as_slice()) && self.header.same_as(&other.header)
            && self.same_transactions(other)
    }
}

} // verus!
