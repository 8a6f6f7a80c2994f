//! The genesis block: hard-coded, the same on every node.

use crate::block::{Block, BlockHeader, BlockHeaderView, BlockView};
use crate::bytes::{bytes_to_vec, zeros};
use crate::merkle::spec_merkle_root;
use crate::params::{max_target, spec_max_target, INITIAL_REWARD};
use crate::pow::spec_verify_pow;
use crate::transaction::{
    lemma_output_views_push, output_views, Transaction, TransactionView, TxInput, TxOutput,
    TxOutputView,
};
use vstd::prelude::*;

verus! {

/// The time stamp of the genesis block.
pub const GENESIS_TIMESTAMP: i64 = 1_730_000_000;

/// The address that the genesis output is locked to: the SHA-256 digest of
/// the inscription "Revelation".
pub open spec fn spec_genesis_address() -> Seq<u8> {
    seq![
        0x00u8, 0xf8, 0x52, 0x05, 0xcd, 0x52, 0x66, 0x7b, 0x22, 0x70, 0x45, 0x32, 0xbe, 0xea, 0xce,
        0xb2, 0xbe, 0x43, 0xe2, 0x06, 0xfe, 0x0c, 0xd1, 0xbc, 0x59, 0xde, 0xb7, 0xc4, 0x7a, 0x0c,
        0x00, 0xe2,
    ]
}

/// The merkle root in the genesis header.
pub open spec fn spec_genesis_merkle_root() -> Seq<u8> {
    seq![
        0xa8u8, 0x10, 0x9c, 0x29, 0xb9, 0x11, 0x06, 0x57, 0x89, 0x43, 0x60, 0x65, 0x36, 0xeb, 0x00,
        0x8a, 0x85, 0x25, 0x38, 0x00, 0x1f, 0x87, 0x66, 0xa9, 0xa1, 0xa4, 0xd5, 0x22, 0xe3, 0x91,
        0x82, 0x5d,
    ]
}

/// The hash of the genesis header.
pub open spec fn spec_genesis_hash() -> Seq<u8> {
    seq![
        0xecu8, 0x2a, 0x1e, 0x2a, 0x40, 0x88, 0x02, 0xe9, 0x00, 0x88, 0x68, 0xe8, 0xe6, 0xf1, 0x61,
        0xf6, 0xfd, 0xd2, 0xa9, 0x22, 0x31, 0x52, 0x4a, 0xb7, 0x0b, 0x2c, 0xb3, 0x55, 0x0c, 0x30,
        0xf8, 0x84,
    ]
}

/// The one transaction of the genesis block: no inputs, the initial reward
/// to the genesis address.
pub open spec fn spec_revelation_tx() -> TransactionView {
    TransactionView {
        inputs: Seq::empty(),
        outputs: seq![TxOutputView { value: INITIAL_REWARD, pubkey_hash: spec_genesis_address() }],
    }
}

/// The genesis block.
pub open spec fn spec_genesis() -> BlockView {
    BlockView {
        header: BlockHeaderView {
            height: 0,
            timestamp: GENESIS_TIMESTAMP,
            prev_hash: zeros(32),
            nonce: 0,
            target: spec_max_target(),
            merkle_root: spec_genesis_merkle_root(),
        },
        transactions: seq![spec_revelation_tx()],
        hash: spec_genesis_hash(),
    }
}

/// Whether the hard-coded genesis block is what it claims: its hash is its
/// header's and meets the target, and its header commits to its transaction.
pub open spec fn genesis_verifies() -> bool {
    &&& spec_verify_pow(spec_genesis().hash, spec_genesis().header)
    &&& spec_merkle_root(spec_genesis().transactions) == spec_genesis().header.merkle_root
}

/// The hash of the genesis header.
pub fn genesis_hash() -> (hash: [u8; 32])
    ensures
        hash@ == spec_genesis_hash(),
{
    let hash: [u8; 32] = [
        0xec, 0x2a, 0x1e, 0x2a, 0x40, 0x88, 0x02, 0xe9, 0x00, 0x88, 0x68, 0xe8, 0xe6, 0xf1, 0x61,
        0xf6, 0xfd, 0xd2, 0xa9, 0x22, 0x31, 0x52, 0x4a, 0xb7, 0x0b, 0x2c, 0xb3, 0x55, 0x0c, 0x30,
        0xf8, 0x84,
    ];
    assert(hash@ =~= spec_genesis_hash());
    hash
}

/// The one transaction of the genesis block.
pub fn revelation_tx() -> (tx: Transaction)
    ensures
        tx@ == spec_revelation_tx(),
{
    let address: [u8; 32] = [
        0x00, 0xf8, 0x52, 0x05, 0xcd, 0x52, 0x66, 0x7b, 0x22, 0x70, 0x45, 0x32, 0xbe, 0xea, 0xce,
        0xb2, 0xbe, 0x43, 0xe2, 0x06, 0xfe, 0x0c, 0xd1, 0xbc, 0x59, 0xde, 0xb7, 0xc4, 0x7a, 0x0c,
        0x00, 0xe2,
    ];
    assert(address@ =~= spec_genesis_address());
    let inputs: Vec<TxInput> = Vec::new();
    let mut outputs: Vec<TxOutput> = Vec::new();
    let output = TxOutput { value: INITIAL_REWARD, pubkey_hash: bytes_to_vec(address.as_slice()) };
    outputs.push(output);
    let tx = Transaction { inputs, outputs };
    proof {
        lemma_output_views_push(Seq::empty(), output);
        assert(output_views(Seq::<TxOutput>::empty()) =~= Seq::<TxOutputView>::empty());
        assert(tx@.inputs =~= spec_revelation_tx().inputs);
        assert(tx@.outputs =~= spec_revelation_tx().outputs);
    }
    tx
}

/// The genesis block, with its stored hash and merkle root.
pub fn genesis_block() -> (genesis: Block)
    ensures
        genesis@ == spec_genesis(),
{
    let root: [u8; 32] = [
        0xa8, 0x10, 0x9c, 0x29, 0xb9, 0x11, 0x06, 0x57, 0x89, 0x43, 0x60, 0x65, 0x36, 0xeb, 0x00,
        0x8a, 0x85, 0x25, 0x38, 0x00, 0x1f, 0x87, 0x66, 0xa9, 0xa1, 0xa4, 0xd5, 0x22, 0xe3, 0x91,
        0x82, 0x5d,
    ];
    assert(root@ =~= spec_genesis_merkle_root());
    let none: [u8; 32] = [0u8; 32];
    assert(none@ =~= zeros(32));
    let hash = genesis_hash();
    let tx = revelation_tx();
    let mut transactions: Vec<Transaction> = Vec::new();
    transactions.push(tx);
    let genesis = Block {
        header: BlockHeader {
            height: 0,
            timestamp: GENESIS_TIMESTAMP,
            prev_hash: bytes_to_vec(none.as_slice()),
            nonce: 0,
            target: max_target(),
            merkle_root: bytes_to_vec(root.as_slice()),
        },
        transactions,
        hash: bytes_to_vec(hash.as_slice()),
    };
    proof {
        crate::transaction::lemma_tx_views_push(Seq::empty(), tx);
        assert(crate::transaction::tx_views(Seq::<Transaction>::empty()) =~= Seq::<
            TransactionView,
        >::empty());
        assert(genesis@.transactions =~= spec_genesis().transactions);
    }
    genesis
}

} // verus!
