//! Consensus core of a proof-of-work ledger: canonical encoding, hashing,
//! proof-of-work, difficulty adjustment, the unspent-output set, validation,
//! fork choice, the transaction pool, block assembly, and the decisions of
//! the node driver.

pub mod bigint;
pub mod block;
pub mod block_validation;
pub mod bytes;
pub mod chain;
pub mod crypto;
pub mod dedup;
pub mod difficulty;
pub mod framing;
pub mod genesis;
pub mod mempool;
pub mod merkle;
pub mod message;
pub mod miner;
pub mod node;
pub mod params;
pub mod pow;
pub mod serialize;
pub mod transaction;
pub mod unique_encoding;
pub mod utxo;
pub mod validation;
pub mod wallet;
