//! What peers say to each other.

use crate::block::Block;
use crate::transaction::Transaction;
use vstd::prelude::*;

verus! {

/// A message of the wire protocol.
#[derive(Debug)]
pub enum NetworkMessage {
    /// The first message on a connection.
    Hello { version: u32, height: u64, agent: String },
    /// Asks for known peers.
    GetAddr,
    /// Tells of known peers.
    Addr(Vec<String>),
    /// Asks for the blocks from a height on.
    SyncRequest { from_height: u64 },
    /// Hands over a block.
    Block(Block),
    /// Hands over a transaction.
    Transaction(Transaction),
    /// Asks for a sign of life.
    Ping,
    /// Gives one.
    Pong,
}

} // verus!
