//! The decisions of the node driver: what to do about a message, when
//! syncing is over, and what a new block means for the pool.

use crate::block::{block_views, Block, BlockView};
use crate::block_validation::BlockError;
use crate::chain::{BlockOutcome, Blockchain, OutcomeKind};
use crate::mempool::{
    orphan_txs, spec_resurrect, without_confirmed, Mempool, MempoolEntryView,
};
use crate::merkle::leaf_hashes;
use crate::message::NetworkMessage;
use crate::params::PROTOCOL_VERSION;
use crate::transaction::{lemma_tx_views_push, tx_views, Transaction, TransactionView};
use crate::utxo::UtxoMap;
use vstd::prelude::*;

verus! {

/// Most addresses in one `Addr` message.
pub const MAX_ADDRS: usize = 32;

/// The time without a new block, in milliseconds, after which a syncing
/// node takes itself to be in step.
pub const SYNC_QUIET_MILLIS: u64 = 3000;

/// What the driver does about a message.
#[derive(Debug)]
pub enum PeerAction {
    /// Nothing.
    Nothing,
    /// Closes the connection: the peer speaks another protocol version.
    Disconnect,
    /// Sends a message back.
    Reply(NetworkMessage),
    /// Streams the active chain from a height on, in order.
    SendBlocks { from_height: u64 },
    /// Tries to reach the peers at these addresses.
    Connect(Vec<String>),
    /// Hands the block to the chain.
    AcceptBlock(Block),
    /// Hands the transaction to the pool.
    AcceptTransaction(Transaction),
}

/// The first `MAX_ADDRS` of the known peers.
pub fn advertised(peers: &Vec<String>) -> (list: Vec<String>)
    ensures
        list@ == peers@.take(if peers@.len() < MAX_ADDRS { peers@.len() as int } else { MAX_ADDRS as int }),
{
    let mut list: Vec<String> = Vec::new();
    let mut i: usize = 0;
    while i < peers.len() && i < MAX_ADDRS
        invariant
            i <= peers.len(),
            i <= MAX_ADDRS,
            list@ == peers@.take(i as int),
        decreases peers.len() - i,
    {
        list.push(peers[i].clone());
        assert(peers@.take(i + 1) =~= peers@.take(i as int).push(peers@[i as int]));
        i = i + 1;
    }
    list
}

/// Decides what to do about a message from a peer. The answer depends on
/// the message, the local height and the peers known, and on nothing else;
/// both states of the node answer alike.
pub fn handle_message(msg: NetworkMessage, local_height: u64, peers: &Vec<String>) -> (action:
    PeerAction)
    ensures
        match msg {
            NetworkMessage::Hello { version, height, agent } => if version != PROTOCOL_VERSION {
                action is Disconnect
            } else if height > local_height {
                action matches PeerAction::Reply(NetworkMessage::SyncRequest { from_height })
                    && from_height == local_height
            } else {
                action is Nothing
            },
            NetworkMessage::GetAddr => action matches PeerAction::Reply(NetworkMessage::Addr(list))
                && list@ == peers@.take(
                if peers@.len() < MAX_ADDRS {
                    peers@.len() as int
                } else {
                    MAX_ADDRS as int
                },
            ),
            NetworkMessage::Addr(addrs) => action matches PeerAction::Connect(list) && list@
                == addrs@.take(
                if addrs@.len() < MAX_ADDRS {
                    addrs@.len() as int
                } else {
                    MAX_ADDRS as int
                },
            ),
            NetworkMessage::SyncRequest { from_height } => action matches PeerAction::SendBlocks {
                from_height: from,
            } && from == from_height,
            NetworkMessage::Block(block) => action matches PeerAction::AcceptBlock(b) && b == block,
            NetworkMessage::Transaction(tx) => action matches PeerAction::AcceptTransaction(t) && t
                == tx,
            NetworkMessage::Ping => action matches PeerAction::Reply(NetworkMessage::Pong),
            NetworkMessage::Pong => action is Nothing,
        },
{
    match msg {
        NetworkMessage::Hello { version, height, agent } => {
            if version != PROTOCOL_VERSION {
                PeerAction::Disconnect
            } else if height > local_height {
                PeerAction::Reply(NetworkMessage::SyncRequest { from_height: local_height })
            } else {
                PeerAction::Nothing
            }
        },
        NetworkMessage::GetAddr => PeerAction::Reply(NetworkMessage::Addr(advertised(peers))),
        NetworkMessage::Addr(addrs) => PeerAction::Connect(advertised(&addrs)),
        NetworkMessage::SyncRequest { from_height } => PeerAction::SendBlocks { from_height },
        NetworkMessage::Block(block) => PeerAction::AcceptBlock(block),
        NetworkMessage::Transaction(tx) => PeerAction::AcceptTransaction(tx),
        NetworkMessage::Ping => PeerAction::Reply(NetworkMessage::Pong),
        NetworkMessage::Pong => PeerAction::Nothing,
    }
}

/// The two states of the node.
#[derive(Debug, Clone, Copy, PartialEq, Eq, Structural)]
pub enum NodeMode {
    /// Takes blocks in and does not mine.
    Syncing,
    /// Mines on the tip.
    Normal,
}

/// What the driver remembers to tell when syncing is over.
#[derive(Debug, Clone, Copy)]
pub struct SyncTracker {
    pub mode: NodeMode,
    pub last_height: u64,
    pub last_change: u64,
}

/// The tracker after the driver has looked at the height at `now`: while
/// syncing, a new height restarts the quiet period; once the height has
/// stood for longer than the quiet period and the chain has a block, the
/// node is in step. A node in step stays so.
pub open spec fn spec_observe(t: SyncTracker, height: u64, now: u64) -> SyncTracker {
    if t.mode == NodeMode::Normal {
        t
    } else {
        let last_change = if height != t.last_height {
            now
        } else {
            t.last_change
        };
        let quiet = now > last_change && now - last_change > SYNC_QUIET_MILLIS;
        SyncTracker {
            mode: if quiet && height > 0 {
                NodeMode::Normal
            } else {
                NodeMode::Syncing
            },
            last_height: height,
            last_change,
        }
    }
}

impl SyncTracker {
    /// A node that starts syncing at `now` from the height `height`.
    pub fn new(height: u64, now: u64) -> (t: Self)
        ensures
            t.mode == NodeMode::Syncing,
            t.last_height == height,
            t.last_change == now,
    {
        SyncTracker { mode: NodeMode::Syncing, last_height: height, last_change: now }
    }

    /// Looks at the height at the time `now`, in milliseconds.
    pub fn observe(&mut self, height: u64, now: u64) -> (mode: NodeMode)
        ensures
            *final(self) == spec_observe(*old(self), height, now),
            mode == final(self).mode,
    {
        match self.mode {
            NodeMode::Normal => NodeMode::Normal,
            NodeMode::Syncing => {
                if height != self.last_height {
                    self.last_height = height;
                    self.last_change = now;
                }
                if now > self.last_change && now - self.last_change > SYNC_QUIET_MILLIS && height
                    > 0 {
                    self.mode = NodeMode::Normal;
                }
                self.mode
            },
        }
    }
}

/// What became of a block that the node took in.
#[derive(Debug, Clone, Copy, PartialEq, Eq, Structural)]
pub enum Accepted {
    /// The block was known already.
    Known,
    /// The block is the new tip.
    Extended,
    /// The block is kept on a side branch.
    SideBranch,
    /// The block's branch is the active chain now; the chains share their
    /// first `fork_height` blocks.
    Reorganized { fork_height: usize },
}

impl Accepted {
    /// The kind of this outcome.
    pub open spec fn kind(self) -> OutcomeKind {
        match self {
            Accepted::Known => OutcomeKind::Known,
            Accepted::Extended => OutcomeKind::Extended,
            Accepted::SideBranch => OutcomeKind::SideBranch,
            Accepted::Reorganized { .. } => OutcomeKind::Reorganized,
        }
    }
}

/// The transactions of a list of blocks, in order.
pub open spec fn block_txs(blocks: Seq<BlockView>) -> Seq<TransactionView>
    decreases blocks.len(),
{
    if blocks.len() == 0 {
        Seq::empty()
    } else {
        block_txs(blocks.drop_last()) + blocks.last().transactions
    }
}

/// The pool after a change of the active chain: what the connected blocks
/// confirm leaves it, then the spending transactions of the disconnected
/// blocks are handed to it again, against the unspent outputs `m` of the new
/// tip.
pub open spec fn pool_after(
    pool: Seq<MempoolEntryView>,
    capacity: nat,
    connected: Seq<BlockView>,
    disconnected: Seq<BlockView>,
    m: UtxoMap,
    height: u64,
    now: i64,
) -> Seq<MempoolEntryView> {
    spec_resurrect(
        without_confirmed(pool, leaf_hashes(block_txs(connected))),
        capacity,
        orphan_txs(disconnected),
        m,
        height,
        now,
    )
}

fn collect_block_txs(blocks: &Vec<Block>, from: usize) -> (txs: Vec<Transaction>)
    requires
        from <= blocks.len(),
    ensures
        tx_views(txs@) == block_txs(block_views(blocks@).skip(from as int)),
{
    let ghost all = block_views(blocks@).skip(from as int);
    let mut txs: Vec<Transaction> = Vec::new();
    let mut b: usize = from;
    assert(all.take(0) =~= Seq::<BlockView>::empty());
    assert(tx_views(txs@) =~= Seq::<TransactionView>::empty());
    while b < blocks.len()
        invariant
            from <= b <= blocks.len(),
            all == block_views(blocks@).skip(from as int),
            tx_views(txs@) == block_txs(all.take(b - from)),
        decreases blocks.len() - b,
    {
        let block = &blocks[b];
        let ghost start = tx_views(txs@);
        let mut t: usize = 0;
        proof {
            assert(all.take(b - from + 1).drop_last() == all.take(b - from));
            assert(all.take(b - from + 1).last() == block@);
            assert(block@.transactions.take(0) =~= Seq::<TransactionView>::empty());
            assert(start + Seq::<TransactionView>::empty() =~= start);
        }
        while t < block.transactions.len()
            invariant
                t <= block.transactions.len(),
                tx_views(txs@) == start + block@.transactions.take(t as int),
            decreases block.transactions.len() - t,
        {
            let ghost before = txs@;
            let copy = block.transactions[t].clone();
            txs.push(copy);
            proof {
                lemma_tx_views_push(before, copy);
                assert(block@.transactions.take(t + 1) =~= block@.transactions.take(
                    t as int,
                ).push(copy@));
                assert(tx_views(before).push(copy@) =~= start + block@.transactions.take(t + 1));
            }
            t = t + 1;
        }
        assert(block@.transactions.take(block.transactions.len() as int) == block@.transactions);
        b = b + 1;
    }
    assert(all.take(blocks.len() - from) == all);
    txs
}

/// Hands a block to the chain at the time `now`, in seconds, and lets the
/// pool follow. Where the active chain changes, the pool drops what the
/// connected blocks confirm and is handed the spending transactions of the
/// disconnected blocks again. A refused block changes nothing.
pub fn accept_block(chain: &mut Blockchain, mempool: &mut Mempool, block: Block, now: i64) -> (done:
    Result<Accepted, BlockError>)
    requires
        old(chain).wf(),
        old(mempool).wf(),
    ensures
        final(chain).wf(),
        final(mempool).wf(),
        final(mempool).capacity() == old(mempool).capacity(),
        forall|h: Seq<u8>| old(chain).knows(h) ==> final(chain).knows(h),
        forall|h: Seq<u8>| final(chain).knows(h) ==> old(chain).knows(h) || h == block.hash@,
        forall|b: BlockView| old(chain).holds(b) ==> final(chain).holds(b),
        forall|b: BlockView| final(chain).holds(b) ==> old(chain).holds(b) || b == block@,
        match done {
            Err(e) => {
                &&& old(chain).spec_add(block@, now) == Err::<OutcomeKind, BlockError>(e)
                &&& final(chain).active() == old(chain).active()
                &&& final(chain).utxo_map() == old(chain).utxo_map()
                &&& forall|h: Seq<u8>| final(chain).knows(h) == old(chain).knows(h)
                &&& forall|b: BlockView| final(chain).holds(b) == old(chain).holds(b)
                &&& final(mempool)@ == old(mempool)@
            },
            Ok(accepted) => {
                &&& old(chain).spec_add(block@, now) == Ok::<OutcomeKind, BlockError>(
                    accepted.kind(),
                )
                &&& final(chain).knows(block.hash@)
                &&& accepted is Known || final(chain).holds(block@)
                &&& match accepted {
                    Accepted::Known | Accepted::SideBranch => {
                        &&& final(chain).active() == old(chain).active()
                        &&& final(mempool)@ == old(mempool)@
                    },
                    Accepted::Extended => {
                        &&& final(chain).active() == old(chain).active().push(block@)
                        &&& final(mempool)@ == without_confirmed(
                            old(mempool)@,
                            leaf_hashes(block@.transactions),
                        )
                    },
                    Accepted::Reorganized { fork_height } => {
                        &&& 1 <= fork_height <= old(chain).active().len()
                        &&& fork_height < final(chain).active().len()
                        &&& final(chain).active() == old(chain).ancestry(
                            block.header.prev_hash@,
                        ).push(block@)
                        &&& final(chain).active().take(fork_height as int) == old(
                            chain,
                        ).active().take(fork_height as int)
                        &&& final(mempool)@ == pool_after(
                            old(mempool)@,
                            old(mempool).capacity(),
                            final(chain).active().skip(fork_height as int),
                            old(chain).active().skip(fork_height as int),
                            final(chain).utxo_map(),
                            final(chain).active().len() as u64,
                            now,
                        )
                    },
                }
            },
        },
{
    let ghost shown = block@;
    match chain.validate_and_add_block(block, now) {
        Err(e) => Err(e),
        Ok(BlockOutcome::Known) => Ok(Accepted::Known),
        Ok(BlockOutcome::SideBranch) => Ok(Accepted::SideBranch),
        Ok(BlockOutcome::Extended) => {
            let blocks = chain.blocks();
            let n = blocks.len();
            let tip = &blocks[n - 1];
            assert(tip@ == shown) by {
                assert(block_views(blocks@)[n - 1] == tip@);
            }
            mempool.remove_confirmed(tip.transactions.as_slice());
            Ok(Accepted::Extended)
        },
        Ok(BlockOutcome::Reorganized { disconnected, fork_height }) => {
            let connected = collect_block_txs(chain.blocks(), fork_height);
            mempool.remove_confirmed(connected.as_slice());
            let height = chain.height();
            mempool.resurrect_from_orphans(disconnected, chain.utxos(), height, now);
            Ok(Accepted::Reorganized { fork_height })
        },
    }
}

} // verus!
