//! Block assembly: a coinbase, the pool's best transactions that are valid
//! at the tip, the target that the chain demands, and a nonce that meets it.

use crate::block::{block_views, Block, BlockHeader, BlockHeaderView, BlockView};
use crate::difficulty::{calculate_next_target, spec_next_target};
use crate::mempool::COINBASE_CHARGE;
use crate::merkle::{merkle_root, spec_merkle_root};
use crate::params::{block_reward, spec_block_reward, MAX_BLOCK_TXS, MAX_BLOCK_TX_BYTES};
use crate::pow::{
    candidate, header_meets_target, in_search, mine, spec_verify_pow, tried_before,
};
use crate::transaction::{
    lemma_tx_views_push, spec_serialized_size, tx_views, Transaction, TransactionView, TxInput,
    TxInputView, TxOutput, TxOutputView,
};
use crate::utxo::{UtxoMap, UtxoSet};
use crate::validation::{check_transaction, output_sum, spec_check_transaction, sum_outputs};
use vstd::prelude::*;

verus! {

/// The coinbase of a block at `height`: no inputs, one output that pays the
/// reward to `address`.
pub open spec fn spec_coinbase(height: u64, address: Seq<u8>) -> TransactionView {
    TransactionView {
        inputs: Seq::empty(),
        outputs: seq![TxOutputView { value: spec_block_reward(height), pubkey_hash: address }],
    }
}

/// The bytes that a transaction is charged for, as the miner counts them.
pub open spec fn charge(tx: TransactionView) -> nat {
    if spec_serialized_size(tx) <= usize::MAX {
        spec_serialized_size(tx)
    } else {
        usize::MAX as nat
    }
}

/// Whether the miner takes a transaction: it spends, and is valid against
/// the unspent outputs at the tip.
pub open spec fn worth_mining(tx: TransactionView, m: UtxoMap, height: u64) -> bool {
    spec_check_transaction(tx, m, height) is Ok
}

/// The transactions that the miner takes from `offered`, in order. The
/// selection ends where the block holds `MAX_BLOCK_TXS` transactions or the
/// next one would take it above `MAX_BLOCK_TX_BYTES`; a transaction that is
/// not valid at the tip is passed over.
pub open spec fn select_txs(
    offered: Seq<TransactionView>,
    m: UtxoMap,
    height: u64,
    count: nat,
    bytes: nat,
) -> Seq<TransactionView>
    decreases offered.len(),
{
    if offered.len() == 0 || count >= MAX_BLOCK_TXS {
        Seq::empty()
    } else {
        let tx = offered.first();
        let rest = offered.drop_first();
        if bytes + charge(tx) > MAX_BLOCK_TX_BYTES {
            Seq::empty()
        } else if !worth_mining(tx, m, height) {
            select_txs(rest, m, height, count, bytes)
        } else {
            seq![tx] + select_txs(rest, m, height, count + 1, bytes + charge(tx))
        }
    }
}

/// The transactions of the block that the miner builds: the coinbase, then
/// the selection.
pub open spec fn spec_block_txs(
    offered: Seq<TransactionView>,
    m: UtxoMap,
    height: u64,
    address: Seq<u8>,
) -> Seq<TransactionView> {
    seq![spec_coinbase(height, address)] + select_txs(
        offered,
        m,
        height,
        1,
        COINBASE_CHARGE as nat,
    )
}

/// The header that the nonce search starts from.
pub open spec fn spec_template_header(
    prev: BlockView,
    chain: Seq<BlockView>,
    txs: Seq<TransactionView>,
    timestamp: i64,
) -> BlockHeaderView {
    BlockHeaderView {
        height: (prev.header.height + 1) as u64,
        timestamp,
        prev_hash: prev.hash,
        nonce: 0,
        target: spec_next_target(chain),
        merkle_root: spec_merkle_root(txs),
    }
}

/// The coinbase of a block at `height` that pays the reward to
/// `miner_pubkey_hash`.
pub fn build_coinbase(height: u64, miner_pubkey_hash: Vec<u8>) -> (tx: Transaction)
    ensures
        tx@ == spec_coinbase(height, miner_pubkey_hash@),
{
    let inputs: Vec<TxInput> = Vec::new();
    let mut outputs: Vec<TxOutput> = Vec::new();
    outputs.push(TxOutput { value: block_reward(height), pubkey_hash: miner_pubkey_hash });
    let tx = Transaction { inputs, outputs };
    proof {
        assert(tx@.inputs =~= Seq::<TxInputView>::empty());
        assert(tx@.outputs =~= spec_coinbase(height, miner_pubkey_hash@).outputs);
    }
    tx
}

/// Builds the transaction list of a block at `height`: the coinbase, then
/// what of `mempool_txs` is valid at the tip and fits.
pub fn assemble_transactions(
    utxos: &UtxoSet,
    mempool_txs: Vec<Transaction>,
    miner_pubkey_hash: Vec<u8>,
    height: u64,
) -> (selected: Vec<Transaction>)
    requires
        utxos.wf(),
    ensures
        tx_views(selected@) == spec_block_txs(
            tx_views(mempool_txs@),
            utxos@,
            height,
            miner_pubkey_hash@,
        ),
{
    let ghost offered = tx_views(mempool_txs@);
    let coinbase = build_coinbase(height, miner_pubkey_hash);
    let mut selected: Vec<Transaction> = Vec::new();
    selected.push(coinbase);
    proof {
        lemma_tx_views_push(Seq::empty(), coinbase);
        assert(tx_views(Seq::<Transaction>::empty()) =~= Seq::<TransactionView>::empty());
        assert(tx_views(selected@) =~= seq![spec_coinbase(height, miner_pubkey_hash@)]);
        assert(offered.skip(0) =~= offered);
    }
    let mut total_bytes: usize = COINBASE_CHARGE;
    let mut i: usize = 0;
    while i < mempool_txs.len() && selected.len() < MAX_BLOCK_TXS
        invariant
            i <= mempool_txs.len(),
            utxos.wf(),
            offered == tx_views(mempool_txs@),
            1 <= selected.len() <= MAX_BLOCK_TXS,
            total_bytes <= MAX_BLOCK_TX_BYTES,
            tx_views(selected@) + select_txs(
                offered.skip(i as int),
                utxos@,
                height,
                selected.len() as nat,
                total_bytes as nat,
            ) == spec_block_txs(offered, utxos@, height, miner_pubkey_hash@),
        decreases mempool_txs.len() - i,
    {
        let tx = &mempool_txs[i];
        let ghost rest = select_txs(
            offered.skip(i as int),
            utxos@,
            height,
            selected.len() as nat,
            total_bytes as nat,
        );
        proof {
            assert(offered.skip(i as int).first() == tx@);
            assert(offered.skip(i as int).drop_first() =~= offered.skip(i + 1));
        }
        let size = tx.serialized_size();
        if size > MAX_BLOCK_TX_BYTES - total_bytes {
            assert(rest =~= Seq::<TransactionView>::empty());
            assert(tx_views(selected@) + rest =~= tx_views(selected@));
            return selected;
        }
        let worth = check_transaction(tx, utxos, height).is_ok();
        if worth {
            let ghost before = selected@;
            let copy = tx.clone();
            selected.push(copy);
            proof {
                lemma_tx_views_push(before, copy);
                let after = select_txs(
                    offered.skip(i + 1),
                    utxos@,
                    height,
                    (before.len() + 1) as nat,
                    (total_bytes + size) as nat,
                );
                assert(tx_views(before).push(copy@) + after =~= tx_views(before) + (seq![tx@]
                    + after));
            }
            total_bytes = total_bytes + size;
        }
        i = i + 1;
    }
    proof {
        let rest = select_txs(
            offered.skip(i as int),
            utxos@,
            height,
            selected.len() as nat,
            total_bytes as nat,
        );
        assert(rest =~= Seq::<TransactionView>::empty());
        assert(tx_views(selected@) + rest =~= tx_views(selected@));
    }
    selected
}

/// Builds the block after `prev_block` as it stands before the search for a
/// header: a coinbase for `miner_pubkey_hash`, the offered transactions that
/// are valid, the target that `chain` demands, the given timestamp, nonce
/// zero and no hash yet. `None` where the height cannot grow.
pub fn block_template(
    prev_block: &Block,
    utxos: &UtxoSet,
    mempool_txs: Vec<Transaction>,
    miner_pubkey_hash: Vec<u8>,
    chain: &[Block],
    timestamp: i64,
) -> (template: Option<Block>)
    requires
        utxos.wf(),
    ensures
        match template {
            Some(block) => {
                let txs = spec_block_txs(
                    tx_views(mempool_txs@),
                    utxos@,
                    (prev_block.header.height + 1) as u64,
                    miner_pubkey_hash@,
                );
                &&& prev_block.header.height < u64::MAX
                &&& block@.transactions == txs
                &&& block@.header == spec_template_header(
                    prev_block@,
                    block_views(chain@),
                    txs,
                    timestamp,
                )
                &&& block.hash@ == Seq::<u8>::empty()
            },
            None => prev_block.header.height == u64::MAX,
        },
{
    if prev_block.header.height == u64::MAX {
        return None;
    }
    let height = prev_block.header.height + 1;
    let selected = assemble_transactions(utxos, mempool_txs, miner_pubkey_hash, height);
    let target = calculate_next_target(chain);
    let root = merkle_root(selected.as_slice());
    Some(
        Block {
            header: BlockHeader {
                height,
                timestamp,
                prev_hash: prev_block.hash.clone(),
                nonce: 0,
                target,
                merkle_root: root,
            },
            transactions: selected,
            hash: Vec::new(),
        },
    )
}

/// Builds and mines the block after `prev_block`: a coinbase for
/// `miner_pubkey_hash`, the offered transactions that are valid, the target
/// that `chain` demands, and the first header at or after `timestamp` that
/// meets it. `None` where the height cannot grow or the search runs out.
pub fn mine_block(
    prev_block: &Block,
    utxos: &UtxoSet,
    mempool_txs: Vec<Transaction>,
    miner_pubkey_hash: Vec<u8>,
    chain: &[Block],
    timestamp: i64,
) -> (mined: Option<Block>)
    requires
        utxos.wf(),
    ensures
        match mined {
            Some(block) => {
                let txs = spec_block_txs(
                    tx_views(mempool_txs@),
                    utxos@,
                    (prev_block.header.height + 1) as u64,
                    miner_pubkey_hash@,
                );
                let start = spec_template_header(prev_block@, block_views(chain@), txs, timestamp);
                &&& prev_block.header.height < u64::MAX
                &&& block@.transactions == txs
                &&& block@.header == candidate(start, block.header.timestamp, block.header.nonce)
                &&& in_search(timestamp, 0, block.header.timestamp, block.header.nonce)
                &&& spec_verify_pow(block.hash@, block@.header)
                &&& forall|t: i64, n: u64|
                    in_search(timestamp, 0, t, n) && tried_before(
                        t,
                        n,
                        block.header.timestamp,
                        block.header.nonce,
                    ) ==> !header_meets_target(#[trigger] candidate(start, t, n))
            },
            None => prev_block.header.height == u64::MAX || forall|t: i64, n: u64|
                in_search(timestamp, 0, t, n) ==> !header_meets_target(
                    #[trigger] candidate(
                        spec_template_header(
                            prev_block@,
                            block_views(chain@),
                            spec_block_txs(
                                tx_views(mempool_txs@),
                                utxos@,
                                (prev_block.header.height + 1) as u64,
                                miner_pubkey_hash@,
                            ),
                            timestamp,
                        ),
                        t,
                        n,
                    ),
                ),
        },
{
    let mut block = match block_template(
        prev_block,
        utxos,
        mempool_txs,
        miner_pubkey_hash,
        chain,
        timestamp,
    ) {
        None => {
            return None;
        },
        Some(b) => b,
    };
    let ghost start = block@.header;
    if mine(&mut block) {
        Some(block)
    } else {
        proof {
            assert forall|t: i64, n: u64| in_search(timestamp, 0, t, n) implies !header_meets_target(
                #[trigger] candidate(start, t, n),
            ) by {
                if !tried_before(t, n, i64::MAX, u64::MAX) {
                    assert(candidate(start, t, n) == block@.header);
                }
            }
        }
        None
    }
}

/// The timestamp at which the search for the block behind one of
/// `prev_timestamp` starts: the clock's reading `now`, but at least one
/// second behind the block before.
pub open spec fn spec_start_timestamp(prev_timestamp: i64, now: i64) -> i64 {
    if prev_timestamp < now {
        now
    } else if prev_timestamp == i64::MAX {
        i64::MAX
    } else {
        (prev_timestamp + 1) as i64
    }
}

/// The timestamp at which the search for the next block starts.
pub fn start_timestamp(prev_timestamp: i64, now: i64) -> (t: i64)
    ensures
        t == spec_start_timestamp(prev_timestamp, now),
{
    if prev_timestamp < now {
        now
    } else if prev_timestamp == i64::MAX {
        i64::MAX
    } else {
        prev_timestamp + 1
    }
}

/// What the first transaction of a block pays out; nothing for a block
/// without transactions.
pub open spec fn minted(b: BlockView) -> nat {
    if b.transactions.len() == 0 {
        0
    } else {
        output_sum(b.transactions[0].outputs)
    }
}

/// What the first transactions of the blocks of a chain pay out together.
pub open spec fn spec_total_mined(chain: Seq<BlockView>) -> nat
    decreases chain.len(),
{
    if chain.len() == 0 {
        0
    } else {
        spec_total_mined(chain.drop_last()) + minted(chain.last())
    }
}

/// An amount as a `u64`, the largest standing for every amount above it.
pub open spec fn capped(amount: nat) -> u64 {
    if amount > u64::MAX {
        u64::MAX
    } else {
        amount as u64
    }
}

/// What the blocks have minted so far: the sum of what their first
/// transactions pay out, which stops at the largest `u64`.
pub fn total_mined(blocks: &[Block]) -> (sum: u64)
    ensures
        sum == capped(spec_total_mined(block_views(blocks@))),
{
    let ghost all = block_views(blocks@);
    let mut sum: u64 = 0;
    let mut i: usize = 0;
    assert(all.take(0) =~= Seq::<BlockView>::empty());
    while i < blocks.len()
        invariant
            i <= blocks.len(),
            all == block_views(blocks@),
            sum == capped(spec_total_mined(all.take(i as int))),
        decreases blocks.len() - i,
    {
        proof {
            assert(all.take(i + 1).drop_last() == all.take(i as int));
            assert(all.take(i + 1).last() == blocks[i as int]@);
        }
        if blocks[i].transactions.len() > 0 {
            assert(blocks[i as int]@.transactions[0] == blocks[i as int].transactions[0]@);
            let paid = sum_outputs(&blocks[i].transactions[0]);
            let grown: u128 = sum as u128 + paid;
            sum = if grown > u64::MAX as u128 {
                u64::MAX
            } else {
                grown as u64
            };
        }
        i = i + 1;
    }
    assert(all.take(blocks.len() as int) == all);
    sum
}

} // verus!
