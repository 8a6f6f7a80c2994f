//! The rules that a block must meet to extend a chain, and the step that
//! applies it to the unspent outputs.

use crate::block::{block_views, Block, BlockView};
use crate::bytes::bytes_eq;
use crate::difficulty::{calculate_next_target, spec_next_target};
use crate::merkle::{merkle_root, spec_merkle_root};
use crate::params::{block_reward, spec_block_reward, MEDIAN_TIME_SPAN};
use crate::pow::spec_verify_pow;
use crate::transaction::{spec_txid, tx_views, Transaction, TransactionView};
use crate::utxo::{
    all_inputs, collect_inputs, fresh_ledger, has_duplicates, holds_output, ledger,
    lemma_created_outputs_are_there, lemma_rewind_apply_txs, lemma_spent_inputs_are_gone,
    outpoint_views, OutPoint, UndoLog, UtxoMap, UtxoSet,
};
use crate::validation::{
    check_sizes, check_transaction, output_sum, sized, spec_check_transaction, sum_outputs,
    TxError,
};
use vstd::prelude::*;

verus! {

/// Why a block is refused.
#[derive(Debug, Clone, Copy, PartialEq, Eq, Structural)]
pub enum BlockError {
    /// It has no transactions, its first is no coinbase with addresses of 32
    /// bytes, or a later one is a coinbase.
    Malformed,
    /// Its parent is not known.
    MissingParent,
    /// It does not name its parent's hash, or its height is not the parent's
    /// plus one.
    InvalidParent,
    /// Its timestamp is not above the median of the blocks before it, or
    /// runs too far ahead of the clock.
    InvalidTimestamp,
    /// Its target is not the one that the chain before it demands.
    InvalidTarget,
    /// Its stored hash is not its header's, or does not meet the target.
    InvalidPow,
    /// Its header does not commit to its transactions.
    InvalidMerkle,
    /// Two of its inputs spend one outpoint.
    DoubleSpend,
    /// One of its transactions breaks a rule; a coinbase that claims more
    /// than reward and fees breaks the rule of value.
    InvalidTx(TxError),
}

/// The shape of a block's transactions: at least one, the first a coinbase
/// whose addresses have 32 bytes, no other a coinbase.
pub open spec fn well_formed_txs(txs: Seq<TransactionView>) -> bool {
    &&& txs.len() > 0
    &&& txs[0].is_coinbase()
    &&& sized(txs[0])
    &&& forall|i: int| 0 < i < txs.len() ==> !(#[trigger] txs[i]).is_coinbase()
}

/// The unspent outputs as the transaction at place `k` of a block sees them:
/// the set before the block with all earlier transactions applied.
pub open spec fn rolling(m: UtxoMap, txs: Seq<TransactionView>, height: u64, k: int) -> UtxoMap {
    fresh_ledger(m).apply_txs(txs.take(k), height).utxos
}

/// The verdict on the spending transactions of a block, each held against
/// the unspent outputs that the transactions before it left: their fees
/// together, or the first rule that one of them breaks. The first
/// transaction is the coinbase and spends nothing.
pub open spec fn txs_outcome(m: UtxoMap, txs: Seq<TransactionView>, height: u64) -> Result<
    nat,
    TxError,
>
    decreases txs.len(),
{
    if txs.len() <= 1 {
        Ok(0)
    } else {
        match txs_outcome(m, txs.drop_last(), height) {
            Err(e) => Err(e),
            Ok(fees) => match spec_check_transaction(
                txs.last(),
                rolling(m, txs, height, txs.len() - 1),
                height,
            ) {
                Err(e) => Err(e),
                Ok(fee) => Ok(fees + fee),
            },
        }
    }
}

/// The number of blocks of `chain` from place `from` on whose timestamp is
/// below `t`.
pub open spec fn count_earlier(chain: Seq<BlockView>, from: int, t: i64) -> nat
    decreases chain.len() - from,
{
    if from < 0 || from >= chain.len() {
        0
    } else {
        count_earlier(chain, from + 1, t) + if chain[from].header.timestamp < t {
            1nat
        } else {
            0nat
        }
    }
}

/// The place from which on the blocks of a chain count for the median time.
pub open spec fn median_window_start(chain: Seq<BlockView>) -> int {
    if chain.len() <= MEDIAN_TIME_SPAN {
        0
    } else {
        chain.len() - MEDIAN_TIME_SPAN
    }
}

/// Whether `t` is above the median of the timestamps of the last blocks of
/// `chain`: more than half of them are below `t`.
pub open spec fn after_median_time(chain: Seq<BlockView>, t: i64) -> bool {
    let from = median_window_start(chain);
    2 * count_earlier(chain, from, t) > chain.len() - from
}

/// The first rule that the block `b` breaks on top of `chain` among those
/// that the block and the chain before it decide alone, whatever is
/// unspent: shape, parent, height, timestamp, target, proof-of-work, merkle
/// root, and no outpoint spent twice.
#[verifier::opaque]
pub open spec fn spec_standalone_error(chain: Seq<BlockView>, b: BlockView) -> Option<
    BlockError,
> {
    if chain.len() == 0 {
        Some(BlockError::MissingParent)
    } else if !well_formed_txs(b.transactions) {
        Some(BlockError::Malformed)
    } else if b.header.prev_hash != chain.last().hash {
        Some(BlockError::InvalidParent)
    } else if b.header.height != chain.last().header.height + 1 {
        Some(BlockError::InvalidParent)
    } else if !after_median_time(chain, b.header.timestamp) {
        Some(BlockError::InvalidTimestamp)
    } else if b.header.target != spec_next_target(chain) {
        Some(BlockError::InvalidTarget)
    } else if !spec_verify_pow(b.hash, b.header) {
        Some(BlockError::InvalidPow)
    } else if spec_merkle_root(b.transactions) != b.header.merkle_root {
        Some(BlockError::InvalidMerkle)
    } else if !all_inputs(b.transactions).no_duplicates() {
        Some(BlockError::DoubleSpend)
    } else {
        None
    }
}

/// The first rule that the block `b` breaks on top of `chain` with the
/// unspent outputs `m`, if it breaks one: first the rules that the block
/// and the chain decide alone, then every spending transaction against what
/// the transactions before it left, then the claim of the coinbase.
#[verifier::opaque]
pub open spec fn spec_block_error(chain: Seq<BlockView>, m: UtxoMap, b: BlockView) -> Option<
    BlockError,
> {
    match spec_standalone_error(chain, b) {
        Some(e) => Some(e),
        None => match txs_outcome(m, b.transactions, b.header.height) {
            Err(e) => Some(BlockError::InvalidTx(e)),
            Ok(fees) => if output_sum(b.transactions[0].outputs) > spec_block_reward(
                b.header.height,
            ) + fees {
                Some(BlockError::InvalidTx(TxError::Value))
            } else {
                None
            },
        },
    }
}

/// A block that breaks no rule breaks none of those that it and the chain
/// decide alone.
pub proof fn lemma_valid_block_stands_alone(chain: Seq<BlockView>, m: UtxoMap, b: BlockView)
    requires
        spec_block_error(chain, m, b) is None,
    ensures
        spec_standalone_error(chain, b) is None,
{
    reveal(spec_block_error);
}

/// The unspent outputs after a block.
pub open spec fn apply_block_spec(m: UtxoMap, b: BlockView) -> UtxoMap {
    fresh_ledger(m).apply_txs(b.transactions, b.header.height).utxos
}

/// What the last transaction of a block leaves behind: each of its outputs
/// is unspent under the transaction's identifier and its place, as the
/// entry that the output becomes at the block's height, and what it spent
/// is gone, unless that is one of its own outputs.
pub proof fn lemma_last_transaction_applied(m: UtxoMap, b: BlockView)
    requires
        b.transactions.len() > 0,
    ensures
        forall|i: int|
            0 <= i < b.transactions.last().outputs.len() && i <= u32::MAX ==> #[trigger] holds_output(
                apply_block_spec(m, b),
                spec_txid(b.transactions.last()),
                i,
                b.transactions.last().outputs[i],
                b.header.height,
                b.transactions.last().is_coinbase(),
            ),
        forall|j: int|
            0 <= j < b.transactions.last().inputs.len() && (
            #[trigger] b.transactions.last().inputs[j]).txid != spec_txid(b.transactions.last())
                ==> !apply_block_spec(m, b).contains_key(
                (b.transactions.last().inputs[j].txid, b.transactions.last().inputs[j].index),
            ),
{
    let tx = b.transactions.last();
    let before = fresh_ledger(m).apply_txs(b.transactions.drop_last(), b.header.height);
    let spent = before.spend_inputs(tx.inputs);
    lemma_spent_inputs_are_gone(before, tx.inputs);
    lemma_created_outputs_are_there(
        spent,
        spec_txid(tx),
        tx.outputs,
        b.header.height,
        tx.is_coinbase(),
    );
    assert(b.transactions.drop_last().push(tx) == b.transactions);
    assert(apply_block_spec(m, b) == spent.create_outputs(
        spec_txid(tx),
        tx.outputs,
        b.header.height,
        tx.is_coinbase(),
    ).utxos);
    assert forall|j: int|
        0 <= j < tx.inputs.len() && (#[trigger] tx.inputs[j]).txid != spec_txid(
            tx,
        ) implies !apply_block_spec(m, b).contains_key((tx.inputs[j].txid, tx.inputs[j].index)) by {
        let k = (tx.inputs[j].txid, tx.inputs[j].index);
        assert(!spent.utxos.contains_key(k));
        assert(k.0 != spec_txid(tx));
    }
}

/// An error at a transaction stays the verdict however the list goes on.
pub proof fn lemma_txs_outcome_error_stays(
    m: UtxoMap,
    txs: Seq<TransactionView>,
    height: u64,
    k: int,
)
    requires
        0 <= k <= txs.len(),
        txs_outcome(m, txs.take(k), height) is Err,
    ensures
        txs_outcome(m, txs, height) == txs_outcome(m, txs.take(k), height),
    decreases txs.len() - k,
{
    if k < txs.len() {
        let next = txs.take(k + 1);
        assert(next.drop_last() == txs.take(k));
        assert(next.len() > 1) by {
            assert(txs.take(k).len() > 1);
        }
        assert(txs_outcome(m, next, height) == txs_outcome(m, txs.take(k), height));
        lemma_txs_outcome_error_stays(m, txs, height, k + 1);
    } else {
        assert(txs.take(k) == txs);
    }
}

fn check_median_time(chain: &[Block], t: i64) -> (ok: bool)
    ensures
        ok == after_median_time(block_views(chain@), t),
{
    let ghost views = block_views(chain@);
    let n = chain.len();
    let from: usize = if n <= MEDIAN_TIME_SPAN {
        0
    } else {
        n - MEDIAN_TIME_SPAN
    };
    let mut earlier: usize = 0;
    let mut i: usize = n;
    while i > from
        invariant
            from <= i <= n,
            n == chain.len(),
            n - from <= MEDIAN_TIME_SPAN,
            views == block_views(chain@),
            earlier == count_earlier(views, i as int, t),
            earlier <= n - i,
        decreases i,
    {
        i = i - 1;
        assert(views[i as int] == chain[i as int]@);
        if chain[i].header.timestamp < t {
            earlier = earlier + 1;
        }
    }
    2 * earlier > n - from
}

fn check_shape(txs: &Vec<Transaction>) -> (ok: bool)
    ensures
        ok == well_formed_txs(tx_views(txs@)),
{
    if txs.len() == 0 {
        return false;
    }
    assert(tx_views(txs@)[0] == txs[0]@);
    if !txs[0].is_coinbase() || !check_sizes(&txs[0]) {
        return false;
    }
    let mut i: usize = 1;
    while i < txs.len()
        invariant
            1 <= i <= txs.len(),
            forall|j: int| 0 < j < i ==> !(#[trigger] tx_views(txs@)[j]).is_coinbase(),
        decreases txs.len() - i,
    {
        if txs[i].is_coinbase() {
            assert(tx_views(txs@)[i as int].is_coinbase());
            return false;
        }
        i = i + 1;
    }
    true
}

fn spends_twice(txs: &Vec<Transaction>) -> (dup: bool)
    ensures
        dup == !all_inputs(tx_views(txs@)).no_duplicates(),
{
    let mut list: Vec<OutPoint> = Vec::new();
    let mut i: usize = 0;
    assert(outpoint_views(list@) =~= all_inputs(tx_views(txs@).take(0)));
    while i < txs.len()
        invariant
            i <= txs.len(),
            outpoint_views(list@) == all_inputs(tx_views(txs@).take(i as int)),
        decreases txs.len() - i,
    {
        collect_inputs(&txs[i], &mut list);
        proof {
            let next = tx_views(txs@).take(i + 1);
            assert(next.drop_last() == tx_views(txs@).take(i as int));
            assert(next.last() == txs[i as int]@);
        }
        i = i + 1;
    }
    assert(tx_views(txs@).take(txs.len() as int) == tx_views(txs@));
    has_duplicates(&list)
}

/// Applies the transactions of a block one after the other, each spending
/// transaction first held against what the earlier ones left. On an error
/// the unspent outputs are as they were.
fn connect_transactions(utxos: &mut UtxoSet, txs: &Vec<Transaction>, height: u64) -> (done: Result<
    (UndoLog, u128),
    TxError,
>)
    requires
        old(utxos).wf(),
    ensures
        final(utxos).wf(),
        match done {
            Ok((log, fees)) => {
                &&& ledger(final(utxos)@, log@) == fresh_ledger(old(utxos)@).apply_txs(
                    tx_views(txs@),
                    height,
                )
                &&& txs_outcome(old(utxos)@, tx_views(txs@), height) is Ok
                &&& fees == if txs_outcome(old(utxos)@, tx_views(txs@), height)->Ok_0
                    <= u128::MAX {
                    txs_outcome(old(utxos)@, tx_views(txs@), height)->Ok_0
                } else {
                    u128::MAX as nat
                }
            },
            Err(e) => {
                &&& final(utxos)@ == old(utxos)@
                &&& txs_outcome(old(utxos)@, tx_views(txs@), height) == Err::<nat, TxError>(e)
            },
        },
{
    let ghost views = tx_views(txs@);
    let ghost start = fresh_ledger(utxos@);
    let mut log = UndoLog::new();
    let mut fees: u128 = 0;
    let mut k: usize = 0;
    assert(views.take(0) =~= Seq::<TransactionView>::empty());
    while k < txs.len()
        invariant
            k <= txs.len(),
            utxos.wf(),
            views == tx_views(txs@),
            start == fresh_ledger(old(utxos)@),
            ledger(utxos@, log@) == start.apply_txs(views.take(k as int), height),
            txs_outcome(old(utxos)@, views.take(k as int), height) is Ok,
            fees == if txs_outcome(old(utxos)@, views.take(k as int), height)->Ok_0
                <= u128::MAX {
                txs_outcome(old(utxos)@, views.take(k as int), height)->Ok_0
            } else {
                u128::MAX as nat
            },
        decreases txs.len() - k,
    {
        let ghost next = views.take(k + 1);
        proof {
            assert(next.drop_last() == views.take(k as int));
            assert(next.last() == txs[k as int]@);
            assert(next.take(next.len() - 1) == views.take(k as int));
        }
        if k > 0 {
            match check_transaction(&txs[k], utxos, height) {
                Ok(fee) => {
                    fees = fees.saturating_add(fee);
                },
                Err(e) => {
                    proof {
                        assert(txs_outcome(old(utxos)@, next, height) == Err::<nat, TxError>(e));
                        lemma_txs_outcome_error_stays(old(utxos)@, views, height, k + 1);
                        lemma_rewind_apply_txs(start, views.take(k as int), height);
                        assert(ledger(utxos@, log@).rewind() == old(utxos)@);
                    }
                    utxos.undo(log);
                    return Err(e);
                },
            }
        }
        utxos.apply_transaction(&txs[k], height, &mut log);
        k = k + 1;
    }
    assert(views.take(txs.len() as int) == views);
    Ok((log, fees))
}

/// Holds `block` against the rules that it and the chain before it decide
/// alone, and names the first that it breaks.
pub fn check_standalone(block: &Block, chain: &[Block]) -> (error: Option<BlockError>)
    ensures
        error == spec_standalone_error(block_views(chain@), block@),
{
    reveal(spec_standalone_error);
    if chain.len() == 0 {
        return Some(BlockError::MissingParent);
    }
    let parent = &chain[chain.len() - 1];
    assert(block_views(chain@).last() == parent@);
    if !check_shape(&block.transactions) {
        return Some(BlockError::Malformed);
    }
    if !bytes_eq(block.header.prev_hash.as_slice(), parent.hash.as_slice()) {
        return Some(BlockError::InvalidParent);
    }
    if parent.header.height == u64::MAX || block.header.height != parent.header.height + 1 {
        return Some(BlockError::InvalidParent);
    }
    if !check_median_time(chain, block.header.timestamp) {
        return Some(BlockError::InvalidTimestamp);
    }
    let expected = calculate_next_target(chain);
    if !bytes_eq(block.header.target.as_slice(), expected.as_slice()) {
        return Some(BlockError::InvalidTarget);
    }
    if !block.verify_pow() {
        return Some(BlockError::InvalidPow);
    }
    let root = merkle_root(block.transactions.as_slice());
    if !bytes_eq(root.as_slice(), block.header.merkle_root.as_slice()) {
        return Some(BlockError::InvalidMerkle);
    }
    if spends_twice(&block.transactions) {
        return Some(BlockError::DoubleSpend);
    }
    None
}

/// Holds `block` against every rule for a block on top of `chain`, whose
/// unspent outputs are `utxos`, and applies it. On success the journal of
/// the changes is returned; on an error nothing has changed.
pub fn validate_and_apply_block(block: &Block, chain: &[Block], utxos: &mut UtxoSet) -> (done:
    Result<UndoLog, BlockError>)
    requires
        old(utxos).wf(),
    ensures
        final(utxos).wf(),
        match done {
            Ok(log) => {
                &&& spec_block_error(block_views(chain@), old(utxos)@, block@) is None
                &&& ledger(final(utxos)@, log@) == fresh_ledger(old(utxos)@).apply_txs(
                    block@.transactions,
                    block.header.height,
                )
            },
            Err(e) => {
                &&& spec_block_error(block_views(chain@), old(utxos)@, block@) == Some(e)
                &&& final(utxos)@ == old(utxos)@
            },
        },
{
    reveal(spec_block_error);
    match check_standalone(block, chain) {
        Some(e) => {
            return Err(e);
        },
        None => {},
    }
    proof {
        reveal(spec_standalone_error);
    }
    let height = block.header.height;
    match connect_transactions(utxos, &block.transactions, height) {
        Err(e) => Err(BlockError::InvalidTx(e)),
        Ok((log, fees)) => {
            let claimed = sum_outputs(&block.transactions[0]);
            let allowed = fees.saturating_add(block_reward(height) as u128);
            assert(tx_views(block.transactions@)[0] == block.transactions[0]@);
            if claimed > allowed {
                proof {
                    lemma_rewind_apply_txs(
                        fresh_ledger(old(utxos)@),
                        block@.transactions,
                        height,
                    );
                    assert(ledger(utxos@, log@).rewind() == old(utxos)@);
                }
                utxos.undo(log);
                Err(BlockError::InvalidTx(TxError::Value))
            } else {
                Ok(log)
            }
        },
    }
}

} // verus!
