//! The chain: every block known, the branch of greatest accumulated work
//! among them, and the unspent outputs at its tip.

use crate::bigint::{
    big_add, big_div, big_from_bytes_be, big_from_u64, big_le, big_to_bytes_be, big_value,
};
use crate::block::{block_views, spec_header_hash, Block, BlockHeaderView, BlockView};
use crate::block_validation::{
    apply_block_spec, check_standalone, spec_block_error, spec_standalone_error,
    validate_and_apply_block, BlockError,
};
use crate::bytes::{be_value, bytes_eq, lemma_be_value_bound, pow256, zeros};
use crate::crypto::{
    pubkey_hash, public_key, spec_ed25519_public, spec_pubkey_hash, spec_secret_key,
};
use crate::genesis::{genesis_block, genesis_verifies, spec_genesis};
use crate::merkle::merkle_root;
use crate::miner::{mine_block, spec_block_txs, spec_template_header};
use crate::params::{COINBASE_MATURITY, MAX_FUTURE_DRIFT};
use crate::pow::{candidate, header_meets_target, in_search, spec_verify_pow, tried_before};
use crate::transaction::{Transaction, TransactionView};
use crate::wallet::spec_spend_coinbase;
use crate::utxo::{
    fresh_ledger, ledger, lemma_rewind_apply_txs, undo_spec, OutPoint, OutPointView, UndoLog,
    UtxoEntry, UtxoEntryView, UtxoMap, UtxoSet,
};
use crate::validation::validate_transaction;
use num_bigint::BigUint;
use vstd::prelude::*;

verus! {

/// The work that one block of the given target stands for: two to the 256th
/// over the target plus one, rounded down.
pub open spec fn block_work(target: Seq<u8>) -> nat {
    pow256(32) / (be_value(target) + 1)
}

/// The work accumulated along a chain.
pub open spec fn chain_work(chain: Seq<BlockView>) -> nat
    decreases chain.len(),
{
    if chain.len() == 0 {
        0
    } else {
        chain_work(chain.drop_last()) + block_work(chain.last().header.target)
    }
}

/// The unspent outputs at the end of a chain: every block applied in order
/// to the empty set.
pub open spec fn chain_utxos(chain: Seq<BlockView>) -> UtxoMap
    decreases chain.len(),
{
    if chain.len() == 0 {
        Map::empty()
    } else {
        apply_block_spec(chain_utxos(chain.drop_last()), chain.last())
    }
}

/// The first rule that a block of the chain breaks on top of the blocks
/// before it, if one does. The first block is the genesis and is taken as
/// it is.
pub open spec fn first_chain_error(chain: Seq<BlockView>) -> Option<BlockError>
    decreases chain.len(),
{
    if chain.len() <= 1 {
        None
    } else {
        match first_chain_error(chain.drop_last()) {
            Some(e) => Some(e),
            None => spec_block_error(
                chain.drop_last(),
                chain_utxos(chain.drop_last()),
                chain.last(),
            ),
        }
    }
}

/// A prefix of a chain without error is without error.
pub proof fn lemma_chain_prefix_valid(chain: Seq<BlockView>, k: int)
    requires
        0 <= k <= chain.len(),
        first_chain_error(chain) is None,
    ensures
        first_chain_error(chain.take(k)) is None,
    decreases chain.len(),
{
    if k < chain.len() {
        assert(chain.drop_last().take(k) == chain.take(k));
        if chain.len() > 1 {
            lemma_chain_prefix_valid(chain.drop_last(), k);
        } else {
            assert(chain.take(k).len() == 0);
        }
    } else {
        assert(chain.take(k) == chain);
    }
}

/// An error in a prefix is the error of the whole chain.
pub proof fn lemma_chain_error_stays(chain: Seq<BlockView>, k: int)
    requires
        0 <= k <= chain.len(),
        first_chain_error(chain.take(k)) is Some,
    ensures
        first_chain_error(chain) == first_chain_error(chain.take(k)),
    decreases chain.len() - k,
{
    if k < chain.len() {
        let next = chain.take(k + 1);
        assert(next.drop_last() == chain.take(k));
        assert(chain.take(k).len() > 1);
        lemma_chain_error_stays(chain, k + 1);
    } else {
        assert(chain.take(k) == chain);
    }
}

/// Every block adds work: a 32-byte target is below two to the 256th.
pub proof fn lemma_block_work_positive(target: Seq<u8>)
    requires
        target.len() == 32,
    ensures
        block_work(target) >= 1,
{
    lemma_be_value_bound(target);
    let d = be_value(target) + 1;
    let p = pow256(32);
    assert(p / d >= 1) by (nonlinear_arith)
        requires
            0 < d <= p,
    ;
}

/// One block of the index: the block, where its parent stands in the index,
/// and the work accumulated from the genesis up to it.
pub struct BlockIndexEntry {
    block: Block,
    parent: usize,
    cumulative_work: BigUint,
}

/// The chain from the genesis to the block at place `i` of the index, by the
/// parent links.
pub closed spec fn chain_to(idx: Seq<BlockIndexEntry>, i: int) -> Seq<BlockView>
    decreases i,
{
    if i <= 0 || idx[i].parent >= i {
        seq![idx[0].block@]
    } else {
        chain_to(idx, idx[i].parent as int).push(idx[i].block@)
    }
}

/// The entry at place `i` points to an earlier entry whose hash is the one
/// that its block names as previous.
spec fn link_ok(idx: Seq<BlockIndexEntry>, i: int) -> bool {
    &&& idx[i].parent < i
    &&& idx[idx[i].parent as int].block.hash@ == idx[i].block.header.prev_hash@
}

/// The entries at two places hold blocks of different hashes.
spec fn differ(idx: Seq<BlockIndexEntry>, i: int, j: int) -> bool {
    idx[i].block.hash@ != idx[j].block.hash@
}

/// The entry at place `i` holds the work of the chain up to it.
spec fn work_ok(idx: Seq<BlockIndexEntry>, i: int) -> bool {
    &&& big_value(idx[i].cumulative_work) == chain_work(chain_to(idx, i))
    &&& idx[i].block.header.target@.len() == 32
}

/// No hash occurs twice in the index, every entry but the first is linked
/// to an earlier one, and every entry holds the work of its chain.
spec fn index_linked(idx: Seq<BlockIndexEntry>) -> bool {
    &&& forall|i: int, j: int| 0 <= i < j < idx.len() ==> #[trigger] differ(idx, i, j)
    &&& forall|i: int| 0 < i < idx.len() ==> #[trigger] link_ok(idx, i)
    &&& forall|i: int| 0 <= i < idx.len() ==> #[trigger] work_ok(idx, i)
}

/// The active block at slot `k` stands at place `positions[k]` of the index,
/// the genesis at place zero and every other right above the slot before.
spec fn slot_ok(idx: Seq<BlockIndexEntry>, positions: Seq<usize>, blocks: Seq<Block>, k: int) -> bool {
    let p = positions[k];
    &&& p < idx.len()
    &&& idx[p as int].block@ == blocks[k]@
    &&& k == 0 ==> p == 0
    &&& k > 0 ==> p > 0 && idx[p as int].parent == positions[k - 1]
}

/// The active chain is a branch of the index.
spec fn active_placed(idx: Seq<BlockIndexEntry>, positions: Seq<usize>, blocks: Seq<Block>) -> bool {
    &&& positions.len() == blocks.len()
    &&& forall|k: int| 0 <= k < positions.len() ==> #[trigger] slot_ok(idx, positions, blocks, k)
}

/// The index `after` is the index `before` with the block `b` at its end.
spec fn index_grown(before: Seq<BlockIndexEntry>, after: Seq<BlockIndexEntry>, b: BlockView) -> bool {
    &&& after.len() == before.len() + 1
    &&& after.last().block@ == b
    &&& forall|i: int| 0 <= i < before.len() ==> #[trigger] after[i] == before[i]
}

/// Every active block has the journal that takes the unspent outputs back to
/// what they were before it.
spec fn journals_match(active: Seq<BlockView>, undo: Seq<UndoLog>) -> bool {
    &&& undo.len() == active.len()
    &&& forall|k: int|
        0 <= k < undo.len() ==> undo_spec(chain_utxos(active.take(k + 1)), (#[trigger] undo[k])@)
            == chain_utxos(active.take(k))
}

/// What became of a block that was handed in.
#[derive(Debug)]
pub enum BlockOutcome {
    /// The block was known already; nothing changed.
    Known,
    /// The block extends the tip and is the new tip.
    Extended,
    /// The block is kept on a side branch that has no more work than the
    /// active chain.
    SideBranch,
    /// The block's branch has more work and is the active chain now. The
    /// blocks that left the active chain are handed back, oldest first,
    /// with the number of blocks that the two chains share.
    Reorganized { disconnected: Vec<Block>, fork_height: usize },
}

/// The kind of a `BlockOutcome`.
pub enum OutcomeKind {
    Known,
    Extended,
    SideBranch,
    Reorganized,
}

impl BlockOutcome {
    /// The kind of this outcome.
    pub open spec fn kind(self) -> OutcomeKind {
        match self {
            BlockOutcome::Known => OutcomeKind::Known,
            BlockOutcome::Extended => OutcomeKind::Extended,
            BlockOutcome::SideBranch => OutcomeKind::SideBranch,
            BlockOutcome::Reorganized { .. } => OutcomeKind::Reorganized,
        }
    }
}

/// The node's view of the ledger.
pub struct Blockchain {
    blocks: Vec<Block>,
    positions: Vec<usize>,
    undo: Vec<UndoLog>,
    index: Vec<BlockIndexEntry>,
    utxos: UtxoSet,
}

impl Blockchain {
    /// The active chain, genesis first.
    pub closed spec fn active(&self) -> Seq<BlockView> {
        block_views(self.blocks@)
    }

    /// The unspent outputs at the tip.
    pub closed spec fn utxo_map(&self) -> UtxoMap {
        self.utxos@
    }

    /// The unspent outputs at the tip, one after the other.
    pub closed spec fn utxo_listing(&self) -> Seq<(OutPointView, UtxoEntryView)> {
        self.utxos.listing()
    }

    /// Whether a block with this hash is in the index.
    pub closed spec fn knows(&self, hash: Seq<u8>) -> bool {
        exists|i: int| 0 <= i < self.index@.len() && (#[trigger] self.index@[i]).block.hash@ == hash
    }

    /// The place in the index of the block with this hash.
    pub closed spec fn place(&self, hash: Seq<u8>) -> int {
        choose|i: int| 0 <= i < self.index@.len() && (#[trigger] self.index@[i]).block.hash@ == hash
    }

    /// Whether `b` is the very block that the index holds under its hash.
    pub closed spec fn holds(&self, b: BlockView) -> bool {
        self.knows(b.hash) && self.index@[self.place(b.hash)].block@ == b
    }

    /// The chain from the genesis to the known block with this hash.
    pub closed spec fn ancestry(&self, hash: Seq<u8>) -> Seq<BlockView> {
        chain_to(self.index@, self.place(hash))
    }

    /// The invariant of the chain: the active chain is a branch of the index
    /// that breaks no rule, the unspent outputs are those at its tip, and
    /// every active block has its journal.
    pub closed spec fn wf(&self) -> bool {
        &&& self.utxos.wf()
        &&& index_linked(self.index@)
        &&& active_placed(self.index@, self.positions@, self.blocks@)
        &&& journals_match(block_views(self.blocks@), self.undo@)
        &&& (self.index@.len() > 0 <==> self.blocks@.len() > 0)
        &&& first_chain_error(self.active()) is None
        &&& self.utxos@ == chain_utxos(self.active())
    }

    /// A chain without blocks. It takes its genesis from `initialize`.
    pub fn new() -> (chain: Self)
        ensures
            chain.wf(),
            chain.active().len() == 0,
            chain.utxo_map() == Map::<crate::utxo::OutPointView, crate::utxo::UtxoEntryView>::empty(),
    {
        let chain = Blockchain {
            blocks: Vec::new(),
            positions: Vec::new(),
            undo: Vec::new(),
            index: Vec::new(),
            utxos: UtxoSet::new(),
        };
        assert(chain.active().len() == 0);
        chain
    }

    /// The number of blocks on the active chain.
    pub fn height(&self) -> (h: u64)
        ensures
            h == self.active().len(),
    {
        self.blocks.len() as u64
    }

    /// The active chain, genesis first.
    pub fn blocks(&self) -> (blocks: &Vec<Block>)
        ensures
            block_views(blocks@) == self.active(),
    {
        &self.blocks
    }

    /// The unspent outputs at the tip.
    pub fn utxos(&self) -> (utxos: &UtxoSet)
        requires
            self.wf(),
        ensures
            utxos.wf(),
            utxos@ == self.utxo_map(),
            utxos.listing() == self.utxo_listing(),
    {
        &self.utxos
    }

    /// Whether a transaction is valid in the next block.
    pub fn validate_transaction(&self, tx: &Transaction) -> (ok: bool)
        requires
            self.wf(),
        ensures
            ok == crate::validation::spec_validate_transaction(
                tx@,
                self.utxo_map(),
                self.active().len() as u64,
            ),
    {
        validate_transaction(tx, &self.utxos, self.height())
    }
}

proof fn lemma_one_then_zeros(k: nat)
    ensures
        be_value(seq![1u8] + zeros(k)) == pow256(k),
    decreases k,
{
    let s = seq![1u8] + zeros(k);
    if k == 0 {
        assert(s.drop_last() =~= Seq::<u8>::empty());
        assert(s.last() == 1);
        assert(be_value(s.drop_last()) == 0);
    } else {
        assert(s.drop_last() =~= seq![1u8] + zeros((k - 1) as nat));
        assert(s.last() == 0);
        lemma_one_then_zeros((k - 1) as nat);
    }
}

/// The work that one block of the given target stands for, as a big-endian
/// number without leading zeros: one byte at least, and the first is zero
/// only where it is the only one.
pub fn work_bytes(target: &[u8; 32]) -> (bytes: Vec<u8>)
    ensures
        be_value(bytes@) == block_work(target@),
        bytes@.len() >= 1,
        bytes@.len() > 1 ==> bytes@[0] != 0,
{
    let work = work_of(target);
    big_to_bytes_be(&work)
}

/// The work that one block of the given target stands for.
fn work_of(target: &[u8; 32]) -> (work: BigUint)
    ensures
        big_value(work) == block_work(target@),
{
    let mut numerator: [u8; 33] = [0u8; 33];
    numerator[0] = 1;
    proof {
        assert(numerator@ =~= seq![1u8] + zeros(32));
        lemma_one_then_zeros(32);
    }
    let two_256 = big_from_bytes_be(numerator.as_slice());
    let t = big_from_bytes_be(target.as_slice());
    let denominator = big_add(&t, &big_from_u64(1));
    big_div(&two_256, &denominator)
}

/// Applies a block's transactions without holding them against any rule.
fn apply_block(utxos: &mut UtxoSet, block: &Block) -> (log: UndoLog)
    requires
        old(utxos).wf(),
    ensures
        final(utxos).wf(),
        ledger(final(utxos)@, log@) == fresh_ledger(old(utxos)@).apply_txs(
            block@.transactions,
            block.header.height,
        ),
{
    let ghost views = block@.transactions;
    let ghost start = fresh_ledger(utxos@);
    let mut log = UndoLog::new();
    let mut k: usize = 0;
    assert(views.take(0) =~= Seq::<crate::transaction::TransactionView>::empty());
    while k < block.transactions.len()
        invariant
            k <= block.transactions.len(),
            utxos.wf(),
            views == block@.transactions,
            ledger(utxos@, log@) == start.apply_txs(views.take(k as int), block.header.height),
        decreases block.transactions.len() - k,
    {
        utxos.apply_transaction(&block.transactions[k], block.header.height, &mut log);
        proof {
            let next = views.take(k + 1);
            assert(next.drop_last() == views.take(k as int));
            assert(next.last() == block.transactions[k as int]@);
        }
        k = k + 1;
    }
    assert(views.take(block.transactions.len() as int) == views);
    log
}

/// Longer indexes leave the chains of earlier places as they are.
proof fn lemma_chain_to_extend(idx: Seq<BlockIndexEntry>, e: BlockIndexEntry, i: int)
    requires
        0 <= i < idx.len(),
        forall|j: int| 0 < j < idx.len() ==> #[trigger] link_ok(idx, j),
    ensures
        chain_to(idx.push(e), i) == chain_to(idx, i),
    decreases i,
{
    if i > 0 {
        assert(idx.push(e)[i] == idx[i]);
        assert(link_ok(idx, i));
        lemma_chain_to_extend(idx, e, idx[i].parent as int);
    } else {
        assert(idx.push(e)[0] == idx[0]);
    }
}

impl Blockchain {
    /// The chain to an active block, by the index, is the active chain up to
    /// that block.
    proof fn lemma_active_chain(&self, k: int)
        requires
            index_linked(self.index@),
            active_placed(self.index@, self.positions@, self.blocks@),
            0 <= k < self.positions@.len(),
        ensures
            chain_to(self.index@, self.positions@[k] as int) == self.active().take(k + 1),
        decreases k,
    {
        let idx = self.index@;
        let p = self.positions@[k] as int;
        assert(slot_ok(self.index@, self.positions@, self.blocks@, k));
        if k == 0 {
            assert(chain_to(idx, 0) =~= self.active().take(1));
        } else {
            self.lemma_active_chain(k - 1);
            assert(link_ok(idx, p));
            assert(self.active().take(k + 1) =~= self.active().take(k).push(self.active()[k]));
        }
    }

    fn find_entry(&self, hash: &[u8]) -> (at: Option<usize>)
        ensures
            match at {
                Some(i) => i < self.index@.len() && self.index@[i as int].block.hash@ == hash@,
                None => !self.knows(hash@),
            },
    {
        let mut i: usize = 0;
        while i < self.index.len()
            invariant
                i <= self.index@.len(),
                forall|j: int| 0 <= j < i ==> (#[trigger] self.index@[j]).block.hash@ != hash@,
            decreases self.index.len() - i,
        {
            if bytes_eq(self.index[i].block.hash.as_slice(), hash) {
                return Some(i);
            }
            i = i + 1;
        }
        None
    }

    fn slot_of(&self, pos: usize) -> (slot: Option<usize>)
        ensures
            match slot {
                Some(k) => k < self.positions@.len() && self.positions@[k as int] == pos,
                None => forall|k: int|
                    0 <= k < self.positions@.len() ==> self.positions@[k] != pos,
            },
    {
        let mut k: usize = self.positions.len();
        while k > 0
            invariant
                k <= self.positions@.len(),
                forall|j: int| k <= j < self.positions@.len() ==> self.positions@[j] != pos,
            decreases k,
        {
            k = k - 1;
            if self.positions[k] == pos {
                return Some(k);
            }
        }
        None
    }

    /// Adds a block to the index under its parent at place `parent`.
    fn push_index(&mut self, block: Block, parent: usize)
        requires
            index_linked(old(self).index@),
            active_placed(old(self).index@, old(self).positions@, old(self).blocks@),
            !old(self).knows(block.hash@),
            old(self).index@.len() > 0 ==> parent < old(self).index@.len() && old(
                self,
            ).index@[parent as int].block.hash@ == block.header.prev_hash@,
            old(self).index@.len() == 0 ==> parent == 0,
        ensures
            index_linked(final(self).index@),
            active_placed(final(self).index@, final(self).positions@, final(self).blocks@),
            final(self).index@.len() == old(self).index@.len() + 1,
            final(self).index@.last().block@ == block@,
            final(self).index@.last().parent == parent,
            forall|i: int|
                0 <= i < old(self).index@.len() ==> final(self).index@[i] == old(self).index@[i],
            forall|i: int|
                0 <= i < old(self).index@.len() ==> chain_to(final(self).index@, i) == chain_to(
                    old(self).index@,
                    i,
                ),
            final(self).blocks == old(self).blocks,
            final(self).positions == old(self).positions,
            final(self).undo == old(self).undo,
            final(self).utxos == old(self).utxos,
            forall|h: Seq<u8>| final(self).knows(h) <==> old(self).knows(h) || h == block.hash@,
    {
        let ghost idx = self.index@;
        let own = work_of(&block.header.target);
        let work = if self.index.len() == 0 {
            own
        } else {
            big_add(&self.index[parent].cumulative_work, &own)
        };
        let entry = BlockIndexEntry { block, parent, cumulative_work: work };
        self.index.push(entry);
        proof {
            let now = self.index@;
            let n = idx.len() as int;
            assert(now == idx.push(entry));
            assert forall|i: int| 0 <= i < n implies chain_to(now, i) == chain_to(idx, i) by {
                lemma_chain_to_extend(idx, entry, i);
            }
            assert forall|i: int, j: int| 0 <= i < j < now.len() implies #[trigger] differ(
                now,
                i,
                j,
            ) by {
                if j == n {
                    assert(idx[i].block.hash@ != block.hash@);
                } else {
                    assert(differ(idx, i, j));
                }
            }
            assert forall|i: int| 0 < i < now.len() implies #[trigger] link_ok(now, i) by {
                if i < n {
                    assert(link_ok(idx, i));
                }
            }
            assert forall|i: int| 0 <= i < now.len() implies #[trigger] work_ok(now, i) by {
                if i < n {
                    assert(work_ok(idx, i));
                } else if n > 0 {
                    assert(work_ok(idx, parent as int));
                    let c = chain_to(now, n);
                    assert(c == chain_to(now, parent as int).push(entry.block@));
                    assert(c.drop_last() == chain_to(idx, parent as int));
                    assert(c.last() == entry.block@);
                    assert(chain_work(c) == chain_work(c.drop_last()) + block_work(
                        c.last().header.target,
                    ));
                } else {
                    let c = chain_to(now, 0);
                    assert(c == seq![entry.block@]);
                    assert(c.drop_last() =~= Seq::<BlockView>::empty());
                    assert(chain_work(c.drop_last()) == 0);
                    assert(chain_work(c) == chain_work(c.drop_last()) + block_work(
                        c.last().header.target,
                    ));
                }
            }
            assert forall|k: int| 0 <= k < self.positions@.len() implies #[trigger] slot_ok(
                self.index@,
                self.positions@,
                self.blocks@,
                k,
            ) by {
                assert(slot_ok(old(self).index@, old(self).positions@, old(self).blocks@, k));
            }
            assert forall|h: Seq<u8>| self.knows(h) <==> old(self).knows(h) || h
                == block.hash@ by {
                if old(self).knows(h) {
                    let i = choose|i: int|
                        0 <= i < idx.len() && (#[trigger] idx[i]).block.hash@ == h;
                    assert(now[i].block.hash@ == h);
                }
                if h == block.hash@ {
                    assert(now[n].block.hash@ == h);
                }
                if self.knows(h) {
                    let i = choose|i: int|
                        0 <= i < now.len() && (#[trigger] now[i]).block.hash@ == h;
                    if i < n {
                        assert(idx[i].block.hash@ == h);
                    }
                }
            }
        }
    }

    /// Puts a block whose transactions have just been applied on top of the
    /// active chain.
    fn push_active(&mut self, block: Block, log: UndoLog, pos: usize)
        requires
            old(self).utxos.wf(),
            index_linked(old(self).index@),
            active_placed(old(self).index@, old(self).positions@, old(self).blocks@),
            journals_match(block_views(old(self).blocks@), old(self).undo@),
            pos < old(self).index@.len(),
            old(self).index@[pos as int].block@ == block@,
            old(self).blocks@.len() == 0 ==> pos == 0,
            old(self).blocks@.len() > 0 ==> pos > 0 && old(self).index@[pos as int].parent == old(
                self,
            ).positions@.last(),
            ledger(old(self).utxos@, log@) == fresh_ledger(
                chain_utxos(old(self).active()),
            ).apply_txs(block@.transactions, block.header.height),
            first_chain_error(old(self).active().push(block@)) is None,
        ensures
            final(self).wf(),
            final(self).active() == old(self).active().push(block@),
            final(self).positions@ == old(self).positions@.push(pos),
            final(self).index == old(self).index,
            final(self).utxos == old(self).utxos,
    {
        let ghost before = self.active();
        self.blocks.push(block);
        self.positions.push(pos);
        self.undo.push(log);
        proof {
            let now = self.active();
            assert(now =~= before.push(block@));
            assert(now.drop_last() == before);
            assert forall|k: int| 0 <= k < self.positions@.len() implies #[trigger] slot_ok(
                self.index@,
                self.positions@,
                self.blocks@,
                k,
            ) by {
                if k < before.len() {
                    assert(slot_ok(old(self).index@, old(self).positions@, old(self).blocks@, k));
                }
            }
            lemma_rewind_apply_txs(
                fresh_ledger(chain_utxos(before)),
                block@.transactions,
                block.header.height,
            );
            assert(ledger(self.utxos@, log@).rewind() == chain_utxos(before));
            assert forall|k: int| 0 <= k < self.undo@.len() implies undo_spec(
                chain_utxos(now.take(k + 1)),
                (#[trigger] self.undo@[k])@,
            ) == chain_utxos(now.take(k)) by {
                if k < before.len() {
                    assert(now.take(k + 1) == before.take(k + 1));
                    assert(now.take(k) == before.take(k));
                    assert(self.undo@[k] == old(self).undo@[k]);
                } else {
                    assert(now.take(k + 1) == now);
                    assert(now.take(k) == before);
                }
            }
        }
    }

    /// Takes the tip off the active chain and undoes it.
    fn pop_active(&mut self) -> (popped: (Block, usize))
        requires
            old(self).wf(),
            old(self).blocks@.len() > 1,
        ensures
            final(self).wf(),
            final(self).active() == old(self).active().drop_last(),
            popped.0@ == old(self).active().last(),
            popped.1 == old(self).positions@.last(),
            final(self).positions@ == old(self).positions@.drop_last(),
            final(self).index == old(self).index,
    {
        let ghost before = self.active();
        let n = self.blocks.len();
        let block = self.blocks.pop().unwrap();
        let pos = self.positions.pop().unwrap();
        let log = self.undo.pop().unwrap();
        proof {
            assert(before.take(n as int) == before);
            assert(before.take(n - 1) == before.drop_last());
        }
        self.utxos.undo(log);
        proof {
            let now = self.active();
            assert(now =~= before.drop_last());
            lemma_chain_prefix_valid(before, n - 1);
            assert forall|k: int| 0 <= k < self.positions@.len() implies #[trigger] slot_ok(
                self.index@,
                self.positions@,
                self.blocks@,
                k,
            ) by {
                assert(slot_ok(old(self).index@, old(self).positions@, old(self).blocks@, k));
            }
            assert forall|k: int| 0 <= k < self.undo@.len() implies undo_spec(
                chain_utxos(now.take(k + 1)),
                (#[trigger] self.undo@[k])@,
            ) == chain_utxos(now.take(k)) by {
                assert(now.take(k + 1) == before.take(k + 1));
                assert(now.take(k) == before.take(k));
                assert(self.undo@[k] == old(self).undo@[k]);
            }
        }
        (block, pos)
    }
}

/// The blocks at the places `rev` of the index, last place first.
spec fn tail_views(idx: Seq<BlockIndexEntry>, rev: Seq<usize>) -> Seq<BlockView> {
    Seq::new(rev.len(), |j: int| idx[rev[rev.len() - 1 - j] as int].block@)
}

/// The places `rev`, read last to first, are a branch of the index that
/// starts right above the place `base`.
spec fn branch_ok(idx: Seq<BlockIndexEntry>, rev: Seq<usize>, base: usize) -> bool {
    &&& forall|j: int| 0 <= j < rev.len() ==> 0 < #[trigger] rev[j] < idx.len()
    &&& forall|j: int|
        0 <= j < rev.len() - 1 ==> idx[(#[trigger] rev[j]) as int].parent == rev[j + 1]
    &&& rev.len() > 0 ==> idx[rev.last() as int].parent == base
}

/// The block at slot `k` of the chain `full` stands at place `places[k]` of
/// the index, right above the block of the slot before.
spec fn placed(idx: Seq<BlockIndexEntry>, full: Seq<BlockView>, places: Seq<usize>, k: int) -> bool {
    &&& 0 < places[k] < idx.len()
    &&& idx[places[k] as int].block@ == full[k]
    &&& idx[places[k] as int].parent == places[k - 1]
}

fn reverse_blocks(mut rev: Vec<Block>) -> (out: Vec<Block>)
    ensures
        block_views(out@) == block_views(rev@).reverse(),
{
    let ghost all = block_views(rev@);
    let mut out: Vec<Block> = Vec::new();
    while rev.len() > 0
        invariant
            block_views(rev@) == all.take(rev@.len() as int),
            out@.len() + rev@.len() == all.len(),
            forall|j: int|
                0 <= j < out@.len() ==> (#[trigger] out@[j])@ == all[all.len() - 1 - j],
        decreases rev.len(),
    {
        let ghost before = block_views(rev@);
        let b = rev.pop().unwrap();
        assert(block_views(rev@) =~= before.drop_last());
        assert(b@ == before.last());
        out.push(b);
    }
    assert(block_views(out@) =~= all.reverse());
    out
}

impl Blockchain {
    /// Installs the genesis block on a chain that has none, after checking
    /// that the hard-coded block is what it claims to be.
    pub fn initialize(&mut self) -> (installed: bool)
        requires
            old(self).wf(),
        ensures
            final(self).wf(),
            installed == (old(self).active().len() == 0 && genesis_verifies()),
            installed ==> final(self).active() == seq![spec_genesis()],
            installed ==> forall|h: Seq<u8>| final(self).knows(h) <==> h == spec_genesis().hash,
            installed ==> forall|b: BlockView| final(self).holds(b) <==> b == spec_genesis(),
            !installed ==> final(self).active() == old(self).active() && final(self).utxo_map()
                == old(self).utxo_map(),
            !installed ==> forall|h: Seq<u8>| final(self).knows(h) == old(self).knows(h),
    {
        if self.blocks.len() > 0 {
            return false;
        }
        let genesis = genesis_block();
        if !genesis.verify_pow() {
            return false;
        }
        let root = merkle_root(genesis.transactions.as_slice());
        if !bytes_eq(root.as_slice(), genesis.header.merkle_root.as_slice()) {
            return false;
        }
        assert(self.active() =~= Seq::<BlockView>::empty());
        assert(forall|h: Seq<u8>| !self.knows(h));
        let log = apply_block(&mut self.utxos, &genesis);
        self.push_index(genesis.clone(), 0);
        proof {
            assert(first_chain_error(self.active().push(genesis@)) is None);
        }
        self.push_active(genesis, log, 0);
        assert(self.active() =~= seq![spec_genesis()]);
        proof {
            self.lemma_holds_at(spec_genesis(), 0);
            assert forall|b: BlockView| self.holds(b) implies b == spec_genesis() by {
                assert(self.place(b.hash) == 0);
            }
        }
        true
    }

    /// Takes blocks off the active chain until `keep` are left. The blocks
    /// taken off come back with their places in the index, tip first.
    fn rollback_to(&mut self, keep: usize) -> (gone: (Vec<Block>, Vec<usize>))
        requires
            old(self).wf(),
            1 <= keep <= old(self).blocks@.len(),
        ensures
            final(self).wf(),
            final(self).index == old(self).index,
            final(self).active() == old(self).active().take(keep as int),
            final(self).positions@ == old(self).positions@.take(keep as int),
            gone.0@.len() == old(self).blocks@.len() - keep,
            gone.1@.len() == gone.0@.len(),
            forall|j: int|
                0 <= j < gone.0@.len() ==> (#[trigger] gone.0@[j])@ == old(self).active()[old(
                    self,
                ).blocks@.len() - 1 - j],
            forall|j: int|
                0 <= j < gone.1@.len() ==> #[trigger] gone.1@[j] == old(self).positions@[old(
                    self,
                ).blocks@.len() - 1 - j],
    {
        let ghost full = self.active();
        let ghost places = self.positions@;
        let total = self.blocks.len();
        let mut blocks: Vec<Block> = Vec::new();
        let mut at: Vec<usize> = Vec::new();
        assert(full.take(total as int) == full);
        assert(places.take(total as int) == places);
        while self.blocks.len() > keep
            invariant
                self.wf(),
                self.index == old(self).index,
                1 <= keep <= self.blocks@.len() <= total,
                total == full.len(),
                places.len() == total,
                self.active() == full.take(self.blocks@.len() as int),
                self.positions@ == places.take(self.blocks@.len() as int),
                blocks@.len() == total - self.blocks@.len(),
                at@.len() == blocks@.len(),
                forall|j: int| 0 <= j < blocks@.len() ==> (#[trigger] blocks@[j])@ == full[total - 1 - j],
                forall|j: int| 0 <= j < at@.len() ==> #[trigger] at@[j] == places[total - 1 - j],
            decreases self.blocks.len(),
        {
            let ghost n = self.blocks@.len() as int;
            let (b, p) = self.pop_active();
            proof {
                assert(full.take(n).drop_last() == full.take(n - 1));
                assert(places.take(n).drop_last() == places.take(n - 1));
                assert(full.take(n).last() == full[n - 1]);
                assert(places.take(n).last() == places[n - 1]);
            }
            blocks.push(b);
            at.push(p);
        }
        (blocks, at)
    }

    /// Puts blocks back on the active chain without holding them against the
    /// rules again. They come tip first, as `rollback_to` hands them out.
    fn reconnect(
        &mut self,
        blocks: Vec<Block>,
        at: Vec<usize>,
        Ghost(full): Ghost<Seq<BlockView>>,
        Ghost(places): Ghost<Seq<usize>>,
    )
        requires
            old(self).wf(),
            first_chain_error(full) is None,
            full.len() == places.len(),
            old(self).blocks@.len() >= 1,
            old(self).blocks@.len() + blocks@.len() == full.len(),
            at@.len() == blocks@.len(),
            old(self).active() == full.take(old(self).blocks@.len() as int),
            old(self).positions@ == places.take(old(self).blocks@.len() as int),
            forall|j: int|
                0 <= j < blocks@.len() ==> (#[trigger] blocks@[j])@ == full[full.len() - 1 - j],
            forall|j: int| 0 <= j < at@.len() ==> #[trigger] at@[j] == places[full.len() - 1 - j],
            forall|k: int| 0 < k < full.len() ==> #[trigger] placed(old(self).index@, full, places, k),
        ensures
            final(self).wf(),
            final(self).index == old(self).index,
            final(self).active() == full,
            final(self).positions@ == places,
    {
        let mut blocks = blocks;
        let mut at = at;
        while blocks.len() > 0
            invariant
                self.wf(),
                self.index == old(self).index,
                first_chain_error(full) is None,
                full.len() == places.len(),
                self.blocks@.len() >= 1,
                self.blocks@.len() + blocks@.len() == full.len(),
                at@.len() == blocks@.len(),
                self.active() == full.take(self.blocks@.len() as int),
                self.positions@ == places.take(self.blocks@.len() as int),
                forall|j: int|
                    0 <= j < blocks@.len() ==> (#[trigger] blocks@[j])@ == full[full.len() - 1
                        - j],
                forall|j: int|
                    0 <= j < at@.len() ==> #[trigger] at@[j] == places[full.len() - 1 - j],
                forall|k: int| 0 < k < full.len() ==> #[trigger] placed(self.index@, full, places, k),
            decreases blocks.len(),
        {
            let ghost n = self.blocks@.len() as int;
            let ghost m = blocks@.len() as int;
            let block = blocks.pop().unwrap();
            let p = at.pop().unwrap();
            proof {
                assert(block@ == full[n]);
                assert(p == places[n]);
                assert(placed(self.index@, full, places, n));
                assert(places.take(n).last() == places[n - 1]);
                assert(full.take(n).push(full[n]) == full.take(n + 1));
                assert(places.take(n).push(places[n]) == places.take(n + 1));
                lemma_chain_prefix_valid(full, n + 1);
            }
            let log = apply_block(&mut self.utxos, &block);
            self.push_active(block, log, p);
        }
        assert(full.take(full.len() as int) == full);
        assert(places.take(full.len() as int) == places);
    }

    /// Walks from the place `pos` of the index down the parent links to the
    /// first block that is on the active chain. Returns the places passed,
    /// `pos` first, and the number of active blocks up to the one reached.
    fn branch_from(&self, pos: usize) -> (found: (Vec<usize>, usize))
        requires
            self.wf(),
            pos < self.index@.len(),
        ensures
            1 <= found.1 <= self.blocks@.len(),
            branch_ok(self.index@, found.0@, self.positions@[found.1 - 1]),
            chain_to(self.index@, pos as int) == self.active().take(found.1 as int) + tail_views(
                self.index@,
                found.0@,
            ),
            found.0@.len() > 0 ==> found.0@[0] == pos,
            found.0@.len() == 0 ==> self.positions@[found.1 - 1] == pos,
            forall|j: int, k: int|
                0 <= j < found.0@.len() && 0 <= k < self.positions@.len() ==> found.0@[j]
                    != self.positions@[k],
    {
        let ghost idx = self.index@;
        let mut rev: Vec<usize> = Vec::new();
        let mut cur: usize = pos;
        assert(chain_to(idx, pos as int) =~= chain_to(idx, cur as int) + tail_views(idx, rev@));
        loop
            invariant
                self.wf(),
                idx == self.index@,
                cur < idx.len(),
                pos < idx.len(),
                branch_ok(idx, rev@, cur),
                chain_to(idx, pos as int) == chain_to(idx, cur as int) + tail_views(idx, rev@),
                rev@.len() > 0 ==> rev@[0] == pos,
                rev@.len() == 0 ==> cur == pos,
                forall|j: int, k: int|
                    0 <= j < rev@.len() && 0 <= k < self.positions@.len() ==> rev@[j]
                        != self.positions@[k],
            decreases cur,
        {
            let slots = self.positions.len();
            match self.slot_of(cur) {
                Some(k) => {
                    proof {
                        self.lemma_active_chain(k as int);
                    }
                    assert(k < slots);
                    return (rev, k + 1);
                },
                None => {
                    proof {
                        assert(slot_ok(self.index@, self.positions@, self.blocks@, 0));
                        assert(cur > 0);
                        assert(link_ok(idx, cur as int));
                    }
                    let ghost before = rev@;
                    let parent = self.index[cur].parent;
                    rev.push(cur);
                    proof {
                        assert(chain_to(idx, cur as int) == chain_to(idx, parent as int).push(
                            idx[cur as int].block@,
                        ));
                        assert(tail_views(idx, rev@) =~= seq![idx[cur as int].block@] + tail_views(
                            idx,
                            before,
                        ));
                        assert(chain_to(idx, pos as int) =~= chain_to(idx, parent as int)
                            + tail_views(idx, rev@));
                    }
                    cur = parent;
                },
            }
        }
    }
}

impl Blockchain {
    /// Holds the block at place `p` of the index against the rules on top of
    /// the active chain and makes it the tip.
    fn connect_place(&mut self, p: usize) -> (done: Result<(), BlockError>)
        requires
            old(self).wf(),
            old(self).blocks@.len() >= 1,
            0 < p < old(self).index@.len(),
            old(self).index@[p as int].parent == old(self).positions@.last(),
        ensures
            final(self).wf(),
            final(self).index == old(self).index,
            match done {
                Ok(_) => {
                    &&& final(self).active() == old(self).active().push(
                        old(self).index@[p as int].block@,
                    )
                    &&& final(self).positions@ == old(self).positions@.push(p)
                },
                Err(e) => {
                    &&& first_chain_error(
                        old(self).active().push(old(self).index@[p as int].block@),
                    ) == Some(e)
                    &&& final(self).active() == old(self).active()
                    &&& final(self).positions@ == old(self).positions@
                    &&& final(self).utxo_map() == old(self).utxo_map()
                },
            },
    {
        let block = self.index[p].block.clone();
        assert(self.active().push(block@).drop_last() == self.active());
        match validate_and_apply_block(&block, self.blocks.as_slice(), &mut self.utxos) {
            Ok(log) => {
                self.push_active(block, log, p);
                Ok(())
            },
            Err(e) => Err(e),
        }
    }

    /// Puts the active chain back: takes off what stands above the first
    /// `keep` blocks and puts the blocks `gone` back on.
    fn restore(
        &mut self,
        keep: usize,
        gone: Vec<Block>,
        at: Vec<usize>,
        Ghost(full): Ghost<Seq<BlockView>>,
        Ghost(places): Ghost<Seq<usize>>,
    )
        requires
            old(self).wf(),
            first_chain_error(full) is None,
            full.len() == places.len(),
            1 <= keep <= old(self).blocks@.len(),
            keep + gone@.len() == full.len(),
            at@.len() == gone@.len(),
            old(self).active().take(keep as int) == full.take(keep as int),
            old(self).positions@.take(keep as int) == places.take(keep as int),
            forall|j: int|
                0 <= j < gone@.len() ==> (#[trigger] gone@[j])@ == full[full.len() - 1 - j],
            forall|j: int| 0 <= j < at@.len() ==> #[trigger] at@[j] == places[full.len() - 1 - j],
            forall|k: int|
                0 < k < full.len() ==> #[trigger] placed(old(self).index@, full, places, k),
        ensures
            final(self).wf(),
            final(self).index == old(self).index,
            final(self).active() == full,
            final(self).positions@ == places,
            final(self).utxo_map() == chain_utxos(full),
    {
        let _ = self.rollback_to(keep);
        self.reconnect(gone, at, Ghost(full), Ghost(places));
    }

    /// Puts the branch at the places `rev` of the index (tip first) on top
    /// of the active chain, block by block, each held against the rules. It
    /// stops at the first block that breaks one, with the blocks before it
    /// connected.
    fn connect_branch(&mut self, rev: Vec<usize>, Ghost(candidate): Ghost<Seq<BlockView>>) -> (done:
        Result<(), BlockError>)
        requires
            old(self).wf(),
            old(self).blocks@.len() >= 1,
            rev@.len() > 0,
            branch_ok(old(self).index@, rev@, old(self).positions@.last()),
            candidate == old(self).active() + tail_views(old(self).index@, rev@),
        ensures
            final(self).wf(),
            final(self).index == old(self).index,
            final(self).blocks@.len() >= old(self).blocks@.len(),
            final(self).active().take(old(self).blocks@.len() as int) == old(self).active(),
            final(self).positions@.take(old(self).blocks@.len() as int) == old(self).positions@,
            match done {
                Ok(_) => first_chain_error(candidate) is None && final(self).active() == candidate,
                Err(e) => first_chain_error(candidate) == Some(e),
            },
    {
        let ghost base = self.active();
        let ghost seats = self.positions@;
        let ghost idx = self.index@;
        let keep = self.blocks.len();
        let mut rest = rev;
        assert(candidate.take(keep as int) =~= base);
        assert(rest@.take(rest@.len() as int) == rest@);
        assert(seats.take(keep as int) == seats);
        while rest.len() > 0
            invariant
                self.wf(),
                self.index == old(self).index,
                self.index@ == idx,
                base == old(self).active(),
                seats == old(self).positions@,
                keep == base.len(),
                keep == seats.len(),
                1 <= keep <= self.blocks@.len(),
                rest@.len() <= rev@.len(),
                rest@ == rev@.take(rest@.len() as int),
                self.blocks@.len() + rest@.len() == candidate.len(),
                candidate.len() == keep + rev@.len(),
                candidate == base + tail_views(idx, rev@),
                self.active() == candidate.take(self.blocks@.len() as int),
                self.positions@.take(keep as int) == seats,
                self.positions@.len() == self.blocks@.len(),
                branch_ok(idx, rev@, seats.last()),
                rest@.len() < rev@.len() ==> self.positions@.last() == rev@[rest@.len() as int],
                rest@.len() == rev@.len() ==> self.positions@.last() == seats.last(),
            decreases rest.len(),
        {
            let ghost n = self.blocks@.len() as int;
            let ghost r = rest@.len() as int;
            let ghost before = self.positions@;
            let p = rest.pop().unwrap();
            proof {
                assert(p == rev@[r - 1]);
                assert(rest@ =~= rev@.take(r - 1));
                assert(candidate[n] == tail_views(idx, rev@)[n - keep]);
                assert(idx[p as int].block@ == candidate[n]);
                assert(candidate.take(n + 1) == candidate.take(n).push(candidate[n]));
            }
            match self.connect_place(p) {
                Ok(_) => {
                    assert(self.positions@.take(keep as int) =~= before.take(keep as int));
                },
                Err(e) => {
                    proof {
                        lemma_chain_error_stays(candidate, n + 1);
                        assert(candidate.take(n).take(keep as int) =~= base);
                    }
                    return Err(e);
                },
            }
        }
        assert(candidate.take(candidate.len() as int) == candidate);
        assert(candidate.take(keep as int) =~= base);
        Ok(())
    }

    /// Replaces the active chain above its first `keep` blocks by the branch
    /// at the places `rev` of the index (tip first), holding every block of
    /// the branch against the rules. Where one breaks a rule the chain is
    /// put back as it was.
    fn reorganize(&mut self, rev: Vec<usize>, keep: usize, Ghost(candidate): Ghost<
        Seq<BlockView>,
    >) -> (done: Result<Vec<Block>, BlockError>)
        requires
            old(self).wf(),
            1 <= keep <= old(self).blocks@.len(),
            rev@.len() > 0,
            branch_ok(old(self).index@, rev@, old(self).positions@[keep - 1]),
            candidate == old(self).active().take(keep as int) + tail_views(
                old(self).index@,
                rev@,
            ),
        ensures
            final(self).wf(),
            final(self).index == old(self).index,
            match done {
                Ok(disconnected) => {
                    &&& first_chain_error(candidate) is None
                    &&& final(self).active() == candidate
                    &&& block_views(disconnected@) == old(self).active().skip(keep as int)
                },
                Err(e) => {
                    &&& first_chain_error(candidate) == Some(e)
                    &&& final(self).active() == old(self).active()
                    &&& final(self).positions@ == old(self).positions@
                    &&& final(self).utxo_map() == old(self).utxo_map()
                },
            },
    {
        let ghost full = self.active();
        let ghost places = self.positions@;
        let ghost idx = self.index@;
        proof {
            assert forall|k: int| 0 < k < full.len() implies #[trigger] placed(
                idx,
                full,
                places,
                k,
            ) by {
                assert(slot_ok(idx, places, self.blocks@, k));
            }
        }
        let (gone, at) = self.rollback_to(keep);
        assert(places.take(keep as int).last() == places[keep - 1]);
        match self.connect_branch(rev, Ghost(candidate)) {
            Ok(_) => {
                let disconnected = reverse_blocks(gone);
                assert(block_views(disconnected@) =~= full.skip(keep as int));
                Ok(disconnected)
            },
            Err(e) => {
                self.restore(keep, gone, at, Ghost(full), Ghost(places));
                Err(e)
            },
        }
    }

    /// Whether the block `b`, taken in at `now`, is held as a block off the
    /// tip: it is new and not from the future, its parent is known and is
    /// not the tip, and it breaks none of the rules that it and the chain up
    /// to its parent decide alone.
    pub open spec fn side_header_ok(&self, b: BlockView, now: i64) -> bool {
        &&& !self.knows(b.hash)
        &&& b.header.timestamp <= now + MAX_FUTURE_DRIFT
        &&& self.knows(b.header.prev_hash)
        &&& b.header.prev_hash != self.active().last().hash
        &&& spec_standalone_error(self.ancestry(b.header.prev_hash), b) is None
    }

    /// What handing in the block `b` leads to: the outcome, or the rule that
    /// refuses the block. A block is answered as known where it is the very
    /// block that the index holds. Another block under a known hash is held
    /// against the rules that it and the chain up to its parent decide
    /// alone, and refused by the first that it breaks; it is never indexed.
    pub open spec fn spec_add(&self, b: BlockView, now: i64) -> Result<OutcomeKind, BlockError> {
        if self.holds(b) {
            Ok(OutcomeKind::Known)
        } else if b.header.timestamp > now + MAX_FUTURE_DRIFT {
            Err(BlockError::InvalidTimestamp)
        } else if !self.knows(b.header.prev_hash) {
            Err(BlockError::MissingParent)
        } else if self.knows(b.hash) {
            match spec_standalone_error(self.ancestry(b.header.prev_hash), b) {
                Some(e) => Err(e),
                None => Ok(OutcomeKind::Known),
            }
        } else if b.header.prev_hash == self.active().last().hash {
            match spec_block_error(self.active(), self.utxo_map(), b) {
                Some(e) => Err(e),
                None => Ok(OutcomeKind::Extended),
            }
        } else {
            let parent_chain = self.ancestry(b.header.prev_hash);
            match spec_standalone_error(parent_chain, b) {
                Some(e) => Err(e),
                None => if chain_work(parent_chain.push(b)) <= chain_work(self.active()) {
                    Ok(OutcomeKind::SideBranch)
                } else {
                    match first_chain_error(parent_chain.push(b)) {
                        Some(e) => Err(e),
                        None => Ok(OutcomeKind::Reorganized),
                    }
                },
            }
        }
    }

    /// The blocks from the genesis to the block at place `pos` of the index.
    fn chain_blocks_to(&self, pos: usize) -> (chain: Vec<Block>)
        requires
            index_linked(self.index@),
            pos < self.index@.len(),
        ensures
            block_views(chain@) == chain_to(self.index@, pos as int),
    {
        let ghost idx = self.index@;
        let mut rev: Vec<Block> = Vec::new();
        let mut cur: usize = pos;
        assert(chain_to(idx, pos as int) =~= chain_to(idx, cur as int) + block_views(
            rev@,
        ).reverse());
        while cur > 0
            invariant
                idx == self.index@,
                index_linked(idx),
                cur <= pos,
                pos < idx.len(),
                chain_to(idx, pos as int) == chain_to(idx, cur as int) + block_views(
                    rev@,
                ).reverse(),
            decreases cur,
        {
            let ghost before = rev@;
            proof {
                assert(link_ok(idx, cur as int));
            }
            let copy = self.index[cur].block.clone();
            let parent = self.index[cur].parent;
            rev.push(copy);
            proof {
                assert(block_views(rev@) =~= block_views(before).push(copy@));
                assert(block_views(rev@).reverse() =~= seq![copy@] + block_views(
                    before,
                ).reverse());
                assert(chain_to(idx, cur as int) == chain_to(idx, parent as int).push(copy@));
                assert(chain_to(idx, pos as int) =~= chain_to(idx, parent as int) + block_views(
                    rev@,
                ).reverse());
            }
            cur = parent;
        }
        let ghost before = rev@;
        let first = self.index[0].block.clone();
        rev.push(first);
        proof {
            assert(block_views(rev@) =~= block_views(before).push(first@));
            assert(chain_to(idx, 0) == seq![first@]);
            assert(block_views(rev@).reverse() =~= seq![first@] + block_views(before).reverse());
        }
        reverse_blocks(rev)
    }

    /// Takes the last entry off the index again: a block that was entered and
    /// then refused is not kept.
    fn forget_last(&mut self, Ghost(before): Ghost<Seq<BlockIndexEntry>>)
        requires
            old(self).wf(),
            old(self).index@.len() == before.len() + 1,
            old(self).index@.drop_last() == before,
            before.len() >= 1,
            index_linked(before),
            active_placed(before, old(self).positions@, old(self).blocks@),
        ensures
            final(self).wf(),
            final(self).index@ == before,
            final(self).active() == old(self).active(),
            final(self).utxo_map() == old(self).utxo_map(),
    {
        let _ = self.index.pop();
    }

    /// Takes in a block that names the tip as its parent.
    fn extend_tip(&mut self, block: Block) -> (done: Result<(), BlockError>)
        requires
            old(self).wf(),
            old(self).blocks@.len() >= 1,
            !old(self).knows(block.hash@),
            block.header.prev_hash@ == old(self).active().last().hash,
        ensures
            final(self).wf(),
            forall|h: Seq<u8>| old(self).knows(h) ==> final(self).knows(h),
            forall|h: Seq<u8>| final(self).knows(h) ==> old(self).knows(h) || h == block.hash@,
            old(self).knows(block.header.prev_hash@),
            match done {
                Ok(_) => {
                    &&& spec_block_error(old(self).active(), old(self).utxo_map(), block@) is None
                    &&& final(self).active() == old(self).active().push(block@)
                    &&& final(self).knows(block.hash@)
                    &&& chain_work(final(self).active()) > chain_work(old(self).active())
                    &&& index_grown(old(self).index@, final(self).index@, block@)
                },
                Err(e) => {
                    &&& spec_block_error(old(self).active(), old(self).utxo_map(), block@) == Some(
                        e,
                    )
                    &&& final(self).active() == old(self).active()
                    &&& final(self).utxo_map() == old(self).utxo_map()
                    &&& !final(self).knows(block.hash@)
                    &&& final(self).index@ == old(self).index@
                },
            },
    {
        let n = self.blocks.len();
        let ghost idx = self.index@;
        let ghost active = self.active();
        let tip_place = self.positions[n - 1];
        proof {
            assert(slot_ok(idx, self.positions@, self.blocks@, n - 1));
            assert(idx[tip_place as int].block.hash@ == active.last().hash);
        }
        match validate_and_apply_block(&block, self.blocks.as_slice(), &mut self.utxos) {
            Err(e) => Err(e),
            Ok(log) => {
                self.push_index(block.clone(), tip_place);
                let place = self.index.len() - 1;
                proof {
                    assert(active.push(block@).drop_last() == active);
                    lemma_block_work_positive(block.header.target@);
                }
                self.push_active(block, log, place);
                Ok(())
            },
        }
    }

    /// Takes in a block that names a known block other than the tip as its
    /// parent.
    fn add_side_block(&mut self, block: Block, parent: usize) -> (done: Result<
        BlockOutcome,
        BlockError,
    >)
        requires
            old(self).wf(),
            old(self).blocks@.len() >= 1,
            !old(self).knows(block.hash@),
            parent < old(self).index@.len(),
            old(self).index@[parent as int].block.hash@ == block.header.prev_hash@,
        ensures
            final(self).wf(),
            forall|h: Seq<u8>| old(self).knows(h) ==> final(self).knows(h),
            forall|h: Seq<u8>| final(self).knows(h) ==> old(self).knows(h) || h == block.hash@,
            ({
                let parent_chain = chain_to(old(self).index@, parent as int);
                let candidate = parent_chain.push(block@);
                match done {
                    Err(e) => {
                        &&& final(self).active() == old(self).active()
                        &&& final(self).utxo_map() == old(self).utxo_map()
                        &&& !final(self).knows(block.hash@)
                        &&& final(self).index@ == old(self).index@
                        &&& match spec_standalone_error(parent_chain, block@) {
                            Some(first) => e == first,
                            None => chain_work(candidate) > chain_work(old(self).active())
                                && first_chain_error(candidate) == Some(e),
                        }
                    },
                    Ok(outcome) => {
                        &&& spec_standalone_error(parent_chain, block@) is None
                        &&& final(self).knows(block.hash@)
                        &&& index_grown(old(self).index@, final(self).index@, block@)
                        &&& match outcome {
                            BlockOutcome::SideBranch => {
                                &&& chain_work(candidate) <= chain_work(old(self).active())
                                &&& final(self).active() == old(self).active()
                            },
                            BlockOutcome::Reorganized { disconnected, fork_height } => {
                                &&& chain_work(candidate) > chain_work(old(self).active())
                                &&& first_chain_error(candidate) is None
                                &&& final(self).active() == candidate
                                &&& 1 <= fork_height <= old(self).active().len()
                                &&& fork_height < candidate.len()
                                &&& candidate.take(fork_height as int) == old(self).active().take(
                                    fork_height as int,
                                )
                                &&& block_views(disconnected@) == old(self).active().skip(
                                    fork_height as int,
                                )
                            },
                            _ => false,
                        }
                    },
                }
            }),
    {
        let n = self.blocks.len();
        let ghost idx = self.index@;
        let ghost active = self.active();
        let ghost parent_chain = chain_to(idx, parent as int);
        let ghost candidate = parent_chain.push(block@);
        let ghost shown = block@;
        let tip_place = self.positions[n - 1];
        proof {
            assert(slot_ok(idx, self.positions@, self.blocks@, n - 1));
            self.lemma_active_chain(n - 1);
            assert(active.take(n as int) == active);
        }
        let behind = self.chain_blocks_to(parent);
        match check_standalone(&block, behind.as_slice()) {
            Some(e) => {
                return Err(e);
            },
            None => {},
        }
        self.push_index(block, parent);
        let place = self.index.len() - 1;
        proof {
            let now = self.index@;
            assert(work_ok(now, place as int));
            assert(work_ok(now, tip_place as int));
            assert(link_ok(now, place as int));
            assert(chain_to(now, place as int) == candidate);
            assert(chain_to(now, tip_place as int) == active);
        }
        if big_le(&self.index[place].cumulative_work, &self.index[tip_place].cumulative_work) {
            return Ok(BlockOutcome::SideBranch);
        }
        let (rev, keep) = self.branch_from(place);
        proof {
            if rev@.len() == 0 {
                assert(slot_ok(self.index@, self.positions@, self.blocks@, keep - 1));
                assert(slot_ok(idx, old(self).positions@, old(self).blocks@, keep - 1));
                assert(false);
            }
            assert(candidate.take(keep as int) =~= active.take(keep as int));
        }
        match self.reorganize(rev, keep, Ghost(candidate)) {
            Err(e) => {
                proof {
                    assert(self.index@.drop_last() =~= idx);
                    assert forall|k: int| 0 <= k < self.positions@.len() implies #[trigger] slot_ok(
                        idx,
                        self.positions@,
                        self.blocks@,
                        k,
                    ) by {
                        assert(slot_ok(idx, old(self).positions@, old(self).blocks@, k));
                        assert(block_views(self.blocks@)[k] == block_views(old(self).blocks@)[k]);
                    }
                }
                self.forget_last(Ghost(idx));
                proof {
                    assert forall|h: Seq<u8>| self.knows(h) == old(self).knows(h) by {
                        assert(self.index@ == old(self).index@);
                    }
                }
                Err(e)
            },
            Ok(disconnected) => Ok(BlockOutcome::Reorganized { disconnected, fork_height: keep }),
        }
    }

    /// A hash stands at one place of the index only.
    proof fn lemma_place(&self, hash: Seq<u8>, at: int)
        requires
            index_linked(self.index@),
            0 <= at < self.index@.len(),
            self.index@[at].block.hash@ == hash,
        ensures
            self.knows(hash),
            self.place(hash) == at,
    {
        let idx = self.index@;
        let chosen = self.place(hash);
        assert(idx[chosen].block.hash@ == hash);
        if chosen < at {
            assert(differ(idx, chosen, at));
        } else if at < chosen {
            assert(differ(idx, at, chosen));
        }
    }

    /// The block at a place of the index is one that the index holds.
    proof fn lemma_holds_at(&self, b: BlockView, at: int)
        requires
            index_linked(self.index@),
            0 <= at < self.index@.len(),
            self.index@[at].block@ == b,
        ensures
            self.holds(b),
    {
        self.lemma_place(b.hash, at);
    }

    /// An index that has kept its entries holds every block that it held.
    proof fn lemma_holds_kept(&self, after: Blockchain)
        requires
            index_linked(after.index@),
            after.index@.len() >= self.index@.len(),
            forall|i: int| 0 <= i < self.index@.len() ==> #[trigger] after.index@[i] == self.index@[i],
        ensures
            forall|b: BlockView| self.holds(b) ==> after.holds(b),
    {
        assert forall|b: BlockView| self.holds(b) implies after.holds(b) by {
            let at = self.place(b.hash);
            assert(after.index@[at] == self.index@[at]);
            after.lemma_holds_at(b, at);
        }
    }

    /// An index that has grown by the block `b` at most holds nothing but
    /// what it held and `b`.
    proof fn lemma_holds_from(&self, after: Blockchain, b: BlockView)
        requires
            index_linked(self.index@),
            after.index@ == self.index@ || index_grown(self.index@, after.index@, b),
        ensures
            forall|x: BlockView| after.holds(x) ==> self.holds(x) || x == b,
    {
        assert forall|x: BlockView| after.holds(x) implies self.holds(x) || x == b by {
            let at = after.place(x.hash);
            if at < self.index@.len() {
                assert(after.index@[at] == self.index@[at]);
                self.lemma_holds_at(x, at);
            }
        }
    }

    /// The index holds one block under one hash.
    pub proof fn lemma_one_block_per_hash(&self, a: BlockView, b: BlockView)
        requires
            self.holds(a),
            self.holds(b),
            a.hash == b.hash,
        ensures
            a == b,
    {
    }

    /// Answers a block whose hash stands at place `at` of the index: known
    /// where it is the block that stands there, else held against the rules
    /// that it and the chain up to its parent decide alone.
    fn check_known(&self, block: &Block, at: usize, now: i64) -> (done: Result<
        BlockOutcome,
        BlockError,
    >)
        requires
            self.wf(),
            at < self.index@.len(),
            self.index@[at as int].block.hash@ == block.hash@,
        ensures
            self.knows(block.hash@),
            match done {
                Err(e) => self.spec_add(block@, now) == Err::<OutcomeKind, BlockError>(e),
                Ok(outcome) => outcome is Known && self.spec_add(block@, now) == Ok::<
                    OutcomeKind,
                    BlockError,
                >(OutcomeKind::Known),
            },
    {
        proof {
            self.lemma_place(block.hash@, at as int);
        }
        if self.index[at].block.same_as(block) {
            return Ok(BlockOutcome::Known);
        }
        if block.header.timestamp as i128 > now as i128 + MAX_FUTURE_DRIFT as i128 {
            return Err(BlockError::InvalidTimestamp);
        }
        let parent = match self.find_entry(block.header.prev_hash.as_slice()) {
            None => {
                return Err(BlockError::MissingParent);
            },
            Some(p) => p,
        };
        proof {
            self.lemma_place(block.header.prev_hash@, parent as int);
        }
        let behind = self.chain_blocks_to(parent);
        match check_standalone(block, behind.as_slice()) {
            Some(e) => Err(e),
            None => Ok(BlockOutcome::Known),
        }
    }

    /// Takes in a block at the time `now`, in seconds. A block whose
    /// timestamp runs more than `MAX_FUTURE_DRIFT` ahead of `now` is
    /// refused. A block on the tip is held against every rule and becomes
    /// the new tip. A block on another known block is held against the rules
    /// that it and the chain up to its parent decide alone, and indexed;
    /// where its branch has strictly more work than the active chain, the
    /// chain is reorganized onto it, every block of the branch held against
    /// every rule on the way. A block that the index holds already is
    /// answered as known; another block under a known hash is refused by
    /// the first rule that it breaks. A refused block changes nothing: not
    /// the active chain, not the unspent outputs, not the index.
    pub fn validate_and_add_block(&mut self, block: Block, now: i64) -> (done: Result<
        BlockOutcome,
        BlockError,
    >)
        requires
            old(self).wf(),
        ensures
            final(self).wf(),
            forall|h: Seq<u8>| old(self).knows(h) ==> final(self).knows(h),
            forall|h: Seq<u8>| final(self).knows(h) ==> old(self).knows(h) || h == block.hash@,
            forall|b: BlockView| old(self).holds(b) ==> final(self).holds(b),
            forall|b: BlockView| final(self).holds(b) ==> old(self).holds(b) || b == block@,
            chain_work(final(self).active()) > chain_work(old(self).active()) || final(self).active()
                == old(self).active(),
            final(self).utxo_map() == chain_utxos(final(self).active()),
            first_chain_error(final(self).active()) is None,
            match done {
                Err(e) => {
                    &&& old(self).spec_add(block@, now) == Err::<OutcomeKind, BlockError>(e)
                    &&& final(self).active() == old(self).active()
                    &&& final(self).utxo_map() == old(self).utxo_map()
                    &&& forall|h: Seq<u8>| final(self).knows(h) == old(self).knows(h)
                    &&& forall|b: BlockView| final(self).holds(b) == old(self).holds(b)
                },
                Ok(outcome) => {
                    &&& old(self).spec_add(block@, now) == Ok::<OutcomeKind, BlockError>(
                        outcome.kind(),
                    )
                    &&& final(self).knows(block.hash@)
                    &&& outcome is Known || final(self).holds(block@)
                    &&& match outcome {
                        BlockOutcome::Known => final(self).active() == old(self).active() && final(self).utxo_map() == old(self).utxo_map(),
                        BlockOutcome::Extended => final(self).active() == old(self).active().push(
                            block@,
                        ) && final(self).knows(block.hash@),
                        BlockOutcome::SideBranch => final(self).active() == old(self).active()
                            && final(self).knows(block.hash@),
                        BlockOutcome::Reorganized { disconnected, fork_height } => {
                            &&& final(self).active() == old(self).ancestry(
                                block.header.prev_hash@,
                            ).push(block@)
                            &&& final(self).knows(block.hash@)
                            &&& 1 <= fork_height <= old(self).active().len()
                            &&& fork_height < final(self).active().len()
                            &&& final(self).active().take(fork_height as int) == old(
                                self,
                            ).active().take(fork_height as int)
                            &&& block_views(disconnected@) == old(self).active().skip(
                                fork_height as int,
                            )
                        },
                    }
                },
            },
    {
        match self.find_entry(block.hash.as_slice()) {
            Some(at) => {
                return self.check_known(&block, at, now);
            },
            None => {},
        }
        assert(!self.holds(block@));
        if block.header.timestamp as i128 > now as i128 + MAX_FUTURE_DRIFT as i128 {
            return Err(BlockError::InvalidTimestamp);
        }
        assert(!self.knows(block.hash@));
        let n = self.blocks.len();
        if n == 0 {
            assert(!self.knows(block.header.prev_hash@));
            return Err(BlockError::MissingParent);
        }
        let ghost shown = block@;
        if bytes_eq(block.header.prev_hash.as_slice(), self.blocks[n - 1].hash.as_slice()) {
            let done = self.extend_tip(block);
            proof {
                old(self).lemma_holds_kept(*self);
                old(self).lemma_holds_from(*self, shown);
                if done is Ok {
                    self.lemma_holds_at(shown, self.index@.len() - 1);
                }
            }
            return match done {
                Ok(_) => Ok(BlockOutcome::Extended),
                Err(e) => Err(e),
            };
        }
        let parent = match self.find_entry(block.header.prev_hash.as_slice()) {
            None => {
                return Err(BlockError::MissingParent);
            },
            Some(p) => p,
        };
        proof {
            self.lemma_place(block.header.prev_hash@, parent as int);
        }
        let done = self.add_side_block(block, parent);
        proof {
            old(self).lemma_holds_kept(*self);
            old(self).lemma_holds_from(*self, shown);
            if done is Ok {
                self.lemma_holds_at(shown, self.index@.len() - 1);
            }
        }
        done
    }

    /// A block off the tip whose branch has no more work than the active
    /// chain is kept on its side branch: a tie does not move the tip.
    pub proof fn lemma_tie_keeps_the_tip(&self, b: BlockView, now: i64)
        requires
            self.side_header_ok(b, now),
            chain_work(self.ancestry(b.header.prev_hash).push(b)) <= chain_work(self.active()),
        ensures
            self.spec_add(b, now) == Ok::<OutcomeKind, BlockError>(OutcomeKind::SideBranch),
    {
    }

    /// The unspent outputs are those of the active chain applied, block by
    /// block, to the empty set. This holds after every extension and every
    /// reorganization, whatever branch was active before.
    pub proof fn lemma_utxos_follow_chain(&self)
        requires
            self.wf(),
        ensures
            self.utxo_map() == chain_utxos(self.active()),
            first_chain_error(self.active()) is None,
    {
    }
}

/// A coinbase output of the given address that can be spent at `height`.
pub open spec fn matured_coinbase(e: UtxoEntryView, address: Seq<u8>, height: u64) -> bool {
    e.pubkey_hash == address && e.is_coinbase && height >= e.creation_height + COINBASE_MATURITY
}

/// The first unspent output of a listing that is a matured coinbase output
/// of the given address, if there is one.
pub open spec fn first_matured(
    listing: Seq<(OutPointView, UtxoEntryView)>,
    address: Seq<u8>,
    height: u64,
) -> Option<(OutPointView, UtxoEntryView)>
    decreases listing.len(),
{
    if listing.len() == 0 {
        None
    } else if matured_coinbase(listing.first().1, address, height) {
        Some(listing.first())
    } else {
        first_matured(listing.drop_first(), address, height)
    }
}

proof fn lemma_first_matured(
    listing: Seq<(OutPointView, UtxoEntryView)>,
    address: Seq<u8>,
    height: u64,
    upto: int,
)
    requires
        0 <= upto <= listing.len(),
        forall|j: int| 0 <= j < upto ==> !matured_coinbase((#[trigger] listing[j]).1, address, height),
    ensures
        upto < listing.len() && matured_coinbase(listing[upto].1, address, height)
            ==> first_matured(listing, address, height) == Some(listing[upto]),
        upto == listing.len() ==> first_matured(listing, address, height) is None,
    decreases upto,
{
    if upto > 0 {
        let rest = listing.drop_first();
        assert(!matured_coinbase(listing[0].1, address, height));
        assert forall|j: int| 0 <= j < upto - 1 implies !matured_coinbase(
            (#[trigger] rest[j]).1,
            address,
            height,
        ) by {
            assert(rest[j] == listing[j + 1]);
        }
        lemma_first_matured(rest, address, height, upto - 1);
        if upto < listing.len() {
            assert(rest[upto - 1] == listing[upto]);
        }
    }
}

/// The header found by a search from the timestamp `from`: it meets its
/// target, and no header tried before it does.
pub open spec fn first_found(start: BlockHeaderView, from: i64, t: i64, k: u64) -> bool {
    &&& in_search(from, 0, t, k)
    &&& header_meets_target(candidate(start, t, k))
    &&& forall|t2: i64, k2: u64|
        in_search(from, 0, t2, k2) && tried_before(t2, k2, t, k) ==> !header_meets_target(
            #[trigger] candidate(start, t2, k2),
        )
}

/// The block that a search ends with at the timestamp `t` and the nonce `k`.
pub open spec fn mined_block(
    start: BlockHeaderView,
    txs: Seq<TransactionView>,
    t: i64,
    k: u64,
) -> BlockView {
    BlockView {
        header: candidate(start, t, k),
        transactions: txs,
        hash: spec_header_hash(candidate(start, t, k)),
    }
}

/// What a miner offers its own block besides the coinbase: the move of its
/// first matured coinbase output to its own address, if it has one.
pub open spec fn spec_own_spend(
    listing: Seq<(OutPointView, UtxoEntryView)>,
    miner_key: Seq<u8>,
    height: u64,
) -> Seq<TransactionView> {
    let address = spec_pubkey_hash(spec_ed25519_public(spec_secret_key(miner_key)));
    match first_matured(listing, address, height) {
        Some((point, entry)) => seq![spec_spend_coinbase(point, entry.value, miner_key)],
        None => Seq::empty(),
    }
}

impl Blockchain {
    /// The tip of the active chain, if the chain has its genesis.
    pub fn tip(&self) -> (tip: Option<&Block>)
        ensures
            match tip {
                Some(b) => self.active().len() > 0 && b@ == self.active().last(),
                None => self.active().len() == 0,
            },
    {
        let n = self.blocks.len();
        if n == 0 {
            None
        } else {
            Some(&self.blocks[n - 1])
        }
    }

    /// The blocks of the active chain from the place `from_height` on, in
    /// order: what a peer that asks to sync from there is sent.
    pub fn blocks_from(&self, from_height: u64) -> (blocks: Vec<Block>)
        ensures
            block_views(blocks@) == if from_height <= self.active().len() {
                self.active().skip(from_height as int)
            } else {
                Seq::empty()
            },
    {
        let mut blocks: Vec<Block> = Vec::new();
        let n = self.blocks.len();
        if from_height > n as u64 {
            assert(block_views(blocks@) =~= Seq::<BlockView>::empty());
            return blocks;
        }
        let from = from_height as usize;
        let mut i: usize = from;
        let ghost all = self.active().skip(from as int);
        assert(block_views(blocks@) =~= all.take(0));
        while i < n
            invariant
                from <= i <= n,
                n == self.blocks@.len(),
                all == self.active().skip(from as int),
                block_views(blocks@) == all.take(i - from),
            decreases n - i,
        {
            let ghost before = blocks@;
            let copy = self.blocks[i].clone();
            blocks.push(copy);
            proof {
                assert(block_views(before.push(copy)) =~= block_views(before).push(copy@));
                assert(all.take(i - from + 1) =~= all.take(i - from).push(all[i - from]));
                assert(all[i - from] == self.blocks@[i as int]@);
            }
            i = i + 1;
        }
        assert(all.take(n - from) == all);
        blocks
    }

    /// The work accumulated along the active chain, as a big-endian number
    /// without leading zeros: one byte at least, and the first is zero only
    /// where it is the only one, as for a chain without blocks.
    pub fn tip_work(&self) -> (bytes: Vec<u8>)
        requires
            self.wf(),
        ensures
            be_value(bytes@) == chain_work(self.active()),
            bytes@.len() >= 1,
            bytes@.len() > 1 ==> bytes@[0] != 0,
    {
        let n = self.blocks.len();
        if n == 0 {
            let mut none: Vec<u8> = Vec::new();
            none.push(0u8);
            assert(self.active() =~= Seq::<BlockView>::empty());
            assert(none@.drop_last() =~= Seq::<u8>::empty());
            assert(be_value(none@.drop_last()) == 0);
            return none;
        }
        proof {
            assert(slot_ok(self.index@, self.positions@, self.blocks@, n - 1));
            self.lemma_active_chain(n - 1);
            assert(self.active().take(n as int) == self.active());
            assert(work_ok(self.index@, self.positions@[n - 1] as int));
        }
        big_to_bytes_be(&self.index[self.positions[n - 1]].cumulative_work)
    }

    /// Rebuilds the unspent outputs and the journals from the blocks of the
    /// active chain alone, whatever they held: from the empty set, block by block.
    pub fn rebuild_utxos(&mut self)
        requires
            old(self).wf() || old(self).chain_wf(),
        ensures
            final(self).wf(),
            final(self).active() == old(self).active(),
            final(self).utxo_map() == chain_utxos(old(self).active()),
            old(self).wf() ==> final(self).utxo_map() == old(self).utxo_map(),
            forall|h: Seq<u8>| final(self).knows(h) == old(self).knows(h),
    {
        let ghost active = self.active();
        let n = self.blocks.len();
        self.utxos = UtxoSet::new();
        let mut undo: Vec<UndoLog> = Vec::new();
        let mut i: usize = 0;
        assert(active.take(0) =~= Seq::<BlockView>::empty());
        while i < n
            invariant
                i <= n,
                n == self.blocks@.len(),
                self.blocks == old(self).blocks,
                self.positions == old(self).positions,
                self.index == old(self).index,
                active == block_views(self.blocks@),
                self.utxos.wf(),
                self.utxos@ == chain_utxos(active.take(i as int)),
                undo@.len() == i,
                forall|k: int|
                    0 <= k < i ==> undo_spec(
                        chain_utxos(active.take(k + 1)),
                        (#[trigger] undo@[k])@,
                    ) == chain_utxos(active.take(k)),
            decreases n - i,
        {
            let ghost before = self.utxos@;
            let log = apply_block(&mut self.utxos, &self.blocks[i]);
            proof {
                let block = self.blocks@[i as int]@;
                assert(active.take(i + 1).drop_last() == active.take(i as int));
                assert(active.take(i + 1).last() == block);
                lemma_rewind_apply_txs(
                    fresh_ledger(before),
                    block.transactions,
                    block.header.height,
                );
                assert(ledger(self.utxos@, log@).rewind() == before);
            }
            undo.push(log);
            i = i + 1;
        }
        assert(active.take(n as int) == active);
        self.undo = undo;
        assert forall|h: Seq<u8>| self.knows(h) == old(self).knows(h) by {
            assert(self.index@ == old(self).index@);
        }
    }

    /// The part of the invariant that `rebuild_utxos` goes by: the active
    /// chain is a branch of the index and breaks no rule. Nothing is asked of
    /// the unspent outputs or of the journals.
    pub closed spec fn chain_wf(&self) -> bool {
        &&& index_linked(self.index@)
        &&& active_placed(self.index@, self.positions@, self.blocks@)
        &&& (self.index@.len() > 0 <==> self.blocks@.len() > 0)
        &&& first_chain_error(self.active()) is None
    }

    /// A matured coinbase output that pays to `miner_pubkey_hash`, if the
    /// unspent outputs hold one.
    pub fn find_matured_coinbase(&self, miner_pubkey_hash: &[u8]) -> (found: Option<
        (OutPoint, UtxoEntry),
    >)
        requires
            self.wf(),
        ensures
            match found {
                Some((point, entry)) => {
                    &&& self.utxo_map().contains_key(point@)
                    &&& self.utxo_map()[point@] == entry@
                    &&& matured_coinbase(entry@, miner_pubkey_hash@, self.active().len() as u64)
                    &&& first_matured(
                        self.utxo_listing(),
                        miner_pubkey_hash@,
                        self.active().len() as u64,
                    ) == Some((point@, entry@))
                },
                None => {
                    &&& first_matured(
                        self.utxo_listing(),
                        miner_pubkey_hash@,
                        self.active().len() as u64,
                    ) is None
                    &&& forall|k: OutPointView|
                        self.utxo_map().contains_key(k) ==> !matured_coinbase(
                            #[trigger] self.utxo_map()[k],
                            miner_pubkey_hash@,
                            self.active().len() as u64,
                        )
                },
            },
    {
        let height = self.height();
        let n = self.utxos.count();
        proof {
            self.utxos.lemma_listing();
        }
        let mut i: usize = 0;
        while i < n
            invariant
                i <= n,
                self.wf(),
                n == self.utxos.listing().len(),
                height == self.active().len(),
                forall|j: int|
                    0 <= j < i ==> !matured_coinbase(
                        (#[trigger] self.utxos.listing()[j]).1,
                        miner_pubkey_hash@,
                        height,
                    ),
            decreases n - i,
        {
            let (txid, index, entry) = self.utxos.entry_at(i);
            if entry.is_coinbase && bytes_eq(entry.pubkey_hash.as_slice(), miner_pubkey_hash)
                && height as u128 >= entry.creation_height as u128 + COINBASE_MATURITY as u128 {
                let point = OutPoint { txid: txid.clone(), index };
                let copy = entry.clone();
                proof {
                    self.utxos.lemma_listing();
                    assert(self.utxo_listing()[i as int] == (point@, copy@));
                    lemma_first_matured(self.utxo_listing(), miner_pubkey_hash@, height, i as int);
                }
                return Some((point, copy));
            }
            i = i + 1;
        }
        proof {
            self.utxos.lemma_listing();
            lemma_first_matured(self.utxo_listing(), miner_pubkey_hash@, height, n as int);
            assert forall|k: OutPointView| self.utxo_map().contains_key(k) implies !matured_coinbase(
                #[trigger] self.utxo_map()[k],
                miner_pubkey_hash@,
                height,
            ) by {
                let j = choose|j: int|
                    0 <= j < self.utxos.listing().len() && (#[trigger] self.utxos.listing()[j]).0
                        == k;
                assert(self.utxos.listing()[j].1 == self.utxo_map()[k]);
            }
        }
        None
    }
}

impl Blockchain {
    /// Mines the next block on the tip for the key that `miner_key` stands
    /// for and takes it in at the time `now`. The coinbase pays to the
    /// address of that key; where the key owns a matured coinbase output,
    /// the block also moves the first of them to the same address. The
    /// search starts at `timestamp`. Returns the block where it became the
    /// new tip; nothing changes where the chain has no block, the height
    /// cannot grow, no header meets the target, or the chain refuses the
    /// block.
    pub fn mine_block(&mut self, miner_key: &[u8], timestamp: i64, now: i64) -> (mined: Option<
        Block,
    >)
        requires
            old(self).wf(),
        ensures
            final(self).wf(),
            forall|h: Seq<u8>| old(self).knows(h) ==> final(self).knows(h),
            ({
                let tip = old(self).active().last();
                let address = spec_pubkey_hash(spec_ed25519_public(spec_secret_key(miner_key@)));
                let height = (tip.header.height + 1) as u64;
                let txs = spec_block_txs(
                    spec_own_spend(
                        old(self).utxo_listing(),
                        miner_key@,
                        old(self).active().len() as u64,
                    ),
                    old(self).utxo_map(),
                    height,
                    address,
                );
                let start = spec_template_header(tip, old(self).active(), txs, timestamp);
                match mined {
                    Some(block) => {
                        &&& old(self).active().len() > 0
                        &&& tip.header.height < u64::MAX
                        &&& first_found(start, timestamp, block.header.timestamp, block.header.nonce)
                        &&& block@ == mined_block(
                            start,
                            txs,
                            block.header.timestamp,
                            block.header.nonce,
                        )
                        &&& old(self).spec_add(block@, now) == Ok::<OutcomeKind, BlockError>(
                            OutcomeKind::Extended,
                        )
                        &&& final(self).active() == old(self).active().push(block@)
                    },
                    None => {
                        &&& final(self).active() == old(self).active()
                        &&& final(self).utxo_map() == old(self).utxo_map()
                        &&& {
                            ||| old(self).active().len() == 0
                            ||| tip.header.height == u64::MAX
                            ||| forall|t: i64, k: u64|
                                in_search(timestamp, 0, t, k) ==> !header_meets_target(
                                    #[trigger] candidate(start, t, k),
                                )
                            ||| exists|t: i64, k: u64| #[trigger]
                                first_found(start, timestamp, t, k) && old(self).spec_add(
                                    mined_block(start, txs, t, k),
                                    now,
                                ) != Ok::<OutcomeKind, BlockError>(OutcomeKind::Extended)
                        }
                    },
                }
            }),
    {
        let n = self.blocks.len();
        if n == 0 {
            return None;
        }
        let ghost active = self.active();
        let ghost tip = active.last();
        let ghost listing = self.utxo_listing();
        let public = public_key(miner_key);
        let address = pubkey_hash(public.as_slice());
        let mut offered: Vec<Transaction> = Vec::new();
        match self.find_matured_coinbase(address.as_slice()) {
            Some((point, entry)) => {
                let moved = Transaction::spend_coinbase(&point, &entry, miner_key);
                offered.push(moved);
                proof {
                    crate::transaction::lemma_tx_views_push(Seq::empty(), moved);
                    assert(crate::transaction::tx_views(Seq::<Transaction>::empty()) =~= Seq::<
                        TransactionView,
                    >::empty());
                    assert(crate::transaction::tx_views(offered@) =~= seq![moved@]);
                }
            },
            None => {
                assert(crate::transaction::tx_views(offered@) =~= Seq::<TransactionView>::empty());
            },
        }
        proof {
            assert(block_views(self.blocks@)[n - 1] == self.blocks[n - 1]@);
            assert(crate::transaction::tx_views(offered@) == spec_own_spend(
                listing,
                miner_key@,
                active.len() as u64,
            ));
        }
        let ghost txs = spec_block_txs(
            spec_own_spend(listing, miner_key@, active.len() as u64),
            self.utxo_map(),
            (tip.header.height + 1) as u64,
            address@,
        );
        let ghost start = spec_template_header(tip, active, txs, timestamp);
        let mined = mine_block(
            &self.blocks[n - 1],
            &self.utxos,
            offered,
            address,
            self.blocks.as_slice(),
            timestamp,
        );
        match mined {
            None => None,
            Some(block) => {
                let copy = block.clone();
                proof {
                    assert(block@ == mined_block(
                        start,
                        txs,
                        block.header.timestamp,
                        block.header.nonce,
                    ));
                    assert(first_found(
                        start,
                        timestamp,
                        block.header.timestamp,
                        block.header.nonce,
                    ));
                    assert(block@.header.prev_hash == tip.hash);
                }
                match self.validate_and_add_block(block, now) {
                    Ok(BlockOutcome::Extended) => Some(copy),
                    Ok(BlockOutcome::Known) => None,
                    Ok(BlockOutcome::SideBranch) => None,
                    Ok(BlockOutcome::Reorganized { disconnected, fork_height }) => {
                        assert(false);
                        None
                    },
                    Err(_) => None,
                }
            },
        }
    }
}

} // verus!
