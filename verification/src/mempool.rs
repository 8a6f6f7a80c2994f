//! The transaction pool: transactions that are valid at the tip and wait for
//! a block, ordered by what they pay per byte.

use crate::block::Block;
use crate::bytes::bytes_eq;
use crate::params::{MAX_BLOCK_TXS, MAX_BLOCK_TX_BYTES, MAX_MEMPOOL_TXS, MAX_TX_SIZE};
use crate::transaction::{
    spec_serialized_size, spec_txid, tx_views, Transaction, TransactionView,
};
use crate::utxo::{
    all_inputs, collect_inputs, input_keys, outpoint_views, outpoints_contain, OutPoint,
    OutPointView, UtxoMap, UtxoSet,
};
use crate::validation::{check_transaction, input_key, spec_check_transaction, TxError};
use vstd::prelude::*;

verus! {

/// A transaction in the pool with what admission worked out for it.
#[derive(Debug)]
pub struct MempoolEntry {
    pub tx: Transaction,
    pub fee: u64,
    pub size: usize,
    pub timestamp: i64,
}

/// What an entry holds.
pub struct MempoolEntryView {
    pub tx: TransactionView,
    pub fee: u64,
    pub size: usize,
    pub timestamp: i64,
}

impl View for MempoolEntry {
    type V = MempoolEntryView;

    open spec fn view(&self) -> MempoolEntryView {
        MempoolEntryView {
            tx: self.tx@,
            fee: self.fee,
            size: self.size,
            timestamp: self.timestamp,
        }
    }
}

impl Clone for MempoolEntry {
    fn clone(&self) -> (copy: Self)
        ensures
            copy@ == self@,
    {
        MempoolEntry {
            tx: self.tx.clone(),
            fee: self.fee,
            size: self.size,
            timestamp: self.timestamp,
        }
    }
}

/// The contents of a list of entries.
pub open spec fn entry_views(s: Seq<MempoolEntry>) -> Seq<MempoolEntryView> {
    s.map_values(|e: MempoolEntry| e@)
}

/// `a` pays strictly less per byte than `b`. Fee rates are compared by cross
/// multiplication, without division.
pub open spec fn rate_lt(a: MempoolEntryView, b: MempoolEntryView) -> bool {
    a.fee * b.size < b.fee * a.size
}

/// `a` pays at most as much per byte as `b`.
pub open spec fn rate_le(a: MempoolEntryView, b: MempoolEntryView) -> bool {
    a.fee * b.size <= b.fee * a.size
}

/// In a list ordered by fee rate, `x` has to stand before `e`: it pays less
/// where the order is ascending, more where it is descending.
pub open spec fn goes_before(x: MempoolEntryView, e: MempoolEntryView, ascending: bool) -> bool {
    if ascending {
        rate_lt(x, e)
    } else {
        rate_lt(e, x)
    }
}

/// Puts `x` into an ordered list: behind every entry that it need not stand
/// before, so that entries of one fee rate keep the order in which they came.
pub open spec fn insert_sorted(s: Seq<MempoolEntryView>, x: MempoolEntryView, ascending: bool) -> Seq<
    MempoolEntryView,
>
    decreases s.len(),
{
    if s.len() > 0 && goes_before(x, s.last(), ascending) {
        insert_sorted(s.drop_last(), x, ascending).push(s.last())
    } else {
        s.push(x)
    }
}

/// The entries ordered by fee rate; entries of one fee rate keep their order.
pub open spec fn sort_by_rate(s: Seq<MempoolEntryView>, ascending: bool) -> Seq<MempoolEntryView>
    decreases s.len(),
{
    if s.len() == 0 {
        Seq::empty()
    } else {
        insert_sorted(sort_by_rate(s.drop_last(), ascending), s.last(), ascending)
    }
}

/// A list in which no entry stands behind one that it has to stand before.
pub open spec fn ordered(s: Seq<MempoolEntryView>, ascending: bool) -> bool {
    forall|i: int, j: int| 0 <= i < j < s.len() ==> !goes_before(s[j], s[i], ascending)
}

/// Every entry is charged for at least one byte.
pub open spec fn sizes_positive(s: Seq<MempoolEntryView>) -> bool {
    forall|i: int| 0 <= i < s.len() ==> (#[trigger] s[i]).size > 0
}

/// Putting `x` into a list is inserting it at the place `pos` behind which
/// every entry has to follow it, and before which the nearest need not.
pub proof fn lemma_insert_at(s: Seq<MempoolEntryView>, x: MempoolEntryView, ascending: bool, pos: int)
    requires
        0 <= pos <= s.len(),
        forall|k: int| pos <= k < s.len() ==> goes_before(x, #[trigger] s[k], ascending),
        pos > 0 ==> !goes_before(x, s[pos - 1], ascending),
    ensures
        insert_sorted(s, x, ascending) == s.insert(pos, x),
    decreases s.len(),
{
    if pos == s.len() {
        assert(s.insert(pos, x) =~= s.push(x));
    } else {
        assert(goes_before(x, s[s.len() - 1], ascending));
        lemma_insert_at(s.drop_last(), x, ascending, pos);
        assert(s.drop_last().insert(pos, x).push(s.last()) =~= s.insert(pos, x));
    }
}

/// The place at which `insert_sorted` puts `x`.
pub proof fn lemma_insert_place(s: Seq<MempoolEntryView>, x: MempoolEntryView, ascending: bool) -> (pos:
    int)
    ensures
        0 <= pos <= s.len(),
        forall|k: int| pos <= k < s.len() ==> goes_before(x, #[trigger] s[k], ascending),
        pos > 0 ==> !goes_before(x, s[pos - 1], ascending),
        insert_sorted(s, x, ascending) == s.insert(pos, x),
    decreases s.len(),
{
    if s.len() > 0 && goes_before(x, s.last(), ascending) {
        let pos = lemma_insert_place(s.drop_last(), x, ascending);
        assert(s.drop_last().insert(pos, x).push(s.last()) =~= s.insert(pos, x));
        assert forall|k: int| pos <= k < s.len() implies goes_before(
            x,
            #[trigger] s[k],
            ascending,
        ) by {
            if k < s.len() - 1 {
                assert(s.drop_last()[k] == s[k]);
            }
        }
        assert(pos > 0 ==> s.drop_last()[pos - 1] == s[pos - 1]);
        pos
    } else {
        assert(s.insert(s.len() as int, x) =~= s.push(x));
        s.len() as int
    }
}

/// Whether `a` pays strictly less per byte than `b`.
pub fn fee_rate_lt(a: &MempoolEntry, b: &MempoolEntry) -> (lt: bool)
    ensures
        lt == rate_lt(a@, b@),
{
    let left: u128 = mul_wide(a.fee, b.size);
    let right: u128 = mul_wide(b.fee, a.size);
    left < right
}

fn mul_wide(fee: u64, size: usize) -> (product: u128)
    ensures
        product == fee * size,
{
    assert(fee * size <= 0xffff_ffff_ffff_ffff * 0xffff_ffff_ffff_ffff) by (nonlinear_arith)
        requires
            fee <= 0xffff_ffff_ffff_ffff,
            size <= 0xffff_ffff_ffff_ffff,
    ;
    (fee as u128) * (size as u128)
}

fn has_to_precede(x: &MempoolEntry, e: &MempoolEntry, ascending: bool) -> (b: bool)
    ensures
        b == goes_before(x@, e@, ascending),
{
    if ascending {
        fee_rate_lt(x, e)
    } else {
        fee_rate_lt(e, x)
    }
}

fn insert_entry(sorted: &mut Vec<MempoolEntry>, x: MempoolEntry, ascending: bool)
    ensures
        entry_views(final(sorted)@) == insert_sorted(entry_views(old(sorted)@), x@, ascending),
{
    let ghost views = entry_views(sorted@);
    let mut pos: usize = sorted.len();
    while pos > 0 && has_to_precede(&x, &sorted[pos - 1], ascending)
        invariant
            pos <= sorted.len(),
            sorted@ == old(sorted)@,
            views == entry_views(sorted@),
            forall|k: int| pos <= k < views.len() ==> goes_before(x@, #[trigger] views[k], ascending),
        decreases pos,
    {
        pos = pos - 1;
    }
    sorted.insert(pos, x);
    proof {
        lemma_insert_at(views, x@, ascending, pos as int);
        assert(entry_views(sorted@) =~= views.insert(pos as int, x@));
    }
}

fn reverse_entries(mut source: Vec<MempoolEntry>) -> (out: Vec<MempoolEntry>)
    ensures
        out@.len() == source@.len(),
        forall|j: int|
            0 <= j < out@.len() ==> (#[trigger] out@[j])@ == source@[source@.len() - 1 - j]@,
{
    let ghost all = source@;
    let mut out: Vec<MempoolEntry> = Vec::new();
    while source.len() > 0
        invariant
            source@ == all.take(source@.len() as int),
            out@.len() + source@.len() == all.len(),
            forall|j: int| 0 <= j < out@.len() ==> (#[trigger] out@[j])@ == all[all.len() - 1 - j]@,
        decreases source.len(),
    {
        let e = source.pop().unwrap();
        assert(source@ =~= all.take(source@.len() as int));
        out.push(e);
    }
    out
}

/// Orders entries by fee rate, ascending or descending; entries of one fee
/// rate keep their order.
pub fn sort_entries(entries: Vec<MempoolEntry>, ascending: bool) -> (sorted: Vec<MempoolEntry>)
    ensures
        entry_views(sorted@) == sort_by_rate(entry_views(entries@), ascending),
{
    let ghost all = entry_views(entries@);
    let mut rest = reverse_entries(entries);
    let mut sorted: Vec<MempoolEntry> = Vec::new();
    assert(all.take(0) =~= Seq::<MempoolEntryView>::empty());
    assert(entry_views(sorted@) =~= Seq::<MempoolEntryView>::empty());
    while rest.len() > 0
        invariant
            rest@.len() <= all.len(),
            forall|j: int| 0 <= j < rest@.len() ==> (#[trigger] rest@[j])@ == all[all.len() - 1 - j],
            entry_views(sorted@) == sort_by_rate(
                all.take(all.len() - rest@.len()),
                ascending,
            ),
        decreases rest.len(),
    {
        let ghost k = all.len() - rest@.len();
        let e = rest.pop().unwrap();
        proof {
            assert(e@ == all[k]);
            assert(all.take(k + 1).drop_last() == all.take(k));
            assert(all.take(k + 1).last() == all[k]);
        }
        insert_entry(&mut sorted, e, ascending);
    }
    assert(all.take(all.len() as int) == all);
    sorted
}

/// Paying at most as much per byte is transitive, where the entry in the
/// middle is charged for at least one byte.
pub proof fn lemma_rate_le_transitive(a: MempoolEntryView, b: MempoolEntryView, c: MempoolEntryView)
    requires
        rate_le(a, b),
        rate_le(b, c),
        b.size > 0,
    ensures
        rate_le(a, c),
{
    let af = a.fee as int;
    let az = a.size as int;
    let bf = b.fee as int;
    let bz = b.size as int;
    let cf = c.fee as int;
    let cz = c.size as int;
    assert((af * cz) * bz <= (cf * az) * bz) by (nonlinear_arith)
        requires
            af * bz <= bf * az,
            bf * cz <= cf * bz,
            0 <= az,
            0 <= cz,
    {
        assert((af * bz) * cz <= (bf * az) * cz);
        assert((bf * cz) * az <= (cf * bz) * az);
        assert((af * cz) * bz == (af * bz) * cz);
        assert((bf * az) * cz == (bf * cz) * az);
        assert((cf * bz) * az == (cf * az) * bz);
    }
    assert(af * cz <= cf * az) by (nonlinear_arith)
        requires
            (af * cz) * bz <= (cf * az) * bz,
            bz > 0,
    ;
}

proof fn lemma_order_transitive(
    x: MempoolEntryView,
    mid: MempoolEntryView,
    e: MempoolEntryView,
    ascending: bool,
)
    requires
        !goes_before(x, mid, ascending),
        !goes_before(mid, e, ascending),
        mid.size > 0,
    ensures
        !goes_before(x, e, ascending),
{
    if ascending {
        lemma_rate_le_transitive(e, mid, x);
    } else {
        lemma_rate_le_transitive(x, mid, e);
    }
}

/// Putting an entry into an ordered list leaves the list ordered.
pub proof fn lemma_insert_ordered(s: Seq<MempoolEntryView>, x: MempoolEntryView, ascending: bool)
    requires
        ordered(s, ascending),
        sizes_positive(s),
        x.size > 0,
    ensures
        ordered(insert_sorted(s, x, ascending), ascending),
        sizes_positive(insert_sorted(s, x, ascending)),
        insert_sorted(s, x, ascending).to_multiset() == s.to_multiset().insert(x),
        insert_sorted(s, x, ascending).len() == s.len() + 1,
{
    let pos = lemma_insert_place(s, x, ascending);
    let r = s.insert(pos, x);
    vstd::seq_lib::to_multiset_insert(s, pos, x);
    assert forall|i: int, j: int| 0 <= i < j < r.len() implies !goes_before(
        r[j],
        r[i],
        ascending,
    ) by {
        if i == pos {
            assert(r[j] == s[j - 1]);
            assert(goes_before(x, s[j - 1], ascending));
        } else if j == pos {
            assert(r[i] == s[i]);
            if i < pos - 1 {
                assert(!goes_before(s[pos - 1], s[i], ascending));
                lemma_order_transitive(x, s[pos - 1], s[i], ascending);
            }
        } else {
            let a = if i < pos {
                i
            } else {
                i - 1
            };
            let b = if j < pos {
                j
            } else {
                j - 1
            };
            assert(r[i] == s[a]);
            assert(r[j] == s[b]);
        }
    }
    assert forall|i: int| 0 <= i < r.len() implies (#[trigger] r[i]).size > 0 by {
        if i < pos {
            assert(r[i] == s[i]);
        } else if i > pos {
            assert(r[i] == s[i - 1]);
        }
    }
}

/// Sorting orders the entries and neither drops nor adds one.
pub proof fn lemma_sort_ordered(s: Seq<MempoolEntryView>, ascending: bool)
    requires
        sizes_positive(s),
    ensures
        ordered(sort_by_rate(s, ascending), ascending),
        sizes_positive(sort_by_rate(s, ascending)),
        sort_by_rate(s, ascending).to_multiset() == s.to_multiset(),
        sort_by_rate(s, ascending).len() == s.len(),
    decreases s.len(),
{
    if s.len() > 0 {
        lemma_sort_ordered(s.drop_last(), ascending);
        lemma_insert_ordered(sort_by_rate(s.drop_last(), ascending), s.last(), ascending);
        assert(s.drop_last().push(s.last()) == s);
        vstd::seq_lib::to_multiset_build(s.drop_last(), s.last());
    } else {
        assert(s =~= Seq::<MempoolEntryView>::empty());
    }
}

/// Why the pool does not take a transaction.
#[derive(Debug, Clone, Copy, PartialEq, Eq, Structural)]
pub enum MempoolError {
    /// It is charged for more bytes than policy allows.
    TooLarge,
    /// It breaks a rule of validation; a coinbase breaks the first.
    InvalidTx(TxError),
    /// It spends an outpoint that an entry of the pool spends already.
    DoubleSpend,
    /// It pays no fee.
    InsufficientFee,
    /// The pool is full and the transaction pays less per byte than every
    /// entry.
    MempoolFull,
}

/// The transactions of the entries, in order.
pub open spec fn entry_txs(pool: Seq<MempoolEntryView>) -> Seq<TransactionView> {
    pool.map_values(|e: MempoolEntryView| e.tx)
}

/// The outpoints that the entries of a pool spend.
pub open spec fn reserved(pool: Seq<MempoolEntryView>) -> Seq<OutPointView> {
    all_inputs(entry_txs(pool))
}

/// Whether an input of `tx` spends an outpoint that the pool has reserved.
pub open spec fn spends_reserved(tx: TransactionView, pool: Seq<MempoolEntryView>) -> bool {
    exists|i: int|
        0 <= i < tx.inputs.len() && reserved(pool).contains(input_key(#[trigger] tx.inputs[i]))
}

/// The bytes that a transaction is charged for.
pub open spec fn charged_size(tx: TransactionView) -> usize {
    if spec_serialized_size(tx) <= usize::MAX {
        spec_serialized_size(tx) as usize
    } else {
        usize::MAX
    }
}

/// The fee as an entry holds it: the fee itself, capped at `u64::MAX`.
pub open spec fn held_fee(fee: nat) -> u64 {
    if fee <= u64::MAX {
        fee as u64
    } else {
        u64::MAX
    }
}

/// What admission has made sure of an entry: its transaction spends, its
/// fee is above zero, and its size is what its transaction is charged for.
pub open spec fn entry_ok(e: MempoolEntryView) -> bool {
    &&& e.tx.inputs.len() > 0
    &&& e.fee > 0
    &&& e.size == charged_size(e.tx)
}

/// Every entry is as admission leaves it.
pub open spec fn entries_ok(pool: Seq<MempoolEntryView>) -> bool {
    forall|i: int| 0 <= i < pool.len() ==> entry_ok(#[trigger] pool[i])
}

/// An entry as admission leaves it is charged for at least one byte.
pub proof fn lemma_entries_have_size(pool: Seq<MempoolEntryView>)
    requires
        entries_ok(pool),
    ensures
        sizes_positive(pool),
{
    assert forall|i: int| 0 <= i < pool.len() implies (#[trigger] pool[i]).size > 0 by {
        assert(entry_ok(pool[i]));
        assert(spec_serialized_size(pool[i].tx) >= 10);
    }
}

/// Sorting keeps every entry as admission left it.
pub proof fn lemma_sort_entries_ok(s: Seq<MempoolEntryView>, ascending: bool)
    requires
        entries_ok(s),
    ensures
        entries_ok(sort_by_rate(s, ascending)),
    decreases s.len(),
{
    if s.len() > 0 {
        lemma_sort_entries_ok(s.drop_last(), ascending);
        let before = sort_by_rate(s.drop_last(), ascending);
        let pos = lemma_insert_place(before, s.last(), ascending);
        let after = before.insert(pos, s.last());
        assert forall|i: int| 0 <= i < after.len() implies entry_ok(#[trigger] after[i]) by {
            if i < pos {
                assert(after[i] == before[i]);
            } else if i > pos {
                assert(after[i] == before[i - 1]);
            } else {
                assert(entry_ok(s[s.len() - 1]));
            }
        }
    }
}

/// Whether two entries spend one outpoint.
pub open spec fn share_outpoint(a: MempoolEntryView, b: MempoolEntryView) -> bool {
    exists|i: int, j: int|
        0 <= i < a.tx.inputs.len() && 0 <= j < b.tx.inputs.len() && input_key(
            #[trigger] a.tx.inputs[i],
        ) == input_key(#[trigger] b.tx.inputs[j])
}

/// No entry of the pool spends an outpoint that `x` spends.
pub open spec fn clear_of(pool: Seq<MempoolEntryView>, x: MempoolEntryView) -> bool {
    forall|i: int| 0 <= i < pool.len() ==> !share_outpoint(#[trigger] pool[i], x)
}

/// No outpoint is reserved by two entries.
pub open spec fn reserved_once(pool: Seq<MempoolEntryView>) -> bool {
    forall|i: int, j: int|
        0 <= i < j < pool.len() ==> !share_outpoint(#[trigger] pool[i], #[trigger] pool[j])
}

/// Two entries share an outpoint whichever of them is named first.
pub proof fn lemma_share_symmetric(a: MempoolEntryView, b: MempoolEntryView)
    ensures
        share_outpoint(a, b) == share_outpoint(b, a),
{
    if share_outpoint(a, b) {
        let (i, j) = choose|i: int, j: int|
            0 <= i < a.tx.inputs.len() && 0 <= j < b.tx.inputs.len() && input_key(
                #[trigger] a.tx.inputs[i],
            ) == input_key(#[trigger] b.tx.inputs[j]);
        assert(input_key(b.tx.inputs[j]) == input_key(a.tx.inputs[i]));
    }
    if share_outpoint(b, a) {
        let (i, j) = choose|i: int, j: int|
            0 <= i < b.tx.inputs.len() && 0 <= j < a.tx.inputs.len() && input_key(
                #[trigger] b.tx.inputs[i],
            ) == input_key(#[trigger] a.tx.inputs[j]);
        assert(input_key(a.tx.inputs[j]) == input_key(b.tx.inputs[i]));
    }
}

/// What an entry of the pool spends is reserved.
pub proof fn lemma_spent_is_reserved(pool: Seq<MempoolEntryView>, i: int, a: int)
    requires
        0 <= i < pool.len(),
        0 <= a < pool[i].tx.inputs.len(),
    ensures
        reserved(pool).contains(input_key(pool[i].tx.inputs[a])),
    decreases pool.len(),
{
    let txs = entry_txs(pool);
    let head = all_inputs(txs.drop_last());
    let tail = input_keys(txs.last().inputs);
    assert(txs.drop_last() =~= entry_txs(pool.drop_last()));
    assert(reserved(pool) == head + tail);
    if i == pool.len() - 1 {
        assert(tail[a] == input_key(pool[i].tx.inputs[a]));
        assert((head + tail)[head.len() + a] == tail[a]);
    } else {
        lemma_spent_is_reserved(pool.drop_last(), i, a);
        let k = choose|k: int|
            0 <= k < head.len() && head[k] == input_key(pool.drop_last()[i].tx.inputs[a]);
        assert((head + tail)[k] == head[k]);
    }
}

/// An entry that stands clear of a pool in which no outpoint is reserved
/// twice can be put into it at any place.
pub proof fn lemma_insert_reserved_once(s: Seq<MempoolEntryView>, x: MempoolEntryView, pos: int)
    requires
        reserved_once(s),
        clear_of(s, x),
        0 <= pos <= s.len(),
    ensures
        reserved_once(s.insert(pos, x)),
{
    let r = s.insert(pos, x);
    assert forall|i: int, j: int| 0 <= i < j < r.len() implies !share_outpoint(
        #[trigger] r[i],
        #[trigger] r[j],
    ) by {
        if i == pos {
            assert(r[j] == s[j - 1]);
            lemma_share_symmetric(s[j - 1], x);
        } else if j == pos {
            assert(r[i] == s[i]);
        } else {
            let a = if i < pos {
                i
            } else {
                i - 1
            };
            let b = if j < pos {
                j
            } else {
                j - 1
            };
            assert(r[i] == s[a]);
            assert(r[j] == s[b]);
        }
    }
}

/// A transaction that spends nothing reserved becomes an entry beside which
/// no outpoint is reserved twice.
pub proof fn lemma_push_reserved_once(pool: Seq<MempoolEntryView>, e: MempoolEntryView)
    requires
        reserved_once(pool),
        !spends_reserved(e.tx, pool),
    ensures
        reserved_once(pool.push(e)),
{
    assert forall|i: int| 0 <= i < pool.len() implies !share_outpoint(#[trigger] pool[i], e) by {
        if share_outpoint(pool[i], e) {
            let (a, b) = choose|a: int, b: int|
                0 <= a < pool[i].tx.inputs.len() && 0 <= b < e.tx.inputs.len() && input_key(
                    #[trigger] pool[i].tx.inputs[a],
                ) == input_key(#[trigger] e.tx.inputs[b]);
            lemma_spent_is_reserved(pool, i, a);
            assert(reserved(pool).contains(input_key(e.tx.inputs[b])));
        }
    }
    lemma_insert_reserved_once(pool, e, pool.len() as int);
    assert(pool.insert(pool.len() as int, e) =~= pool.push(e));
}

/// Sorting reserves no outpoint twice.
pub proof fn lemma_sort_reserved_once(s: Seq<MempoolEntryView>, ascending: bool)
    requires
        reserved_once(s),
        sizes_positive(s),
    ensures
        reserved_once(sort_by_rate(s, ascending)),
    decreases s.len(),
{
    if s.len() > 0 {
        let front = s.drop_last();
        let x = s.last();
        assert forall|i: int, j: int| 0 <= i < j < front.len() implies !share_outpoint(
            #[trigger] front[i],
            #[trigger] front[j],
        ) by {
            assert(front[i] == s[i] && front[j] == s[j]);
        }
        lemma_sort_reserved_once(front, ascending);
        lemma_sort_ordered(front, ascending);
        let before = sort_by_rate(front, ascending);
        assert forall|i: int| 0 <= i < before.len() implies !share_outpoint(
            #[trigger] before[i],
            x,
        ) by {
            let e = before[i];
            assert(before.to_multiset().count(e) > 0) by {
                before.to_multiset_ensures();
                assert(before.contains(e));
            }
            front.to_multiset_ensures();
            assert(front.contains(e));
            let k = choose|k: int| 0 <= k < front.len() && front[k] == e;
            assert(front[k] == s[k]);
            assert(!share_outpoint(s[k], s[s.len() - 1]));
        }
        let pos = lemma_insert_place(before, x, ascending);
        lemma_insert_reserved_once(before, x, pos);
    }
}

/// Dropping confirmed entries reserves no outpoint twice, and every entry
/// that stays was in the pool.
pub proof fn lemma_without_confirmed_reserved_once(pool: Seq<MempoolEntryView>, ids: Seq<Seq<u8>>)
    requires
        reserved_once(pool),
    ensures
        reserved_once(without_confirmed(pool, ids)),
        forall|i: int|
            0 <= i < without_confirmed(pool, ids).len() ==> pool.contains(
                #[trigger] without_confirmed(pool, ids)[i],
            ),
    decreases pool.len(),
{
    if pool.len() > 0 {
        let front = pool.drop_last();
        let x = pool.last();
        assert forall|i: int, j: int| 0 <= i < j < front.len() implies !share_outpoint(
            #[trigger] front[i],
            #[trigger] front[j],
        ) by {
            assert(front[i] == pool[i] && front[j] == pool[j]);
        }
        lemma_without_confirmed_reserved_once(front, ids);
        let rest = without_confirmed(front, ids);
        assert forall|i: int| 0 <= i < rest.len() implies pool.contains(#[trigger] rest[i]) && !share_outpoint(rest[i], x) by {
            assert(front.contains(rest[i]));
            let k = choose|k: int| 0 <= k < front.len() && front[k] == rest[i];
            assert(pool[k] == rest[i]);
            assert(!share_outpoint(pool[k], pool[pool.len() - 1]));
        }
        if !is_confirmed(x, ids) {
            lemma_insert_reserved_once(rest, x, rest.len() as int);
            assert(rest.insert(rest.len() as int, x) =~= rest.push(x));
            assert(pool[pool.len() - 1] == x);
            assert forall|i: int| 0 <= i < rest.push(x).len() implies pool.contains(
                #[trigger] rest.push(x)[i],
            ) by {
                if i < rest.len() {
                    assert(rest.push(x)[i] == rest[i]);
                }
            }
        }
    }
}

/// The rule of admission that `tx` breaks, if it breaks one: no coinbase,
/// no oversize, valid at the tip, no outpoint of the pool spent again, a fee
/// above zero.
pub open spec fn spec_admission_error(
    pool: Seq<MempoolEntryView>,
    tx: TransactionView,
    m: UtxoMap,
    height: u64,
) -> Option<MempoolError> {
    if tx.is_coinbase() {
        Some(MempoolError::InvalidTx(TxError::Malformed))
    } else if charged_size(tx) > MAX_TX_SIZE {
        Some(MempoolError::TooLarge)
    } else {
        match spec_check_transaction(tx, m, height) {
            Err(e) => Some(MempoolError::InvalidTx(e)),
            Ok(fee) => if spends_reserved(tx, pool) {
                Some(MempoolError::DoubleSpend)
            } else if fee == 0 {
                Some(MempoolError::InsufficientFee)
            } else {
                None
            },
        }
    }
}

/// The entry that an admitted transaction becomes.
pub open spec fn admitted_entry(tx: TransactionView, m: UtxoMap, height: u64, now: i64) -> MempoolEntryView {
    MempoolEntryView {
        tx,
        fee: held_fee(spec_check_transaction(tx, m, height)->Ok_0),
        size: charged_size(tx),
        timestamp: now,
    }
}

/// The pool after an eviction: unchanged up to its capacity, else ordered by
/// rising fee rate and without the first entry.
pub open spec fn after_eviction(pool: Seq<MempoolEntryView>, capacity: nat) -> Seq<MempoolEntryView> {
    if pool.len() > capacity {
        sort_by_rate(pool, true).skip(1)
    } else {
        pool
    }
}

/// Whether `x` pays strictly less per byte than every entry of the pool.
pub open spec fn pays_least(x: MempoolEntryView, pool: Seq<MempoolEntryView>) -> bool {
    forall|i: int| 0 <= i < pool.len() ==> rate_lt(x, #[trigger] pool[i])
}

/// What handing `tx` to the pool leads to: the pool afterwards and the
/// answer.
pub open spec fn spec_add_transaction(
    pool: Seq<MempoolEntryView>,
    capacity: nat,
    tx: TransactionView,
    m: UtxoMap,
    height: u64,
    now: i64,
) -> (Seq<MempoolEntryView>, Result<(), MempoolError>) {
    match spec_admission_error(pool, tx, m, height) {
        Some(e) => (pool, Err(e)),
        None => {
            let entry = admitted_entry(tx, m, height, now);
            let grown = pool.push(entry);
            (
                after_eviction(grown, capacity),
                if grown.len() > capacity && pays_least(entry, pool) {
                    Err(MempoolError::MempoolFull)
                } else {
                    Ok(())
                },
            )
        },
    }
}

/// The pool of transactions that wait for a block.
pub struct Mempool {
    entries: Vec<MempoolEntry>,
    spent_outpoints: Vec<OutPoint>,
    capacity: usize,
}

impl View for Mempool {
    type V = Seq<MempoolEntryView>;

    closed spec fn view(&self) -> Seq<MempoolEntryView> {
        entry_views(self.entries@)
    }
}

proof fn lemma_entry_views_push(s: Seq<MempoolEntry>, e: MempoolEntry)
    ensures
        entry_views(s.push(e)) == entry_views(s).push(e@),
{
    assert(entry_views(s.push(e)) =~= entry_views(s).push(e@));
}

proof fn lemma_reserved_push(pool: Seq<MempoolEntryView>, e: MempoolEntryView)
    ensures
        reserved(pool.push(e)) == reserved(pool) + input_keys(e.tx.inputs),
{
    let txs = entry_txs(pool.push(e));
    assert(txs.drop_last() =~= entry_txs(pool));
    assert(txs.last() == e.tx);
}

impl Mempool {
    /// The index of reserved outpoints says what the entries spend, every
    /// entry is as admission left it, and no two entries spend one outpoint.
    pub closed spec fn wf(&self) -> bool {
        &&& outpoint_views(self.spent_outpoints@) == reserved(self@)
        &&& entries_ok(self@)
        &&& reserved_once(self@)
    }

    /// What the invariant says of the entries: each spends, pays a fee above
    /// zero and has the size that its transaction is charged for, which is
    /// at least one byte; and no outpoint is reserved by two of them.
    pub proof fn lemma_entries(&self)
        requires
            self.wf(),
        ensures
            entries_ok(self@),
            sizes_positive(self@),
            reserved_once(self@),
    {
        lemma_entries_have_size(self@);
    }

    /// The number of entries from which on the pool evicts.
    pub closed spec fn capacity(&self) -> nat {
        self.capacity as nat
    }

    /// An empty pool of the network's capacity.
    pub fn new() -> (pool: Self)
        ensures
            pool.wf(),
            pool@ == Seq::<MempoolEntryView>::empty(),
            pool.capacity() == MAX_MEMPOOL_TXS,
    {
        Mempool::with_capacity(MAX_MEMPOOL_TXS)
    }

    /// An empty pool that evicts above `capacity` entries.
    pub fn with_capacity(capacity: usize) -> (pool: Self)
        ensures
            pool.wf(),
            pool@ == Seq::<MempoolEntryView>::empty(),
            pool.capacity() == capacity,
    {
        let pool = Mempool { entries: Vec::new(), spent_outpoints: Vec::new(), capacity };
        assert(pool@ =~= Seq::<MempoolEntryView>::empty());
        assert(entry_txs(pool@) =~= Seq::<TransactionView>::empty());
        assert(outpoint_views(pool.spent_outpoints@) =~= reserved(pool@));
        pool
    }

    /// The number of entries.
    pub fn size(&self) -> (n: usize)
        ensures
            n == self@.len(),
    {
        self.entries.len()
    }

    /// The entries, in the order in which the pool holds them.
    pub fn entries(&self) -> (entries: &Vec<MempoolEntry>)
        ensures
            entry_views(entries@) == self@,
    {
        &self.entries
    }

    /// Whether the pool has reserved the outpoint.
    pub fn is_reserved(&self, txid: &[u8], index: u32) -> (found: bool)
        requires
            self.wf(),
        ensures
            found == reserved(self@).contains((txid@, index)),
    {
        outpoints_contain(&self.spent_outpoints, txid, index)
    }

    fn rebuild_spent_outpoints(&mut self)
        ensures
            final(self).entries == old(self).entries,
            final(self).capacity == old(self).capacity,
            outpoint_views(final(self).spent_outpoints@) == reserved(final(self)@),
    {
        let mut list: Vec<OutPoint> = Vec::new();
        let ghost pool = self@;
        let mut i: usize = 0;
        assert(outpoint_views(list@) =~= reserved(pool.take(0))) by {
            assert(entry_txs(pool.take(0)) =~= Seq::<TransactionView>::empty());
        }
        while i < self.entries.len()
            invariant
                i <= self.entries.len(),
                self.entries == old(self).entries,
                pool == self@,
                outpoint_views(list@) == reserved(pool.take(i as int)),
            decreases self.entries.len() - i,
        {
            collect_inputs(&self.entries[i].tx, &mut list);
            proof {
                assert(pool.take(i + 1) == pool.take(i as int).push(pool[i as int]));
                lemma_reserved_push(pool.take(i as int), pool[i as int]);
            }
            i = i + 1;
        }
        assert(pool.take(self.entries.len() as int) == pool);
        self.spent_outpoints = list;
    }

    fn touches_reserved(&self, tx: &Transaction) -> (hit: bool)
        requires
            self.wf(),
        ensures
            hit == spends_reserved(tx@, self@),
    {
        let mut i: usize = 0;
        while i < tx.inputs.len()
            invariant
                i <= tx.inputs.len(),
                self.wf(),
                forall|j: int|
                    0 <= j < i ==> !reserved(self@).contains(input_key(#[trigger] tx@.inputs[j])),
            decreases tx.inputs.len() - i,
        {
            assert(tx@.inputs[i as int] == tx.inputs[i as int]@);
            if outpoints_contain(
                &self.spent_outpoints,
                tx.inputs[i].txid.as_slice(),
                tx.inputs[i].index,
            ) {
                return true;
            }
            i = i + 1;
        }
        false
    }

    /// Holds a transaction against the rules of admission and, where it
    /// breaks none, appends it and reserves what it spends. Nothing is
    /// evicted here: the pool may stand one entry above its capacity.
    pub fn offer(&mut self, tx: Transaction, utxos: &UtxoSet, chain_height: u64, now: i64) -> (done:
        Result<(), MempoolError>)
        requires
            old(self).wf(),
            utxos.wf(),
        ensures
            final(self).wf(),
            final(self).capacity() == old(self).capacity(),
            match done {
                Ok(_) => {
                    &&& spec_admission_error(old(self)@, tx@, utxos@, chain_height) is None
                    &&& final(self)@ == old(self)@.push(
                        admitted_entry(tx@, utxos@, chain_height, now),
                    )
                },
                Err(e) => {
                    &&& spec_admission_error(old(self)@, tx@, utxos@, chain_height) == Some(e)
                    &&& final(self)@ == old(self)@
                },
            },
    {
        if tx.is_coinbase() {
            return Err(MempoolError::InvalidTx(TxError::Malformed));
        }
        let size = tx.serialized_size();
        if size > MAX_TX_SIZE {
            return Err(MempoolError::TooLarge);
        }
        let fee = match check_transaction(&tx, utxos, chain_height) {
            Err(e) => {
                return Err(MempoolError::InvalidTx(e));
            },
            Ok(fee) => fee,
        };
        if self.touches_reserved(&tx) {
            return Err(MempoolError::DoubleSpend);
        }
        if fee == 0 {
            return Err(MempoolError::InsufficientFee);
        }
        let held: u64 = if fee > u64::MAX as u128 {
            u64::MAX
        } else {
            fee as u64
        };
        collect_inputs(&tx, &mut self.spent_outpoints);
        let entry = MempoolEntry { tx, fee: held, size, timestamp: now };
        proof {
            lemma_entry_views_push(self.entries@, entry);
            lemma_reserved_push(self@, entry@);
            lemma_push_reserved_once(self@, entry@);
        }
        self.entries.push(entry);
        Ok(())
    }

    /// Evicts the entry that pays least per byte where the pool stands above
    /// its capacity: the entries are ordered by rising fee rate and the
    /// first is dropped. Every entry that stays pays at least as much per
    /// byte as the one that went.
    pub fn evict(&mut self) -> (evicted: Option<MempoolEntry>)
        requires
            old(self).wf(),
        ensures
            final(self).wf(),
            final(self).capacity() == old(self).capacity(),
            final(self)@ == after_eviction(old(self)@, old(self).capacity()),
            match evicted {
                Some(e) => {
                    &&& old(self)@.len() > old(self).capacity()
                    &&& e@ == sort_by_rate(old(self)@, true)[0]
                    &&& forall|i: int|
                        0 <= i < final(self)@.len() ==> rate_le(e@, #[trigger] final(self)@[i])
                    &&& final(self)@.to_multiset().insert(e@) == old(self)@.to_multiset()
                },
                None => old(self)@.len() <= old(self).capacity(),
            },
    {
        if self.entries.len() <= self.capacity {
            return None;
        }
        let ghost pool = self@;
        let mut taken: Vec<MempoolEntry> = Vec::new();
        std::mem::swap(&mut self.entries, &mut taken);
        let mut sorted = sort_entries(taken, true);
        proof {
            lemma_entries_have_size(pool);
            lemma_sort_ordered(pool, true);
            lemma_sort_entries_ok(pool, true);
            lemma_sort_reserved_once(pool, true);
        }
        let ghost all = entry_views(sorted@);
        let lowest = sorted.remove(0);
        proof {
            assert(entry_views(sorted@) =~= all.skip(1));
            assert forall|i: int, j: int| 0 <= i < j < all.skip(1).len() implies !share_outpoint(
                #[trigger] all.skip(1)[i],
                #[trigger] all.skip(1)[j],
            ) by {
                assert(!share_outpoint(all[i + 1], all[j + 1]));
            }
            assert forall|i: int| 0 <= i < all.skip(1).len() implies entry_ok(
                #[trigger] all.skip(1)[i],
            ) by {
                assert(entry_ok(all[i + 1]));
            }
            assert(lowest@ == all[0]);
            vstd::seq_lib::to_multiset_insert(all.skip(1), 0, all[0]);
            assert(all.skip(1).insert(0, all[0]) =~= all);
            assert forall|i: int| 0 <= i < all.skip(1).len() implies rate_le(
                all[0],
                #[trigger] all.skip(1)[i],
            ) by {
                assert(!goes_before(all[i + 1], all[0], true));
            }
        }
        self.entries = sorted;
        self.rebuild_spent_outpoints();
        Some(lowest)
    }
}

/// The bytes that the coinbase of a template is charged for.
pub const COINBASE_CHARGE: usize = 44;

/// Whether an entry pays fewer whole base units per byte than the threshold
/// asks for; without a threshold none does.
pub open spec fn below_min(e: MempoolEntryView, min_fee_rate: Option<u64>) -> bool {
    match min_fee_rate {
        Some(m) => (e.fee as int) / (e.size as int) < m,
        None => false,
    }
}

/// The transactions that a block template takes from a list of entries, in
/// the order of the list: entries below the threshold are passed over, and
/// the list ends where the template holds `MAX_BLOCK_TXS` transactions or
/// the next entry would take it above `MAX_BLOCK_TX_BYTES`. `count` and
/// `bytes` are what the template holds already.
pub open spec fn select_for_block(
    entries: Seq<MempoolEntryView>,
    count: nat,
    bytes: nat,
    min_fee_rate: Option<u64>,
) -> Seq<TransactionView>
    decreases entries.len(),
{
    if entries.len() == 0 || count >= MAX_BLOCK_TXS {
        Seq::empty()
    } else {
        let e = entries.first();
        let rest = entries.drop_first();
        if bytes + e.size > MAX_BLOCK_TX_BYTES {
            Seq::empty()
        } else if below_min(e, min_fee_rate) {
            select_for_block(rest, count, bytes, min_fee_rate)
        } else {
            seq![e.tx] + select_for_block(rest, count + 1, bytes + e.size as nat, min_fee_rate)
        }
    }
}

/// The transactions for the next block template: the pool by falling fee
/// rate, cut to what fits beside the coinbase.
pub open spec fn spec_sorted_for_mining(pool: Seq<MempoolEntryView>, min_fee_rate: Option<u64>) -> Seq<
    TransactionView,
> {
    select_for_block(sort_by_rate(pool, false), 1, COINBASE_CHARGE as nat, min_fee_rate)
}

/// Whether the transaction of an entry is among the identifiers `ids`.
pub open spec fn is_confirmed(e: MempoolEntryView, ids: Seq<Seq<u8>>) -> bool {
    ids.contains(spec_txid(e.tx))
}

/// The pool without the entries whose transaction is among `ids`.
pub open spec fn without_confirmed(pool: Seq<MempoolEntryView>, ids: Seq<Seq<u8>>) -> Seq<
    MempoolEntryView,
>
    decreases pool.len(),
{
    if pool.len() == 0 {
        Seq::empty()
    } else {
        let rest = without_confirmed(pool.drop_last(), ids);
        if is_confirmed(pool.last(), ids) {
            rest
        } else {
            rest.push(pool.last())
        }
    }
}

/// The transactions of a block but the first, its coinbase.
pub open spec fn spending_txs(txs: Seq<TransactionView>) -> Seq<TransactionView> {
    if txs.len() <= 1 {
        Seq::empty()
    } else {
        txs.skip(1)
    }
}

/// The transactions of disconnected blocks that go back to the pool: all
/// but each block's coinbase, oldest block first.
pub open spec fn orphan_txs(blocks: Seq<crate::block::BlockView>) -> Seq<TransactionView>
    decreases blocks.len(),
{
    if blocks.len() == 0 {
        Seq::empty()
    } else {
        orphan_txs(blocks.drop_last()) + spending_txs(blocks.last().transactions)
    }
}

/// The pool after the transactions `txs` were handed to it one after the
/// other, the refused ones dropped.
pub open spec fn spec_resurrect(
    pool: Seq<MempoolEntryView>,
    capacity: nat,
    txs: Seq<TransactionView>,
    m: UtxoMap,
    height: u64,
    now: i64,
) -> Seq<MempoolEntryView>
    decreases txs.len(),
{
    if txs.len() == 0 {
        pool
    } else {
        spec_add_transaction(
            spec_resurrect(pool, capacity, txs.drop_last(), m, height, now),
            capacity,
            txs.last(),
            m,
            height,
            now,
        ).0
    }
}

/// Handing over two lists one after the other is handing over the joined
/// list.
pub proof fn lemma_resurrect_concat(
    pool: Seq<MempoolEntryView>,
    capacity: nat,
    a: Seq<TransactionView>,
    b: Seq<TransactionView>,
    m: UtxoMap,
    height: u64,
    now: i64,
)
    ensures
        spec_resurrect(pool, capacity, a + b, m, height, now) == spec_resurrect(
            spec_resurrect(pool, capacity, a, m, height, now),
            capacity,
            b,
            m,
            height,
            now,
        ),
    decreases b.len(),
{
    if b.len() == 0 {
        assert(a + b =~= a);
    } else {
        lemma_resurrect_concat(pool, capacity, a, b.drop_last(), m, height, now);
        assert((a + b).drop_last() =~= a + b.drop_last());
        assert((a + b).last() == b.last());
    }
}

/// After an eviction every entry that stays pays at least as much per byte
/// as the entry that went.
pub proof fn lemma_eviction_drops_the_lowest(pool: Seq<MempoolEntryView>, capacity: nat)
    requires
        sizes_positive(pool),
        pool.len() > capacity,
    ensures
        forall|i: int|
            0 <= i < after_eviction(pool, capacity).len() ==> rate_le(
                sort_by_rate(pool, true)[0],
                #[trigger] after_eviction(pool, capacity)[i],
            ),
{
    lemma_sort_ordered(pool, true);
    let sorted = sort_by_rate(pool, true);
    assert forall|i: int| 0 <= i < sorted.skip(1).len() implies rate_le(
        sorted[0],
        #[trigger] sorted.skip(1)[i],
    ) by {
        assert(!goes_before(sorted[i + 1], sorted[0], true));
    }
}

/// An entry that pays less per byte than every entry of the pool is the
/// first of the pool ordered by rising fee rate with that entry added: it
/// is the one that an eviction drops.
pub proof fn lemma_pays_least_goes_first(pool: Seq<MempoolEntryView>, x: MempoolEntryView)
    requires
        pays_least(x, pool),
        sizes_positive(pool),
    ensures
        sort_by_rate(pool.push(x), true)[0] == x,
{
    let sorted = sort_by_rate(pool, true);
    lemma_sort_ordered(pool, true);
    assert(pool.push(x).drop_last() == pool);
    let pos = lemma_insert_place(sorted, x, true);
    if pos > 0 {
        let e = sorted[pos - 1];
        assert(sorted.to_multiset().count(e) > 0) by {
            sorted.to_multiset_ensures();
            assert(sorted.contains(e));
        }
        pool.to_multiset_ensures();
        assert(pool.contains(e));
        let i = choose|i: int| 0 <= i < pool.len() && pool[i] == e;
        assert(rate_lt(x, pool[i]));
    }
}

fn bytes_list_contains(ids: &Vec<Vec<u8>>, id: &[u8]) -> (found: bool)
    ensures
        found == crate::merkle::byte_views(ids@).contains(id@),
{
    let mut i: usize = 0;
    while i < ids.len()
        invariant
            i <= ids.len(),
            forall|j: int| 0 <= j < i ==> crate::merkle::byte_views(ids@)[j] != id@,
        decreases ids.len() - i,
    {
        if bytes_eq(ids[i].as_slice(), id) {
            assert(crate::merkle::byte_views(ids@)[i as int] == id@);
            return true;
        }
        i = i + 1;
    }
    false
}

fn clone_entries(entries: &Vec<MempoolEntry>) -> (copy: Vec<MempoolEntry>)
    ensures
        entry_views(copy@) == entry_views(entries@),
{
    let mut copy: Vec<MempoolEntry> = Vec::new();
    let mut i: usize = 0;
    while i < entries.len()
        invariant
            i <= entries.len(),
            copy@.len() == i,
            forall|j: int| 0 <= j < i ==> (#[trigger] copy@[j])@ == entries@[j]@,
        decreases entries.len() - i,
    {
        copy.push(entries[i].clone());
        i = i + 1;
    }
    assert(entry_views(copy@) =~= entry_views(entries@));
    copy
}

impl Mempool {
    /// Hands a transaction to the pool: it is held against the rules of
    /// admission, appended, and the pool evicts where it now stands above
    /// its capacity. A transaction that is itself the one evicted is
    /// answered with `MempoolFull`. Where a full pool admits a transaction,
    /// exactly one entry leaves, of the old ones and the new, and every
    /// entry that stays pays at least as much per byte as that one.
    pub fn add_transaction(
        &mut self,
        tx: Transaction,
        utxos: &UtxoSet,
        chain_height: u64,
        now: i64,
    ) -> (done: Result<(), MempoolError>)
        requires
            old(self).wf(),
            utxos.wf(),
        ensures
            final(self).wf(),
            final(self).capacity() == old(self).capacity(),
            (final(self)@, done) == spec_add_transaction(
                old(self)@,
                old(self).capacity(),
                tx@,
                utxos@,
                chain_height,
                now,
            ),
            old(self)@.len() <= old(self).capacity() ==> final(self)@.len() <= final(self).capacity(),
            spec_admission_error(old(self)@, tx@, utxos@, chain_height) is None && old(self)@.len()
                >= old(self).capacity() ==> {
                let grown = old(self)@.push(admitted_entry(tx@, utxos@, chain_height, now));
                let dropped = sort_by_rate(grown, true)[0];
                &&& final(self)@.len() == old(self)@.len()
                &&& final(self)@.to_multiset().insert(dropped) == grown.to_multiset()
                &&& forall|i: int|
                    0 <= i < final(self)@.len() ==> rate_le(dropped, #[trigger] final(self)@[i])
            },
    {
        proof {
            if spec_admission_error(old(self)@, tx@, utxos@, chain_height) is None {
                let entry = admitted_entry(tx@, utxos@, chain_height, now);
                let grown = old(self)@.push(entry);
                lemma_entries_have_size(old(self)@);
                assert(entry.size > 0) by {
                    assert(spec_serialized_size(tx@) >= 10);
                }
                assert forall|i: int| 0 <= i < grown.len() implies (#[trigger] grown[i]).size
                    > 0 by {
                    if i < old(self)@.len() {
                        assert(grown[i] == old(self)@[i]);
                    }
                }
                lemma_sort_ordered(grown, true);
                if grown.len() > old(self).capacity() {
                    lemma_eviction_drops_the_lowest(grown, old(self).capacity());
                    let sorted = sort_by_rate(grown, true);
                    vstd::seq_lib::to_multiset_insert(sorted.skip(1), 0, sorted[0]);
                    assert(sorted.skip(1).insert(0, sorted[0]) =~= sorted);
                }
            }
        }
        match self.offer(tx, utxos, chain_height, now) {
            Err(e) => {
                return Err(e);
            },
            Ok(_) => {},
        }
        let n = self.entries.len();
        if n <= self.capacity {
            return Ok(());
        }
        let ghost pool = old(self)@;
        let ghost entry = self@.last();
        assert(self@.drop_last() =~= pool);
        let mut least = true;
        let mut i: usize = 0;
        while i < n - 1
            invariant
                n == self.entries@.len(),
                n >= 1,
                i <= n - 1,
                self@.last() == entry,
                self@.drop_last() == pool,
                least == (forall|j: int| 0 <= j < i ==> rate_lt(entry, #[trigger] pool[j])),
            decreases n - 1 - i,
        {
            assert(pool[i as int] == self.entries@[i as int]@);
            assert(entry == self.entries@[n - 1]@);
            if !fee_rate_lt(&self.entries[n - 1], &self.entries[i]) {
                least = false;
            }
            i = i + 1;
        }
        let _ = self.evict();
        if least {
            Err(MempoolError::MempoolFull)
        } else {
            Ok(())
        }
    }

    /// The transactions for the next block template: by falling fee rate,
    /// entries below `min_fee_rate` passed over, cut to what fits a block
    /// beside its coinbase.
    pub fn sorted_for_mining(&self, min_fee_rate: Option<u64>) -> (txs: Vec<Transaction>)
        requires
            self.wf(),
        ensures
            tx_views(txs@) == spec_sorted_for_mining(self@, min_fee_rate),
    {
        let sorted = sort_entries(clone_entries(&self.entries), false);
        let ghost all = entry_views(sorted@);
        proof {
            lemma_entries_have_size(self@);
            lemma_sort_ordered(self@, false);
        }
        let mut txs: Vec<Transaction> = Vec::new();
        let mut count: usize = 1;
        let mut bytes: usize = COINBASE_CHARGE;
        let mut i: usize = 0;
        assert(all.skip(0) =~= all);
        assert(tx_views(txs@) =~= Seq::<TransactionView>::empty());
        while i < sorted.len() && count < MAX_BLOCK_TXS
            invariant
                i <= sorted.len(),
                all == entry_views(sorted@),
                all == sort_by_rate(self@, false),
                sizes_positive(all),
                1 <= count <= MAX_BLOCK_TXS,
                bytes <= MAX_BLOCK_TX_BYTES,
                tx_views(txs@) + select_for_block(
                    all.skip(i as int),
                    count as nat,
                    bytes as nat,
                    min_fee_rate,
                ) == select_for_block(all, 1, COINBASE_CHARGE as nat, min_fee_rate),
            decreases sorted.len() - i,
        {
            let entry = &sorted[i];
            proof {
                assert(all.skip(i as int).first() == entry@);
                assert(all.skip(i as int).drop_first() =~= all.skip(i + 1));
                assert(entry@.size > 0);
            }
            if entry.size > MAX_BLOCK_TX_BYTES - bytes {
                assert(select_for_block(
                    all.skip(i as int),
                    count as nat,
                    bytes as nat,
                    min_fee_rate,
                ) =~= Seq::<TransactionView>::empty());
                assert(tx_views(txs@) + Seq::<TransactionView>::empty() =~= tx_views(txs@));
                return txs;
            }
            let skip = match min_fee_rate {
                Some(m) => entry.fee / (entry.size as u64) < m,
                None => false,
            };
            if !skip {
                let ghost before = txs@;
                let copy = entry.tx.clone();
                txs.push(copy);
                proof {
                    crate::transaction::lemma_tx_views_push(before, copy);
                    assert(tx_views(before).push(copy@) + select_for_block(
                        all.skip(i + 1),
                        (count + 1) as nat,
                        (bytes + entry.size) as nat,
                        min_fee_rate,
                    ) =~= tx_views(before) + (seq![entry@.tx] + select_for_block(
                        all.skip(i + 1),
                        (count + 1) as nat,
                        (bytes + entry.size) as nat,
                        min_fee_rate,
                    )));
                }
                count = count + 1;
                bytes = bytes + entry.size;
            }
            i = i + 1;
        }
        proof {
            assert(select_for_block(all.skip(i as int), count as nat, bytes as nat, min_fee_rate)
                =~= Seq::<TransactionView>::empty());
            assert(tx_views(txs@) + Seq::<TransactionView>::empty() =~= tx_views(txs@));
        }
        txs
    }

    /// Drops the entries whose transaction a new block has confirmed.
    pub fn remove_confirmed(&mut self, confirmed: &[Transaction])
        requires
            old(self).wf(),
        ensures
            final(self).wf(),
            final(self).capacity() == old(self).capacity(),
            final(self)@ == without_confirmed(
                old(self)@,
                crate::merkle::leaf_hashes(tx_views(confirmed@)),
            ),
    {
        let ghost ids_spec = crate::merkle::leaf_hashes(tx_views(confirmed@));
        let mut ids: Vec<Vec<u8>> = Vec::new();
        let mut c: usize = 0;
        while c < confirmed.len()
            invariant
                c <= confirmed.len(),
                ids_spec == crate::merkle::leaf_hashes(tx_views(confirmed@)),
                ids@.len() == c,
                forall|j: int| 0 <= j < c ==> (#[trigger] ids@[j])@ == ids_spec[j],
            decreases confirmed.len() - c,
        {
            ids.push(confirmed[c].txid());
            c = c + 1;
        }
        assert(crate::merkle::byte_views(ids@) =~= ids_spec);
        let ghost all = self@;
        let mut taken: Vec<MempoolEntry> = Vec::new();
        std::mem::swap(&mut self.entries, &mut taken);
        let mut rest = reverse_entries(taken);
        let mut kept: Vec<MempoolEntry> = Vec::new();
        assert(all.take(0) =~= Seq::<MempoolEntryView>::empty());
        assert(entry_views(kept@) =~= Seq::<MempoolEntryView>::empty());
        while rest.len() > 0
            invariant
                rest@.len() <= all.len(),
                entries_ok(all),
                crate::merkle::byte_views(ids@) == ids_spec,
                forall|j: int|
                    0 <= j < rest@.len() ==> (#[trigger] rest@[j])@ == all[all.len() - 1 - j],
                entry_views(kept@) == without_confirmed(all.take(all.len() - rest@.len()), ids_spec),
                entries_ok(entry_views(kept@)),
            decreases rest.len(),
        {
            let ghost k = all.len() - rest@.len();
            let e = rest.pop().unwrap();
            proof {
                assert(e@ == all[k]);
                assert(all.take(k + 1).drop_last() == all.take(k));
                assert(all.take(k + 1).last() == all[k]);
            }
            let id = e.tx.txid();
            if !bytes_list_contains(&ids, id.as_slice()) {
                proof {
                    lemma_entry_views_push(kept@, e);
                }
                kept.push(e);
            }
        }
        assert(all.take(all.len() as int) == all);
        proof {
            lemma_without_confirmed_reserved_once(all, ids_spec);
        }
        self.entries = kept;
        self.rebuild_spent_outpoints();
    }

    fn resurrect_block(&mut self, block: &Block, utxos: &UtxoSet, chain_height: u64, now: i64)
        requires
            old(self).wf(),
            utxos.wf(),
        ensures
            final(self).wf(),
            final(self).capacity() == old(self).capacity(),
            final(self)@ == spec_resurrect(
                old(self)@,
                old(self).capacity(),
                spending_txs(block@.transactions),
                utxos@,
                chain_height,
                now,
            ),
    {
        let n = block.transactions.len();
        if n <= 1 {
            return ;
        }
        let ghost txs = block@.transactions.skip(1);
        let mut t: usize = 1;
        assert(txs.take(0) =~= Seq::<TransactionView>::empty());
        while t < n
            invariant
                1 <= t <= n,
                n == block.transactions@.len(),
                txs == block@.transactions.skip(1),
                self.wf(),
                utxos.wf(),
                self.capacity() == old(self).capacity(),
                self@ == spec_resurrect(
                    old(self)@,
                    old(self).capacity(),
                    txs.take(t - 1),
                    utxos@,
                    chain_height,
                    now,
                ),
            decreases n - t,
        {
            let tx = block.transactions[t].clone();
            proof {
                assert(txs.take(t as int).drop_last() == txs.take(t - 1));
                assert(txs.take(t as int).last() == tx@);
            }
            let _ = self.add_transaction(tx, utxos, chain_height, now);
            t = t + 1;
        }
        assert(txs.take(n - 1) == txs);
    }

    /// Hands the transactions of disconnected blocks back to the pool, all
    /// but the coinbases, oldest block first. What admission refuses now is
    /// dropped without a word.
    pub fn resurrect_from_orphans(
        &mut self,
        orphaned: Vec<Block>,
        utxos: &UtxoSet,
        chain_height: u64,
        now: i64,
    )
        requires
            old(self).wf(),
            utxos.wf(),
        ensures
            final(self).wf(),
            final(self).capacity() == old(self).capacity(),
            final(self)@ == spec_resurrect(
                old(self)@,
                old(self).capacity(),
                orphan_txs(crate::block::block_views(orphaned@)),
                utxos@,
                chain_height,
                now,
            ),
    {
        let ghost blocks = crate::block::block_views(orphaned@);
        let mut b: usize = 0;
        assert(orphan_txs(blocks.take(0)) =~= Seq::<TransactionView>::empty());
        while b < orphaned.len()
            invariant
                b <= orphaned.len(),
                blocks == crate::block::block_views(orphaned@),
                self.wf(),
                utxos.wf(),
                self.capacity() == old(self).capacity(),
                self@ == spec_resurrect(
                    old(self)@,
                    old(self).capacity(),
                    orphan_txs(blocks.take(b as int)),
                    utxos@,
                    chain_height,
                    now,
                ),
            decreases orphaned.len() - b,
        {
            proof {
                assert(blocks.take(b + 1).drop_last() == blocks.take(b as int));
                assert(blocks.take(b + 1).last() == orphaned[b as int]@);
                lemma_resurrect_concat(
                    old(self)@,
                    old(self).capacity(),
                    orphan_txs(blocks.take(b as int)),
                    spending_txs(orphaned[b as int]@.transactions),
                    utxos@,
                    chain_height,
                    now,
                );
            }
            self.resurrect_block(&orphaned[b], utxos, chain_height, now);
            b = b + 1;
        }
        assert(blocks.take(orphaned.len() as int) == blocks);
    }
}

} // verus!
