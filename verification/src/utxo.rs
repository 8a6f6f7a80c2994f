//! The set of unspent outputs, and the journal that lets a block be undone.

use crate::bytes::bytes_eq;
use crate::transaction::{
    spec_txid, Transaction, TransactionView, TxInputView, TxOutputView,
};
use vstd::prelude::*;

verus! {

/// What names one output: the transaction that made it and its place there.
pub type OutPointView = (Seq<u8>, u32);

/// An unspent output with what validation needs to know of its origin.
#[derive(Debug)]
pub struct UtxoEntry {
    pub value: u64,
    pub pubkey_hash: Vec<u8>,
    pub creation_height: u64,
    pub is_coinbase: bool,
}

/// What an entry holds.
pub struct UtxoEntryView {
    pub value: u64,
    pub pubkey_hash: Seq<u8>,
    pub creation_height: u64,
    pub is_coinbase: bool,
}

impl View for UtxoEntry {
    type V = UtxoEntryView;

    open spec fn view(&self) -> UtxoEntryView {
        UtxoEntryView {
            value: self.value,
            pubkey_hash: self.pubkey_hash@,
            creation_height: self.creation_height,
            is_coinbase: self.is_coinbase,
        }
    }
}

impl Clone for UtxoEntry {
    fn clone(&self) -> (copy: Self)
        ensures
            copy@ == self@,
    {
        UtxoEntry {
            value: self.value,
            pubkey_hash: self.pubkey_hash.clone(),
            creation_height: self.creation_height,
            is_coinbase: self.is_coinbase,
        }
    }
}

/// The mathematical unspent-output set.
pub type UtxoMap = Map<OutPointView, UtxoEntryView>;

/// What an outpoint held before a change: its entry, or nothing.
pub open spec fn prior(m: UtxoMap, k: OutPointView) -> Option<UtxoEntryView> {
    if m.contains_key(k) {
        Some(m[k])
    } else {
        None
    }
}

/// One line of the journal: an outpoint and what it held before the change.
pub type UndoStepView = (OutPointView, Option<UtxoEntryView>);

/// Puts back what one journal line recorded.
pub open spec fn restore(m: UtxoMap, step: UndoStepView) -> UtxoMap {
    match step.1 {
        Some(e) => m.insert(step.0, e),
        None => m.remove(step.0),
    }
}

/// Undoes a journal, last line first.
pub open spec fn undo_spec(m: UtxoMap, journal: Seq<UndoStepView>) -> UtxoMap
    decreases journal.len(),
{
    if journal.len() == 0 {
        m
    } else {
        undo_spec(restore(m, journal.last()), journal.drop_last())
    }
}

/// The unspent outputs together with the journal of how they came about.
pub struct Ledger {
    pub utxos: UtxoMap,
    pub journal: Seq<UndoStepView>,
}

impl Ledger {
    /// The set as it was before the journal's first line.
    pub open spec fn rewind(self) -> UtxoMap {
        undo_spec(self.utxos, self.journal)
    }

    /// Removes an outpoint and journals what it held.
    pub open spec fn spend(self, k: OutPointView) -> Ledger {
        Ledger { utxos: self.utxos.remove(k), journal: self.journal.push((k, prior(self.utxos, k))) }
    }

    /// Sets an outpoint and journals what it held.
    pub open spec fn create(self, k: OutPointView, e: UtxoEntryView) -> Ledger {
        Ledger {
            utxos: self.utxos.insert(k, e),
            journal: self.journal.push((k, prior(self.utxos, k))),
        }
    }

    /// Spends the outpoints that `inputs` refer to, in order.
    pub open spec fn spend_inputs(self, inputs: Seq<TxInputView>) -> Ledger
        decreases inputs.len(),
    {
        if inputs.len() == 0 {
            self
        } else {
            self.spend_inputs(inputs.drop_last()).spend((inputs.last().txid, inputs.last().index))
        }
    }

    /// Creates the outputs of the transaction `txid`, in order. An output
    /// whose place does not fit a `u32` can be named by no input and is left
    /// out.
    pub open spec fn create_outputs(
        self,
        txid: Seq<u8>,
        outputs: Seq<TxOutputView>,
        height: u64,
        coinbase: bool,
    ) -> Ledger
        decreases outputs.len(),
    {
        if outputs.len() == 0 {
            self
        } else {
            let before = self.create_outputs(txid, outputs.drop_last(), height, coinbase);
            let i = outputs.len() - 1;
            if i <= u32::MAX {
                before.create((txid, i as u32), new_entry(outputs.last(), height, coinbase))
            } else {
                before
            }
        }
    }

    /// Applies one transaction of a block at `height`: its inputs leave the
    /// set, its outputs enter it.
    pub open spec fn apply_tx(self, tx: TransactionView, height: u64) -> Ledger {
        self.spend_inputs(tx.inputs).create_outputs(
            spec_txid(tx),
            tx.outputs,
            height,
            tx.is_coinbase(),
        )
    }

    /// Applies the transactions of a block at `height`, in order.
    pub open spec fn apply_txs(self, txs: Seq<TransactionView>, height: u64) -> Ledger
        decreases txs.len(),
    {
        if txs.len() == 0 {
            self
        } else {
            self.apply_txs(txs.drop_last(), height).apply_tx(txs.last(), height)
        }
    }
}

/// The entry that an output becomes.
pub open spec fn new_entry(o: TxOutputView, height: u64, coinbase: bool) -> UtxoEntryView {
    UtxoEntryView {
        value: o.value,
        pubkey_hash: o.pubkey_hash,
        creation_height: height,
        is_coinbase: coinbase,
    }
}

/// Starts a journal at the set `m`.
pub open spec fn fresh_ledger(m: UtxoMap) -> Ledger {
    Ledger { utxos: m, journal: Seq::empty() }
}

struct UtxoRecord {
    txid: Vec<u8>,
    index: u32,
    entry: UtxoEntry,
}

impl UtxoRecord {
    spec fn key(self) -> OutPointView {
        (self.txid@, self.index)
    }
}

/// The unspent outputs, by outpoint. No outpoint occurs twice.
pub struct UtxoSet {
    records: Vec<UtxoRecord>,
    model: Ghost<UtxoMap>,
}

struct UndoStep {
    txid: Vec<u8>,
    index: u32,
    prior: Option<UtxoEntry>,
}

impl UndoStep {
    spec fn line(self) -> UndoStepView {
        (
            (self.txid@, self.index),
            match self.prior {
                Some(e) => Some(e@),
                None => None,
            },
        )
    }
}

/// What a block changed in the unspent outputs, line by line, so that it can
/// be taken back.
pub struct UndoLog {
    steps: Vec<UndoStep>,
}

impl View for UndoLog {
    type V = Seq<UndoStepView>;

    closed spec fn view(&self) -> Seq<UndoStepView> {
        self.steps@.map_values(|s: UndoStep| s.line())
    }
}

impl UndoLog {
    /// An empty journal.
    pub fn new() -> (log: Self)
        ensures
            log@ == Seq::<UndoStepView>::empty(),
    {
        let log = UndoLog { steps: Vec::new() };
        assert(log@ =~= Seq::<UndoStepView>::empty());
        log
    }

    /// The number of lines.
    pub fn len(&self) -> (n: usize)
        ensures
            n == self@.len(),
    {
        self.steps.len()
    }

    fn record(&mut self, txid: Vec<u8>, index: u32, prior: Option<UtxoEntry>)
        ensures
            final(self)@ == old(self)@.push(
                (
                    (txid@, index),
                    match prior {
                        Some(e) => Some(e@),
                        None => None,
                    },
                ),
            ),
    {
        let step = UndoStep { txid, index, prior };
        self.steps.push(step);
        assert(self@ =~= old(self)@.push(step.line()));
    }
}

impl View for UtxoSet {
    type V = UtxoMap;

    closed spec fn view(&self) -> UtxoMap {
        self.model@
    }
}

impl UtxoSet {
    /// The records and the model say the same, and no outpoint occurs twice.
    pub closed spec fn wf(&self) -> bool {
        &&& forall|i: int|
            0 <= i < self.records@.len() ==> self.model@.contains_key(
                (#[trigger] self.records@[i]).key(),
            ) && self.model@[self.records@[i].key()] == self.records@[i].entry@
        &&& forall|k: OutPointView| #[trigger]
            self.model@.contains_key(k) ==> self.holds(k)
        &&& forall|i: int, j: int|
            0 <= i < j < self.records@.len() ==> (#[trigger] self.records@[i]).key() != (
            #[trigger] self.records@[j]).key()
    }

    spec fn holds(&self, k: OutPointView) -> bool {
        exists|i: int| 0 <= i < self.records@.len() && (#[trigger] self.records@[i]).key() == k
    }

    /// The empty set.
    pub fn new() -> (set: Self)
        ensures
            set.wf(),
            set@ == Map::<OutPointView, UtxoEntryView>::empty(),
    {
        UtxoSet { records: Vec::new(), model: Ghost(Map::empty()) }
    }

    /// The number of unspent outputs.
    pub fn len(&self) -> (n: usize)
        requires
            self.wf(),
        ensures
            n == self@.len(),
            self@.dom().finite(),
    {
        proof {
            self.lemma_len();
        }
        self.records.len()
    }

    proof fn lemma_len(&self)
        requires
            self.wf(),
        ensures
            self@.dom().finite(),
            self@.len() == self.records@.len(),
    {
        let keys = self.records@.map_values(|r: UtxoRecord| r.key());
        assert(keys.no_duplicates());
        assert(keys.to_set() =~= self@.dom()) by {
            assert forall|k: OutPointView| keys.to_set().contains(k) == self@.dom().contains(
                k,
            ) by {
                if keys.to_set().contains(k) {
                    let i = choose|i: int| 0 <= i < keys.len() && keys[i] == k;
                    assert(self.records@[i].key() == k);
                }
                if self@.dom().contains(k) {
                    assert(self.holds(k));
                    let i = choose|i: int|
                        0 <= i < self.records@.len() && (#[trigger] self.records@[i]).key() == k;
                    assert(keys[i] == k);
                }
            }
        }
        keys.unique_seq_to_set();
    }

    fn find(&self, txid: &[u8], index: u32) -> (at: Option<usize>)
        ensures
            match at {
                Some(i) => i < self.records@.len() && self.records@[i as int].key() == (
                    txid@,
                    index,
                ),
                None => forall|i: int|
                    0 <= i < self.records@.len() ==> (#[trigger] self.records@[i]).key() != (
                        txid@,
                        index,
                    ),
            },
    {
        let mut i: usize = 0;
        while i < self.records.len()
            invariant
                i <= self.records@.len(),
                forall|j: int|
                    0 <= j < i ==> (#[trigger] self.records@[j]).key() != (txid@, index),
            decreases self.records.len() - i,
        {
            if self.records[i].index == index && bytes_eq(self.records[i].txid.as_slice(), txid) {
                return Some(i);
            }
            i = i + 1;
        }
        None
    }

    /// Whether the outpoint is unspent.
    pub fn contains(&self, txid: &[u8], index: u32) -> (found: bool)
        requires
            self.wf(),
        ensures
            found == self@.contains_key((txid@, index)),
    {
        let at = self.find(txid, index);
        proof {
            if at.is_none() && self@.contains_key((txid@, index)) {
                assert(self.holds((txid@, index)));
            }
        }
        at.is_some()
    }

    /// The entry of an outpoint, if it is unspent.
    pub fn get(&self, txid: &[u8], index: u32) -> (entry: Option<&UtxoEntry>)
        requires
            self.wf(),
        ensures
            match entry {
                Some(e) => self@.contains_key((txid@, index)) && self@[(txid@, index)] == e@,
                None => !self@.contains_key((txid@, index)),
            },
    {
        match self.find(txid, index) {
            Some(i) => Some(&self.records[i].entry),
            None => {
                proof {
                    if self@.contains_key((txid@, index)) {
                        assert(self.holds((txid@, index)));
                    }
                }
                None
            },
        }
    }

    /// Sets an outpoint and returns what it held before.
    pub fn insert(&mut self, txid: Vec<u8>, index: u32, entry: UtxoEntry) -> (before: Option<
        UtxoEntry,
    >)
        requires
            old(self).wf(),
        ensures
            final(self).wf(),
            final(self)@ == old(self)@.insert((txid@, index), entry@),
            match before {
                Some(e) => prior(old(self)@, (txid@, index)) == Some(e@),
                None => prior(old(self)@, (txid@, index)) == None::<UtxoEntryView>,
            },
    {
        let ghost k = (txid@, index);
        let at = self.find(txid.as_slice(), index);
        let before = match at {
            Some(i) => {
                let old_record = self.records.swap_remove(i);
                Some(old_record.entry)
            },
            None => {
                proof {
                    if self@.contains_key(k) {
                        assert(self.holds(k));
                    }
                }
                None
            },
        };
        let ghost mid = self.records@;
        assert(forall|j: int| 0 <= j < mid.len() ==> (#[trigger] mid[j]).key() != k);
        let record = UtxoRecord { txid, index, entry };
        self.records.push(record);
        self.model = Ghost(self.model@.insert(k, entry@));
        proof {
            assert forall|q: OutPointView| #[trigger]
                self.model@.contains_key(q) implies self.holds(q) by {
                if q == k {
                    assert(self.records@[self.records@.len() - 1].key() == k);
                } else {
                    assert(old(self).holds(q));
                    let j = choose|j: int|
                        0 <= j < old(self).records@.len() && (#[trigger] old(
                            self,
                        ).records@[j]).key() == q;
                    match at {
                        Some(i) => {
                            if j == old(self).records@.len() - 1 {
                                assert(self.records@[i as int].key() == q);
                            } else {
                                assert(self.records@[j].key() == q);
                            }
                        },
                        None => {
                            assert(self.records@[j].key() == q);
                        },
                    }
                }
            }
        }
        before
    }

    /// Removes an outpoint and returns what it held.
    pub fn remove(&mut self, txid: &[u8], index: u32) -> (before: Option<UtxoEntry>)
        requires
            old(self).wf(),
        ensures
            final(self).wf(),
            final(self)@ == old(self)@.remove((txid@, index)),
            match before {
                Some(e) => prior(old(self)@, (txid@, index)) == Some(e@),
                None => prior(old(self)@, (txid@, index)) == None::<UtxoEntryView>,
            },
    {
        let ghost k = (txid@, index);
        let at = self.find(txid, index);
        match at {
            Some(i) => {
                let old_record = self.records.swap_remove(i);
                self.model = Ghost(self.model@.remove(k));
                proof {
                    assert forall|q: OutPointView| #[trigger]
                        self.model@.contains_key(q) implies self.holds(q) by {
                        assert(old(self).holds(q));
                        let j = choose|j: int|
                            0 <= j < old(self).records@.len() && (#[trigger] old(
                                self,
                            ).records@[j]).key() == q;
                        if j == old(self).records@.len() - 1 {
                            assert(self.records@[i as int].key() == q);
                        } else {
                            assert(self.records@[j].key() == q);
                        }
                    }
                }
                Some(old_record.entry)
            },
            None => {
                proof {
                    if self@.contains_key(k) {
                        assert(self.holds(k));
                    }
                    assert(self@.remove(k) =~= self@);
                }
                None
            },
        }
    }
}

/// The pair of a set and a journal as one ledger.
pub open spec fn ledger(utxos: UtxoMap, journal: Seq<UndoStepView>) -> Ledger {
    Ledger { utxos, journal }
}

impl UtxoSet {
    /// Applies one transaction of a block at `height` and journals every
    /// change.
    pub fn apply_transaction(&mut self, tx: &Transaction, height: u64, log: &mut UndoLog)
        requires
            old(self).wf(),
        ensures
            final(self).wf(),
            ledger(final(self)@, final(log)@) == ledger(old(self)@, old(log)@).apply_tx(
                tx@,
                height,
            ),
    {
        let ghost start = ledger(self@, log@);
        let mut i: usize = 0;
        while i < tx.inputs.len()
            invariant
                i <= tx.inputs.len(),
                self.wf(),
                ledger(self@, log@) == start.spend_inputs(tx@.inputs.take(i as int)),
            decreases tx.inputs.len() - i,
        {
            let input = &tx.inputs[i];
            let before = self.remove(input.txid.as_slice(), input.index);
            log.record(input.txid.clone(), input.index, before);
            proof {
                let next = tx@.inputs.take(i + 1);
                assert(next.drop_last() == tx@.inputs.take(i as int));
                assert(next.last() == input@);
            }
            i = i + 1;
        }
        assert(tx@.inputs.take(tx.inputs.len() as int) == tx@.inputs);
        let ghost spent = ledger(self@, log@);
        let txid = tx.txid();
        let coinbase = tx.is_coinbase();
        let mut j: usize = 0;
        while j < tx.outputs.len()
            invariant
                j <= tx.outputs.len(),
                self.wf(),
                txid@ == spec_txid(tx@),
                coinbase == tx@.is_coinbase(),
                ledger(self@, log@) == spent.create_outputs(
                    txid@,
                    tx@.outputs.take(j as int),
                    height,
                    coinbase,
                ),
            decreases tx.outputs.len() - j,
        {
            proof {
                let next = tx@.outputs.take(j + 1);
                assert(next.drop_last() == tx@.outputs.take(j as int));
                assert(next.last() == tx.outputs[j as int]@);
            }
            if j <= u32::MAX as usize {
                let output = &tx.outputs[j];
                let entry = UtxoEntry {
                    value: output.value,
                    pubkey_hash: output.pubkey_hash.clone(),
                    creation_height: height,
                    is_coinbase: coinbase,
                };
                let before = self.insert(txid.clone(), j as u32, entry);
                log.record(txid.clone(), j as u32, before);
            }
            j = j + 1;
        }
        assert(tx@.outputs.take(tx.outputs.len() as int) == tx@.outputs);
    }

    /// Takes back what a journal recorded, last line first.
    pub fn undo(&mut self, log: UndoLog)
        requires
            old(self).wf(),
        ensures
            final(self).wf(),
            final(self)@ == undo_spec(old(self)@, log@),
    {
        let mut steps = log.steps;
        while steps.len() > 0
            invariant
                self.wf(),
                undo_spec(self@, steps@.map_values(|s: UndoStep| s.line())) == undo_spec(
                    old(self)@,
                    log@,
                ),
            decreases steps.len(),
        {
            let ghost lines = steps@.map_values(|s: UndoStep| s.line());
            let step = steps.pop().unwrap();
            proof {
                assert(steps@.map_values(|s: UndoStep| s.line()) == lines.drop_last());
                assert(lines.last() == step.line());
            }
            match step.prior {
                Some(e) => {
                    self.insert(step.txid, step.index, e);
                },
                None => {
                    self.remove(step.txid.as_slice(), step.index);
                },
            }
        }
    }
}

/// Undoing the journal line of a spend gives the set back.
pub proof fn lemma_rewind_spend(s: Ledger, k: OutPointView)
    ensures
        s.spend(k).rewind() == s.rewind(),
{
    let after = s.spend(k);
    assert(after.journal.drop_last() == s.journal);
    assert(restore(after.utxos, after.journal.last()) =~= s.utxos);
}

/// Undoing the journal line of a created output gives the set back.
pub proof fn lemma_rewind_create(s: Ledger, k: OutPointView, e: UtxoEntryView)
    ensures
        s.create(k, e).rewind() == s.rewind(),
{
    let after = s.create(k, e);
    assert(after.journal.drop_last() == s.journal);
    assert(restore(after.utxos, after.journal.last()) =~= s.utxos);
}

/// Undoing the journal of a list of spends gives the set back.
pub proof fn lemma_rewind_spend_inputs(s: Ledger, inputs: Seq<TxInputView>)
    ensures
        s.spend_inputs(inputs).rewind() == s.rewind(),
    decreases inputs.len(),
{
    if inputs.len() > 0 {
        lemma_rewind_spend_inputs(s, inputs.drop_last());
        lemma_rewind_spend(
            s.spend_inputs(inputs.drop_last()),
            (inputs.last().txid, inputs.last().index),
        );
    }
}

/// Undoing the journal of a list of created outputs gives the set back.
pub proof fn lemma_rewind_create_outputs(
    s: Ledger,
    txid: Seq<u8>,
    outputs: Seq<TxOutputView>,
    height: u64,
    coinbase: bool,
)
    ensures
        s.create_outputs(txid, outputs, height, coinbase).rewind() == s.rewind(),
    decreases outputs.len(),
{
    if outputs.len() > 0 {
        lemma_rewind_create_outputs(s, txid, outputs.drop_last(), height, coinbase);
        let i = outputs.len() - 1;
        if i <= u32::MAX {
            lemma_rewind_create(
                s.create_outputs(txid, outputs.drop_last(), height, coinbase),
                (txid, i as u32),
                new_entry(outputs.last(), height, coinbase),
            );
        }
    }
}

/// Applying a transaction and then undoing the journal gives the set back.
pub proof fn lemma_rewind_apply_tx(s: Ledger, tx: TransactionView, height: u64)
    ensures
        s.apply_tx(tx, height).rewind() == s.rewind(),
{
    lemma_rewind_spend_inputs(s, tx.inputs);
    lemma_rewind_create_outputs(
        s.spend_inputs(tx.inputs),
        spec_txid(tx),
        tx.outputs,
        height,
        tx.is_coinbase(),
    );
}

/// Undoing the journal of a list of transactions gives the set back.
pub proof fn lemma_rewind_apply_txs(s: Ledger, txs: Seq<TransactionView>, height: u64)
    ensures
        s.apply_txs(txs, height).rewind() == s.rewind(),
    decreases txs.len(),
{
    if txs.len() > 0 {
        lemma_rewind_apply_txs(s, txs.drop_last(), height);
        lemma_rewind_apply_tx(s.apply_txs(txs.drop_last(), height), txs.last(), height);
    }
}

/// The round trip: whatever the transactions of a block did to a set, undoing
/// the journal they left gives exactly the set from before.
pub proof fn lemma_undo_after_apply(m: UtxoMap, txs: Seq<TransactionView>, height: u64)
    ensures
        undo_spec(
            fresh_ledger(m).apply_txs(txs, height).utxos,
            fresh_ledger(m).apply_txs(txs, height).journal,
        ) == m,
{
    lemma_rewind_apply_txs(fresh_ledger(m), txs, height);
}

/// After the inputs are spent none of their outpoints is left.
pub proof fn lemma_spent_inputs_are_gone(s: Ledger, inputs: Seq<TxInputView>)
    ensures
        forall|j: int|
            0 <= j < inputs.len() ==> !s.spend_inputs(inputs).utxos.contains_key(
                ((#[trigger] inputs[j]).txid, inputs[j].index),
            ),
    decreases inputs.len(),
{
    if inputs.len() > 0 {
        let front = inputs.drop_last();
        lemma_spent_inputs_are_gone(s, front);
        assert forall|j: int| 0 <= j < inputs.len() implies !s.spend_inputs(
            inputs,
        ).utxos.contains_key(((#[trigger] inputs[j]).txid, inputs[j].index)) by {
            if j < front.len() {
                assert(front[j] == inputs[j]);
            }
        }
    }
}

/// Whether the output `o` at place `i` of the transaction `txid` is unspent
/// in `m`, as the entry that it became at `height`.
pub open spec fn holds_output(
    m: UtxoMap,
    txid: Seq<u8>,
    i: int,
    o: TxOutputView,
    height: u64,
    coinbase: bool,
) -> bool {
    m.contains_key((txid, i as u32)) && m[(txid, i as u32)] == new_entry(o, height, coinbase)
}

/// After the outputs of a transaction are created, each stands under the
/// transaction's identifier and its place, and an outpoint of another
/// transaction is there exactly if it was there before.
pub proof fn lemma_created_outputs_are_there(
    s: Ledger,
    txid: Seq<u8>,
    outputs: Seq<TxOutputView>,
    height: u64,
    coinbase: bool,
)
    ensures
        forall|i: int|
            0 <= i < outputs.len() && i <= u32::MAX ==> #[trigger] holds_output(
                s.create_outputs(txid, outputs, height, coinbase).utxos,
                txid,
                i,
                outputs[i],
                height,
                coinbase,
            ),
        forall|k: OutPointView|
            k.0 != txid ==> (#[trigger] s.create_outputs(
                txid,
                outputs,
                height,
                coinbase,
            ).utxos.contains_key(k)) == s.utxos.contains_key(k),
    decreases outputs.len(),
{
    if outputs.len() > 0 {
        let front = outputs.drop_last();
        lemma_created_outputs_are_there(s, txid, front, height, coinbase);
        let before = s.create_outputs(txid, front, height, coinbase).utxos;
        let after = s.create_outputs(txid, outputs, height, coinbase).utxos;
        let last = outputs.len() - 1;
        assert forall|i: int| 0 <= i < outputs.len() && i <= u32::MAX implies #[trigger] holds_output(
            after,
            txid,
            i,
            outputs[i],
            height,
            coinbase,
        ) by {
            if i < last {
                assert(front[i] == outputs[i]);
                assert(holds_output(before, txid, i, front[i], height, coinbase));
                if last <= u32::MAX {
                    assert((txid, i as u32) != (txid, last as u32));
                }
            } else {
                assert(after == before.insert(
                    (txid, last as u32),
                    new_entry(outputs.last(), height, coinbase),
                ));
            }
        }
        assert forall|k: OutPointView| k.0 != txid implies (#[trigger] after.contains_key(k))
            == s.utxos.contains_key(k) by {
            assert(before.contains_key(k) == s.utxos.contains_key(k));
        }
    }
}

/// The name of one output, as inputs carry it.
#[derive(Debug)]
pub struct OutPoint {
    pub txid: Vec<u8>,
    pub index: u32,
}

impl View for OutPoint {
    type V = OutPointView;

    open spec fn view(&self) -> OutPointView {
        (self.txid@, self.index)
    }
}

/// The contents of a list of outpoints.
pub open spec fn outpoint_views(s: Seq<OutPoint>) -> Seq<OutPointView> {
    s.map_values(|p: OutPoint| p@)
}

/// The outpoints that a list of inputs spends, in order.
pub open spec fn input_keys(inputs: Seq<TxInputView>) -> Seq<OutPointView> {
    inputs.map_values(|i: TxInputView| (i.txid, i.index))
}

/// The outpoints that a list of transactions spends, in order.
pub open spec fn all_inputs(txs: Seq<TransactionView>) -> Seq<OutPointView>
    decreases txs.len(),
{
    if txs.len() == 0 {
        Seq::empty()
    } else {
        all_inputs(txs.drop_last()) + input_keys(txs.last().inputs)
    }
}

/// Appends the outpoints that `tx` spends to `list`.
pub fn collect_inputs(tx: &Transaction, list: &mut Vec<OutPoint>)
    ensures
        outpoint_views(final(list)@) == outpoint_views(old(list)@) + input_keys(tx@.inputs),
{
    let mut i: usize = 0;
    while i < tx.inputs.len()
        invariant
            i <= tx.inputs.len(),
            outpoint_views(list@) == outpoint_views(old(list)@) + input_keys(
                tx@.inputs.take(i as int),
            ),
        decreases tx.inputs.len() - i,
    {
        let ghost before = list@;
        let point = OutPoint { txid: tx.inputs[i].txid.clone(), index: tx.inputs[i].index };
        list.push(point);
        proof {
            assert(tx@.inputs[i as int] == tx.inputs[i as int]@);
            assert(outpoint_views(before.push(point)) =~= outpoint_views(before).push(point@));
            assert(input_keys(tx@.inputs.take(i + 1)) =~= input_keys(
                tx@.inputs.take(i as int),
            ).push(point@));
            assert(outpoint_views(list@) =~= outpoint_views(old(list)@) + input_keys(
                tx@.inputs.take(i + 1),
            ));
        }
        i = i + 1;
    }
    assert(tx@.inputs.take(tx.inputs.len() as int) == tx@.inputs);
}

/// Whether `list` names the outpoint.
pub fn outpoints_contain(list: &Vec<OutPoint>, txid: &[u8], index: u32) -> (found: bool)
    ensures
        found == outpoint_views(list@).contains((txid@, index)),
{
    let mut i: usize = 0;
    while i < list.len()
        invariant
            i <= list.len(),
            forall|j: int| 0 <= j < i ==> outpoint_views(list@)[j] != (txid@, index),
        decreases list.len() - i,
    {
        if list[i].index == index && bytes_eq(list[i].txid.as_slice(), txid) {
            assert(outpoint_views(list@)[i as int] == (txid@, index));
            return true;
        }
        i = i + 1;
    }
    false
}

/// Whether some outpoint occurs twice in `list`.
pub fn has_duplicates(list: &Vec<OutPoint>) -> (dup: bool)
    ensures
        dup == !outpoint_views(list@).no_duplicates(),
{
    let ghost keys = outpoint_views(list@);
    let mut a: usize = 0;
    while a < list.len()
        invariant
            a <= list.len(),
            keys == outpoint_views(list@),
            forall|x: int, y: int| 0 <= x < a && x < y < keys.len() ==> keys[x] != keys[y],
        decreases list.len() - a,
    {
        let mut b: usize = a + 1;
        while b < list.len()
            invariant
                a < list.len(),
                a < b <= list.len(),
                keys == outpoint_views(list@),
                forall|y: int| a < y < b ==> keys[a as int] != keys[y],
            decreases list.len() - b,
        {
            if list[a].index == list[b].index && bytes_eq(
                list[a].txid.as_slice(),
                list[b].txid.as_slice(),
            ) {
                assert(keys[a as int] == keys[b as int]);
                return true;
            }
            b = b + 1;
        }
        a = a + 1;
    }
    assert forall|i: int, j: int| 0 <= i < keys.len() && 0 <= j < keys.len() && i != j implies keys[i]
        != keys[j] by {
        if i < j {
            assert(keys[i] != keys[j]);
        } else {
            assert(keys[j] != keys[i]);
        }
    }
    false
}

impl UtxoSet {
    /// The unspent outputs one after the other, each once, in the order in
    /// which the set stores them.
    pub closed spec fn listing(&self) -> Seq<(OutPointView, UtxoEntryView)> {
        self.records@.map_values(|r: UtxoRecord| (r.key(), r.entry@))
    }

    /// The listing holds exactly what the set holds, every outpoint once.
    pub proof fn lemma_listing(&self)
        requires
            self.wf(),
        ensures
            self.listing().len() == self@.len(),
            forall|i: int|
                0 <= i < self.listing().len() ==> self@.contains_key(
                    (#[trigger] self.listing()[i]).0,
                ) && self@[self.listing()[i].0] == self.listing()[i].1,
            forall|i: int, j: int|
                0 <= i < j < self.listing().len() ==> (#[trigger] self.listing()[i]).0 != (
                #[trigger] self.listing()[j]).0,
            forall|k: OutPointView|
                self@.contains_key(k) ==> exists|i: int|
                    0 <= i < self.listing().len() && (#[trigger] self.listing()[i]).0 == k,
    {
        self.lemma_len();
        assert forall|k: OutPointView| self@.contains_key(k) implies exists|i: int|
            0 <= i < self.listing().len() && (#[trigger] self.listing()[i]).0 == k by {
            assert(self.holds(k));
            let i = choose|i: int|
                0 <= i < self.records@.len() && (#[trigger] self.records@[i]).key() == k;
            assert(self.listing()[i].0 == k);
        }
    }

    /// The number of unspent outputs, as the listing counts them.
    pub fn count(&self) -> (n: usize)
        ensures
            n == self.listing().len(),
    {
        self.records.len()
    }

    /// The unspent output at place `i` of the listing.
    pub fn entry_at(&self, i: usize) -> (at: (&Vec<u8>, u32, &UtxoEntry))
        requires
            i < self.listing().len(),
        ensures
            (at.0@, at.1) == self.listing()[i as int].0,
            at.2@ == self.listing()[i as int].1,
    {
        (&self.records[i].txid, self.records[i].index, &self.records[i].entry)
    }
}

impl UtxoSet {
    /// A copy of every unspent output with its outpoint, in the order of the
    /// listing.
    pub fn snapshot(&self) -> (all: Vec<(OutPoint, UtxoEntry)>)
        ensures
            all@.len() == self.listing().len(),
            forall|i: int|
                0 <= i < all@.len() ==> ((#[trigger] all@[i]).0@, all@[i].1@) == self.listing()[i],
    {
        let mut all: Vec<(OutPoint, UtxoEntry)> = Vec::new();
        let mut i: usize = 0;
        while i < self.records.len()
            invariant
                i <= self.records.len(),
                all@.len() == i,
                forall|j: int|
                    0 <= j < i ==> ((#[trigger] all@[j]).0@, all@[j].1@) == self.listing()[j],
            decreases self.records.len() - i,
        {
            let point = OutPoint {
                txid: self.records[i].txid.clone(),
                index: self.records[i].index,
            };
            all.push((point, self.records[i].entry.clone()));
            i = i + 1;
        }
        all
    }
}

} // verus!
