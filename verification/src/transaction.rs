//! Transactions: inputs that spend earlier outputs, outputs that lock value
//! to the hash of a public key.

use crate::bytes::bytes_eq;
use crate::crypto::{hash256, spec_hash256};
use crate::serialize::{serialize_transaction, serialize_unsigned, tx_bytes, unsigned};
use vstd::prelude::*;

verus! {

/// One spend: the output it consumes, the key that owns it and the signature
/// that proves it.
#[derive(Debug)]
pub struct TxInput {
    pub txid: Vec<u8>,
    pub index: u32,
    pub pubkey: Vec<u8>,
    pub signature: Vec<u8>,
    pub address_index: u32,
}

/// One payment: an amount locked to the hash of a public key.
#[derive(Debug)]
pub struct TxOutput {
    pub value: u64,
    pub pubkey_hash: Vec<u8>,
}

/// An ordered list of inputs and an ordered list of outputs. A coinbase has
/// no inputs.
#[derive(Debug)]
pub struct Transaction {
    pub inputs: Vec<TxInput>,
    pub outputs: Vec<TxOutput>,
}

/// What an input holds.
pub struct TxInputView {
    pub txid: Seq<u8>,
    pub index: u32,
    pub pubkey: Seq<u8>,
    pub signature: Seq<u8>,
    pub address_index: u32,
}

/// What an output holds.
pub struct TxOutputView {
    pub value: u64,
    pub pubkey_hash: Seq<u8>,
}

/// What a transaction holds.
pub struct TransactionView {
    pub inputs: Seq<TxInputView>,
    pub outputs: Seq<TxOutputView>,
}

impl View for TxInput {
    type V = TxInputView;

    open spec fn view(&self) -> TxInputView {
        TxInputView {
            txid: self.txid@,
            index: self.index,
            pubkey: self.pubkey@,
            signature: self.signature@,
            address_index: self.address_index,
        }
    }
}

impl View for TxOutput {
    type V = TxOutputView;

    open spec fn view(&self) -> TxOutputView {
        TxOutputView { value: self.value, pubkey_hash: self.pubkey_hash@ }
    }
}

/// The contents of a list of inputs.
pub open spec fn input_views(s: Seq<TxInput>) -> Seq<TxInputView> {
    s.map_values(|i: TxInput| i@)
}

/// The contents of a list of outputs.
pub open spec fn output_views(s: Seq<TxOutput>) -> Seq<TxOutputView> {
    s.map_values(|o: TxOutput| o@)
}

/// The contents of a list of transactions.
pub open spec fn tx_views(s: Seq<Transaction>) -> Seq<TransactionView> {
    s.map_values(|t: Transaction| t@)
}

/// The contents of a list with one more input.
pub proof fn lemma_input_views_push(s: Seq<TxInput>, x: TxInput)
    ensures
        input_views(s.push(x)) == input_views(s).push(x@),
{
    assert(input_views(s.push(x)) =~= input_views(s).push(x@));
}

/// The contents of a list with one more output.
pub proof fn lemma_output_views_push(s: Seq<TxOutput>, x: TxOutput)
    ensures
        output_views(s.push(x)) == output_views(s).push(x@),
{
    assert(output_views(s.push(x)) =~= output_views(s).push(x@));
}

/// The contents of a list with one more transaction.
pub proof fn lemma_tx_views_push(s: Seq<Transaction>, x: Transaction)
    ensures
        tx_views(s.push(x)) == tx_views(s).push(x@),
{
    assert(tx_views(s.push(x)) =~= tx_views(s).push(x@));
}

impl View for Transaction {
    type V = TransactionView;

    open spec fn view(&self) -> TransactionView {
        TransactionView {
            inputs: input_views(self.inputs@),
            outputs: output_views(self.outputs@),
        }
    }
}

impl TransactionView {
    /// A coinbase creates value: it spends nothing.
    pub open spec fn is_coinbase(self) -> bool {
        self.inputs.len() == 0
    }
}

/// The identifier of a transaction: the double SHA-256 of its encoding.
pub open spec fn spec_txid(tx: TransactionView) -> Seq<u8> {
    spec_hash256(tx_bytes(tx))
}

/// The message that every input signs: the double SHA-256 of the encoding
/// with all signatures blanked.
pub open spec fn spec_sighash(tx: TransactionView) -> Seq<u8> {
    spec_hash256(tx_bytes(unsigned(tx)))
}

/// The size that policy charges a transaction for.
pub open spec fn spec_serialized_size(tx: TransactionView) -> nat {
    tx.inputs.len() * 148 + tx.outputs.len() * 34 + 10
}

impl Clone for TxInput {
    fn clone(&self) -> (copy: Self)
        ensures
            copy@ == self@,
    {
        TxInput {
            txid: self.txid.clone(),
            index: self.index,
            pubkey: self.pubkey.clone(),
            signature: self.signature.clone(),
            address_index: self.address_index,
        }
    }
}

impl Clone for TxOutput {
    fn clone(&self) -> (copy: Self)
        ensures
            copy@ == self@,
    {
        TxOutput { value: self.value, pubkey_hash: self.pubkey_hash.clone() }
    }
}

impl Clone for Transaction {
    fn clone(&self) -> (copy: Self)
        ensures
            copy@ == self@,
    {
        let mut inputs: Vec<TxInput> = Vec::new();
        let mut i: usize = 0;
        while i < self.inputs.len()
            invariant
                i <= self.inputs.len(),
                input_views(inputs@) == self@.inputs.take(i as int),
            decreases self.inputs.len() - i,
        {
            let ghost before = inputs@;
            let copy = self.inputs[i].clone();
            inputs.push(copy);
            proof {
                lemma_input_views_push(before, copy);
                assert(self@.inputs.take(i + 1) == self@.inputs.take(i as int).push(
                    self@.inputs[i as int],
                ));
            }
            i = i + 1;
        }
        let mut outputs: Vec<TxOutput> = Vec::new();
        let mut j: usize = 0;
        while j < self.outputs.len()
            invariant
                j <= self.outputs.len(),
                output_views(outputs@) == self@.outputs.take(j as int),
            decreases self.outputs.len() - j,
        {
            let ghost before = outputs@;
            let copy = self.outputs[j].clone();
            outputs.push(copy);
            proof {
                lemma_output_views_push(before, copy);
                assert(self@.outputs.take(j + 1) == self@.outputs.take(j as int).push(
                    self@.outputs[j as int],
                ));
            }
            j = j + 1;
        }
        assert(self@.inputs.take(self.inputs.len() as int) == self@.inputs);
        assert(self@.outputs.take(self.outputs.len() as int) == self@.outputs);
        Transaction { inputs, outputs }
    }
}

impl Transaction {
    /// Whether this transaction is a coinbase.
    pub fn is_coinbase(&self) -> (b: bool)
        ensures
            b == self@.is_coinbase(),
    {
        self.inputs.len() == 0
    }

    /// The transaction's identifier.
    pub fn txid(&self) -> (id: Vec<u8>)
        ensures
            id@ == spec_txid(self@),
            id@.len() == 32,
    {
        let bytes = serialize_transaction(self);
        hash256(bytes.as_slice())
    }

    /// The message that each input signs. It does not depend on what the
    /// signature fields hold.
    pub fn sighash(&self) -> (digest: Vec<u8>)
        ensures
            digest@ == spec_sighash(self@),
            digest@.len() == 32,
    {
        let bytes = serialize_unsigned(self);
        hash256(bytes.as_slice())
    }

    /// The size that policy charges for, capped at `usize::MAX`.
    pub fn serialized_size(&self) -> (size: usize)
        ensures
            size == if spec_serialized_size(self@) <= usize::MAX {
                spec_serialized_size(self@)
            } else {
                usize::MAX as nat
            },
    {
        let total: u128 = (self.inputs.len() as u128) * 148 + (self.outputs.len() as u128) * 34
            + 10;
        if total > usize::MAX as u128 {
            usize::MAX
        } else {
            total as usize
        }
    }
}

/// The encoding and the identifier are functions of what a transaction
/// holds: two transactions of equal contents have the same bytes and the same
/// identifier, wherever and whenever they are computed.
pub proof fn lemma_txid_is_a_function_of_contents(a: Transaction, b: Transaction)
    requires
        a@ == b@,
    ensures
        tx_bytes(a@) == tx_bytes(b@),
        spec_txid(a@) == spec_txid(b@),
        spec_sighash(a@) == spec_sighash(b@),
{
}

/// The signing message does not depend on the signatures: a transaction and
/// the same transaction with other signatures, or none, give one message.
pub proof fn lemma_sighash_ignores_signatures(a: TransactionView, b: TransactionView)
    requires
        a.outputs == b.outputs,
        a.inputs.len() == b.inputs.len(),
        forall|i: int|
            0 <= i < a.inputs.len() ==> (#[trigger] a.inputs[i]).txid == b.inputs[i].txid
                && a.inputs[i].index == b.inputs[i].index && a.inputs[i].pubkey
                == b.inputs[i].pubkey && a.inputs[i].address_index == b.inputs[i].address_index,
    ensures
        spec_sighash(a) == spec_sighash(b),
{
    crate::serialize::lemma_unsigned_ignores_signatures(a, b);
}

/// Blanking the signatures of a signed transaction and hashing again gives
/// the message that was signed.
pub proof fn lemma_sighash_of_unsigned(tx: TransactionView)
    ensures
        spec_sighash(unsigned(tx)) == spec_sighash(tx),
        spec_sighash(tx) == spec_txid(unsigned(tx)),
{
    crate::serialize::lemma_unsigned_idempotent(tx);
}

impl TxInput {
    /// Whether two inputs hold the same.
    pub fn same_as(&self, other: &TxInput) -> (same: bool)
        ensures
            same == (self@ == other@),
    {
        bytes_eq(self.txid.as_slice(), other.txid.as_slice()) && self.index == other.index
            && bytes_eq(self.pubkey.as_slice(), other.pubkey.as_slice()) && bytes_eq(
            self.signature.as_slice(),
            other.signature.as_slice(),
        ) && self.address_index == other.address_index
    }
}

impl TxOutput {
    /// Whether two outputs hold the same.
    pub fn same_as(&self, other: &TxOutput) -> (same: bool)
        ensures
            same == (self@ == other@),
    {
        self.value == other.value && bytes_eq(
            self.pubkey_hash.as_slice(),
            other.pubkey_hash.as_slice(),
        )
    }
}

impl Transaction {
    fn same_inputs(&self, other: &Transaction) -> (same: bool)
        ensures
            same == (self@.inputs == other@.inputs),
    {
        if self.inputs.len() != other.inputs.len() {
            assert(self@.inputs.len() != other@.inputs.len());
            return false;
        }
        let mut i: usize = 0;
        while i < self.inputs.len()
            invariant
                i <= self.inputs.len(),
                self.inputs.len() == other.inputs.len(),
                forall|j: int| 0 <= j < i ==> self@.inputs[j] == other@.inputs[j],
            decreases self.inputs.len() - i,
        {
            assert(self@.inputs[i as int] == self.inputs[i as int]@);
            assert(other@.inputs[i as int] == other.inputs[i as int]@);
            if !self.inputs[i].same_as(&other.inputs[i]) {
                return false;
            }
            i = i + 1;
        }
        assert(self@.inputs =~= other@.inputs);
        true
    }

    fn same_outputs(&self, other: &Transaction) -> (same: bool)
        ensures
            same == (self@.outputs == other@.outputs),
    {
        if self.outputs.len() != other.outputs.len() {
            assert(self@.outputs.len() != other@.outputs.len());
            return false;
        }
        let mut i: usize = 0;
        while i < self.outputs.len()
            invariant
                i <= self.outputs.len(),
                self.outputs.len() == other.outputs.len(),
                forall|j: int| 0 <= j < i ==> self@.outputs[j] == other@.outputs[j],
            decreases self.outputs.len() - i,
        {
            assert(self@.outputs[i as int] == self.outputs[i as int]@);
            assert(other@.outputs[i as int] == other.outputs[i as int]@);
            if !self.outputs[i].same_as(&other.outputs[i]) {
                return false;
            }
            i = i + 1;
        }
        assert(self@.outputs =~= other@.outputs);
        true
    }

    /// Whether two transactions hold the same: the same inputs and the same
    /// outputs, in the same order.
    pub fn same_as(&self, other: &Transaction) -> (same: bool)
        ensures
            same == (self@ == other@),
    {
        self.same_inputs(other) && self.same_outputs(other)
    }
}

} // verus!
