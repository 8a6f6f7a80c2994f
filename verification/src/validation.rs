//! The rules that a transaction must meet before it may spend, held against a
//! snapshot of the unspent outputs.

use crate::bytes::bytes_eq;
use crate::crypto::{pubkey_hash, spec_pubkey_hash, spec_verify_signature, verify_signature};
use crate::params::COINBASE_MATURITY;
use crate::transaction::{
    spec_sighash, Transaction, TransactionView, TxInputView, TxOutputView,
};
use crate::utxo::{OutPointView, UtxoEntryView, UtxoMap, UtxoSet};
use vstd::prelude::*;

verus! {

/// Why a transaction may not spend.
#[derive(Debug, Clone, Copy, PartialEq, Eq, Structural)]
pub enum TxError {
    /// It has no inputs, or an identifier, a public key or an address in it
    /// has not 32 bytes.
    Malformed,
    /// An input refers to an output that is not unspent.
    MissingInput,
    /// An input spends a coinbase output that has not matured.
    Immature,
    /// An input's public key does not hash to the address of the output.
    WrongKey,
    /// An input's signature does not verify.
    BadSig,
    /// The outputs are worth more than the inputs.
    Value,
}

/// The fixed fields of a transaction have their 32 bytes: the identifier
/// and the public key of every input, the address of every output.
pub open spec fn sized(tx: TransactionView) -> bool {
    &&& forall|i: int|
        0 <= i < tx.inputs.len() ==> (#[trigger] tx.inputs[i]).txid.len() == 32
            && tx.inputs[i].pubkey.len() == 32
    &&& forall|i: int| 0 <= i < tx.outputs.len() ==> (#[trigger] tx.outputs[i]).pubkey_hash.len() == 32
}

/// The outpoint that an input spends.
pub open spec fn input_key(i: TxInputView) -> OutPointView {
    (i.txid, i.index)
}

/// Every input refers to an unspent output.
pub open spec fn inputs_present(tx: TransactionView, m: UtxoMap) -> bool {
    forall|i: int| 0 <= i < tx.inputs.len() ==> m.contains_key(input_key(#[trigger] tx.inputs[i]))
}

/// An output can be spent at `height`: always, unless a coinbase made it
/// fewer than the maturity's number of blocks ago.
pub open spec fn mature(e: UtxoEntryView, height: u64) -> bool {
    e.is_coinbase ==> height >= e.creation_height + COINBASE_MATURITY
}

/// Every input spends an output that can be spent at `height`.
pub open spec fn inputs_mature(tx: TransactionView, m: UtxoMap, height: u64) -> bool {
    forall|i: int|
        0 <= i < tx.inputs.len() ==> mature(m[input_key(#[trigger] tx.inputs[i])], height)
}

/// Every input's public key hashes to the address of the output it spends.
pub open spec fn keys_match(tx: TransactionView, m: UtxoMap) -> bool {
    forall|i: int|
        0 <= i < tx.inputs.len() ==> spec_pubkey_hash((#[trigger] tx.inputs[i]).pubkey)
            == m[input_key(tx.inputs[i])].pubkey_hash
}

/// Every input carries a valid signature of the transaction's one signing
/// message.
pub open spec fn signatures_valid(tx: TransactionView) -> bool {
    forall|i: int|
        0 <= i < tx.inputs.len() ==> spec_verify_signature(
            (#[trigger] tx.inputs[i]).pubkey,
            spec_sighash(tx),
            tx.inputs[i].signature,
        )
}

/// The worth of the outputs that a list of inputs spends.
pub open spec fn input_sum(inputs: Seq<TxInputView>, m: UtxoMap) -> nat
    decreases inputs.len(),
{
    if inputs.len() == 0 {
        0
    } else {
        input_sum(inputs.drop_last(), m) + m[input_key(inputs.last())].value as nat
    }
}

/// The worth of a list of outputs.
pub open spec fn output_sum(outputs: Seq<TxOutputView>) -> nat
    decreases outputs.len(),
{
    if outputs.len() == 0 {
        0
    } else {
        output_sum(outputs.drop_last()) + outputs.last().value as nat
    }
}

/// The verdict on a spending transaction against the unspent outputs `m` at
/// `height`: its fee, or the first rule it breaks.
pub open spec fn spec_check_transaction(tx: TransactionView, m: UtxoMap, height: u64) -> Result<
    nat,
    TxError,
> {
    if tx.inputs.len() == 0 || !sized(tx) {
        Err(TxError::Malformed)
    } else if !inputs_present(tx, m) {
        Err(TxError::MissingInput)
    } else if !inputs_mature(tx, m, height) {
        Err(TxError::Immature)
    } else if !keys_match(tx, m) {
        Err(TxError::WrongKey)
    } else if !signatures_valid(tx) {
        Err(TxError::BadSig)
    } else if input_sum(tx.inputs, m) < output_sum(tx.outputs) {
        Err(TxError::Value)
    } else {
        Ok((input_sum(tx.inputs, m) - output_sum(tx.outputs)) as nat)
    }
}

/// Whether a transaction is valid in a block at `height`: a coinbase is when
/// its addresses have 32 bytes, a spending transaction is when it breaks no
/// rule.
pub open spec fn spec_validate_transaction(tx: TransactionView, m: UtxoMap, height: u64) -> bool {
    if tx.is_coinbase() {
        sized(tx)
    } else {
        spec_check_transaction(tx, m, height) is Ok
    }
}

proof fn lemma_sum_bound(count: nat, sum: nat)
    requires
        count <= 0xffff_ffff_ffff_ffff,
        sum <= count * 0xffff_ffff_ffff_ffff,
    ensures
        sum <= 0xffff_ffff_ffff_fffe_0000_0000_0000_0001,
{
    assert(count * 0xffff_ffff_ffff_ffff <= 0xffff_ffff_ffff_ffff * 0xffff_ffff_ffff_ffff)
        by (nonlinear_arith)
        requires
            count <= 0xffff_ffff_ffff_ffff,
    ;
}

/// Adds up the worth of a transaction's outputs.
pub fn sum_outputs(tx: &Transaction) -> (sum: u128)
    ensures
        sum == output_sum(tx@.outputs),
        sum <= 0xffff_ffff_ffff_fffe_0000_0000_0000_0001,
{
    let mut sum: u128 = 0;
    let mut i: usize = 0;
    while i < tx.outputs.len()
        invariant
            i <= tx.outputs.len(),
            sum == output_sum(tx@.outputs.take(i as int)),
            sum <= i * 0xffff_ffff_ffff_ffff,
        decreases tx.outputs.len() - i,
    {
        proof {
            let next = tx@.outputs.take(i + 1);
            assert(next.drop_last() == tx@.outputs.take(i as int));
            assert(next.last() == tx.outputs[i as int]@);
            lemma_sum_bound((i + 1) as nat, (sum + tx.outputs[i as int].value) as nat);
        }
        sum = sum + tx.outputs[i].value as u128;
        i = i + 1;
    }
    proof {
        assert(tx@.outputs.take(tx.outputs.len() as int) == tx@.outputs);
        lemma_sum_bound(i as nat, sum as nat);
    }
    sum
}

/// Whether the fixed fields of a transaction have their 32 bytes.
pub fn check_sizes(tx: &Transaction) -> (ok: bool)
    ensures
        ok == sized(tx@),
{
    let mut i: usize = 0;
    while i < tx.inputs.len()
        invariant
            i <= tx.inputs.len(),
            forall|j: int|
                0 <= j < i ==> (#[trigger] tx@.inputs[j]).txid.len() == 32
                    && tx@.inputs[j].pubkey.len() == 32,
        decreases tx.inputs.len() - i,
    {
        assert(tx@.inputs[i as int] == tx.inputs[i as int]@);
        if tx.inputs[i].txid.len() != 32 || tx.inputs[i].pubkey.len() != 32 {
            return false;
        }
        i = i + 1;
    }
    let mut j: usize = 0;
    while j < tx.outputs.len()
        invariant
            j <= tx.outputs.len(),
            forall|k: int|
                0 <= k < tx@.inputs.len() ==> (#[trigger] tx@.inputs[k]).txid.len() == 32
                    && tx@.inputs[k].pubkey.len() == 32,
            forall|k: int| 0 <= k < j ==> (#[trigger] tx@.outputs[k]).pubkey_hash.len() == 32,
        decreases tx.outputs.len() - j,
    {
        assert(tx@.outputs[j as int] == tx.outputs[j as int]@);
        if tx.outputs[j].pubkey_hash.len() != 32 {
            return false;
        }
        j = j + 1;
    }
    true
}

fn check_presence(tx: &Transaction, utxos: &UtxoSet) -> (ok: bool)
    requires
        utxos.wf(),
    ensures
        ok == inputs_present(tx@, utxos@),
{
    let mut i: usize = 0;
    while i < tx.inputs.len()
        invariant
            i <= tx.inputs.len(),
            utxos.wf(),
            forall|j: int| 0 <= j < i ==> utxos@.contains_key(input_key(#[trigger] tx@.inputs[j])),
        decreases tx.inputs.len() - i,
    {
        assert(tx@.inputs[i as int] == tx.inputs[i as int]@);
        if !utxos.contains(tx.inputs[i].txid.as_slice(), tx.inputs[i].index) {
            return false;
        }
        i = i + 1;
    }
    true
}

fn check_maturity(tx: &Transaction, utxos: &UtxoSet, height: u64) -> (ok: bool)
    requires
        utxos.wf(),
        inputs_present(tx@, utxos@),
    ensures
        ok == inputs_mature(tx@, utxos@, height),
{
    let mut i: usize = 0;
    while i < tx.inputs.len()
        invariant
            i <= tx.inputs.len(),
            utxos.wf(),
            inputs_present(tx@, utxos@),
            forall|j: int|
                0 <= j < i ==> mature(utxos@[input_key(#[trigger] tx@.inputs[j])], height),
        decreases tx.inputs.len() - i,
    {
        assert(tx@.inputs[i as int] == tx.inputs[i as int]@);
        match utxos.get(tx.inputs[i].txid.as_slice(), tx.inputs[i].index) {
            Some(entry) => {
                if entry.is_coinbase && (height as u128) < entry.creation_height as u128
                    + COINBASE_MATURITY as u128 {
                    return false;
                }
            },
            None => {
                assert(utxos@.contains_key(input_key(tx@.inputs[i as int])));
            },
        }
        i = i + 1;
    }
    true
}

fn check_keys(tx: &Transaction, utxos: &UtxoSet) -> (ok: bool)
    requires
        utxos.wf(),
        inputs_present(tx@, utxos@),
    ensures
        ok == keys_match(tx@, utxos@),
{
    let mut i: usize = 0;
    while i < tx.inputs.len()
        invariant
            i <= tx.inputs.len(),
            utxos.wf(),
            inputs_present(tx@, utxos@),
            forall|j: int|
                0 <= j < i ==> spec_pubkey_hash((#[trigger] tx@.inputs[j]).pubkey)
                    == utxos@[input_key(tx@.inputs[j])].pubkey_hash,
        decreases tx.inputs.len() - i,
    {
        assert(tx@.inputs[i as int] == tx.inputs[i as int]@);
        match utxos.get(tx.inputs[i].txid.as_slice(), tx.inputs[i].index) {
            Some(entry) => {
                let address = pubkey_hash(tx.inputs[i].pubkey.as_slice());
                if !bytes_eq(address.as_slice(), entry.pubkey_hash.as_slice()) {
                    return false;
                }
            },
            None => {
                assert(utxos@.contains_key(input_key(tx@.inputs[i as int])));
            },
        }
        i = i + 1;
    }
    true
}

fn check_signatures(tx: &Transaction) -> (ok: bool)
    ensures
        ok == signatures_valid(tx@),
{
    let message = tx.sighash();
    let mut i: usize = 0;
    while i < tx.inputs.len()
        invariant
            i <= tx.inputs.len(),
            message@ == spec_sighash(tx@),
            forall|j: int|
                0 <= j < i ==> spec_verify_signature(
                    (#[trigger] tx@.inputs[j]).pubkey,
                    spec_sighash(tx@),
                    tx@.inputs[j].signature,
                ),
        decreases tx.inputs.len() - i,
    {
        assert(tx@.inputs[i as int] == tx.inputs[i as int]@);
        if !verify_signature(
            tx.inputs[i].pubkey.as_slice(),
            message.as_slice(),
            tx.inputs[i].signature.as_slice(),
        ) {
            return false;
        }
        i = i + 1;
    }
    true
}

/// Adds up the worth of the outputs that a transaction spends.
fn sum_inputs(tx: &Transaction, utxos: &UtxoSet) -> (sum: u128)
    requires
        utxos.wf(),
        inputs_present(tx@, utxos@),
    ensures
        sum == input_sum(tx@.inputs, utxos@),
{
    let mut sum: u128 = 0;
    let mut i: usize = 0;
    while i < tx.inputs.len()
        invariant
            i <= tx.inputs.len(),
            utxos.wf(),
            inputs_present(tx@, utxos@),
            sum == input_sum(tx@.inputs.take(i as int), utxos@),
            sum <= i * 0xffff_ffff_ffff_ffff,
        decreases tx.inputs.len() - i,
    {
        proof {
            let next = tx@.inputs.take(i + 1);
            assert(next.drop_last() == tx@.inputs.take(i as int));
            assert(next.last() == tx.inputs[i as int]@);
            assert(tx@.inputs[i as int] == tx.inputs[i as int]@);
        }
        match utxos.get(tx.inputs[i].txid.as_slice(), tx.inputs[i].index) {
            Some(entry) => {
                proof {
                    lemma_sum_bound((i + 1) as nat, (sum + entry.value) as nat);
                }
                sum = sum + entry.value as u128;
            },
            None => {
                assert(utxos@.contains_key(input_key(tx@.inputs[i as int])));
            },
        }
        i = i + 1;
    }
    assert(tx@.inputs.take(tx.inputs.len() as int) == tx@.inputs);
    sum
}

/// Holds a spending transaction against the unspent outputs at `height` and
/// returns its fee, or the first rule it breaks.
pub fn check_transaction(tx: &Transaction, utxos: &UtxoSet, height: u64) -> (verdict: Result<
    u128,
    TxError,
>)
    requires
        utxos.wf(),
    ensures
        match verdict {
            Ok(fee) => spec_check_transaction(tx@, utxos@, height) == Ok::<nat, TxError>(
                fee as nat,
            ),
            Err(e) => spec_check_transaction(tx@, utxos@, height) == Err::<nat, TxError>(e),
        },
{
    if tx.inputs.len() == 0 || !check_sizes(tx) {
        return Err(TxError::Malformed);
    }
    if !check_presence(tx, utxos) {
        return Err(TxError::MissingInput);
    }
    if !check_maturity(tx, utxos, height) {
        return Err(TxError::Immature);
    }
    if !check_keys(tx, utxos) {
        return Err(TxError::WrongKey);
    }
    if !check_signatures(tx) {
        return Err(TxError::BadSig);
    }
    let spent = sum_inputs(tx, utxos);
    let created = sum_outputs(tx);
    if spent < created {
        return Err(TxError::Value);
    }
    Ok(spent - created)
}

/// Whether a transaction is valid in a block at `height`.
pub fn validate_transaction(tx: &Transaction, utxos: &UtxoSet, height: u64) -> (ok: bool)
    requires
        utxos.wf(),
    ensures
        ok == spec_validate_transaction(tx@, utxos@, height),
{
    if tx.is_coinbase() {
        return check_sizes(tx);
    }
    check_transaction(tx, utxos, height).is_ok()
}

/// A transaction that spends a coinbase output too early is refused: below
/// the creation height plus the maturity, every verdict is an error, and it
/// is `Immature` where all inputs exist.
pub proof fn lemma_immature_coinbase_rejected(
    tx: TransactionView,
    m: UtxoMap,
    height: u64,
    i: int,
)
    requires
        0 <= i < tx.inputs.len(),
        m.contains_key(input_key(tx.inputs[i])),
        m[input_key(tx.inputs[i])].is_coinbase,
        height < m[input_key(tx.inputs[i])].creation_height + COINBASE_MATURITY,
    ensures
        spec_check_transaction(tx, m, height) is Err,
        sized(tx) && inputs_present(tx, m) ==> spec_check_transaction(tx, m, height) == Err::<
            nat,
            TxError,
        >(TxError::Immature),
{
    assert(!mature(m[input_key(tx.inputs[i])], height));
}

/// From the creation height plus the maturity on, a coinbase output is spent
/// like any other: maturity refuses nothing, and a transaction whose keys,
/// signatures and amounts are in order is accepted.
pub proof fn lemma_mature_coinbase_accepted(tx: TransactionView, m: UtxoMap, height: u64)
    requires
        tx.inputs.len() > 0,
        sized(tx),
        inputs_present(tx, m),
        forall|i: int|
            0 <= i < tx.inputs.len() && m[input_key(#[trigger] tx.inputs[i])].is_coinbase
                ==> height >= m[input_key(tx.inputs[i])].creation_height + COINBASE_MATURITY,
        keys_match(tx, m),
        signatures_valid(tx),
        input_sum(tx.inputs, m) >= output_sum(tx.outputs),
    ensures
        spec_check_transaction(tx, m, height) == Ok::<nat, TxError>(
            (input_sum(tx.inputs, m) - output_sum(tx.outputs)) as nat,
        ),
{
}

} // verus!
