//! The canonical encoding. Every identifier and every signed message is a
//! hash of these bytes, so the layout is part of consensus: integers are
//! little-endian, the 32-byte fields (hashes, public keys, the target) are
//! written raw, and the signature, the one field of another length, carries
//! its length in front.

use crate::block::{BlockHeader, BlockHeaderView};
use crate::bytes::{
    count_le, i64_le, lemma_le_bytes_len, len_prefixed, u32_le, u64_le, write_bytes, write_count,
    write_i64_le, write_raw, write_u32_le, write_u64_le,
};
use crate::transaction::{
    Transaction, TransactionView, TxInput, TxInputView, TxOutput, TxOutputView,
};
use vstd::prelude::*;

verus! {

/// The placeholder that stands in for every signature while signing.
pub open spec fn blank_signature() -> Seq<u8> {
    Seq::new(64, |k: int| 0u8)
}

/// An input with its signature blanked.
pub open spec fn blank(i: TxInputView) -> TxInputView {
    TxInputView { signature: blank_signature(), ..i }
}

/// A transaction with every signature blanked.
pub open spec fn unsigned(tx: TransactionView) -> TransactionView {
    TransactionView { inputs: tx.inputs.map_values(|i: TxInputView| blank(i)), outputs: tx.outputs }
}

/// The encoding of an input: the outpoint it spends, the public key, the
/// signature behind its length, the place of the key in its wallet.
pub open spec fn input_bytes(i: TxInputView) -> Seq<u8> {
    i.txid + u32_le(i.index) + i.pubkey + len_prefixed(i.signature) + u32_le(i.address_index)
}

/// The encoding of an output: the value, then the address.
pub open spec fn output_bytes(o: TxOutputView) -> Seq<u8> {
    u64_le(o.value) + o.pubkey_hash
}

/// The encodings of a list of inputs, one after the other.
pub open spec fn inputs_bytes(s: Seq<TxInputView>) -> Seq<u8>
    decreases s.len(),
{
    if s.len() == 0 {
        Seq::empty()
    } else {
        inputs_bytes(s.drop_last()) + input_bytes(s.last())
    }
}

/// The encodings of a list of outputs, one after the other.
pub open spec fn outputs_bytes(s: Seq<TxOutputView>) -> Seq<u8>
    decreases s.len(),
{
    if s.len() == 0 {
        Seq::empty()
    } else {
        outputs_bytes(s.drop_last()) + output_bytes(s.last())
    }
}

/// The encoding of a transaction: the input count, the inputs, the output
/// count, the outputs.
pub open spec fn tx_bytes(tx: TransactionView) -> Seq<u8> {
    count_le(tx.inputs.len()) + inputs_bytes(tx.inputs) + count_le(tx.outputs.len())
        + outputs_bytes(tx.outputs)
}

/// The encoding of a header: height, timestamp, previous hash, nonce, target,
/// merkle root.
pub open spec fn header_bytes(h: BlockHeaderView) -> Seq<u8> {
    u64_le(h.height) + i64_le(h.timestamp) + h.prev_hash + u64_le(h.nonce) + h.target
        + h.merkle_root
}

/// Encodes a block header for hashing.
pub fn serialize_block_header(header: &BlockHeader) -> (out: Vec<u8>)
    ensures
        out@ == header_bytes(header@),
{
    let mut out: Vec<u8> = Vec::new();
    write_u64_le(header.height, &mut out);
    write_i64_le(header.timestamp, &mut out);
    write_raw(header.prev_hash.as_slice(), &mut out);
    write_u64_le(header.nonce, &mut out);
    write_raw(header.target.as_slice(), &mut out);
    write_raw(header.merkle_root.as_slice(), &mut out);
    assert(out@ == header_bytes(header@));
    out
}

fn serialize_input(i: &TxInput, out: &mut Vec<u8>)
    ensures
        final(out)@ == old(out)@ + input_bytes(i@),
{
    write_raw(i.txid.as_slice(), out);
    write_u32_le(i.index, out);
    write_raw(i.pubkey.as_slice(), out);
    write_bytes(i.signature.as_slice(), out);
    write_u32_le(i.address_index, out);
    assert(out@ == old(out)@ + input_bytes(i@));
}

fn serialize_blank_input(i: &TxInput, out: &mut Vec<u8>)
    ensures
        final(out)@ == old(out)@ + input_bytes(blank(i@)),
{
    write_raw(i.txid.as_slice(), out);
    write_u32_le(i.index, out);
    write_raw(i.pubkey.as_slice(), out);
    let zeros: [u8; 64] = [0u8; 64];
    assert(zeros@ == blank_signature());
    write_bytes(zeros.as_slice(), out);
    write_u32_le(i.address_index, out);
    assert(out@ == old(out)@ + input_bytes(blank(i@)));
}

fn serialize_output(o: &TxOutput, out: &mut Vec<u8>)
    ensures
        final(out)@ == old(out)@ + output_bytes(o@),
{
    write_u64_le(o.value, out);
    write_raw(o.pubkey_hash.as_slice(), out);
    assert(out@ == old(out)@ + output_bytes(o@));
}

fn serialize_outputs(tx: &Transaction, out: &mut Vec<u8>)
    ensures
        final(out)@ == old(out)@ + count_le(tx@.outputs.len()) + outputs_bytes(tx@.outputs),
{
    write_count(tx.outputs.len(), out);
    let mut j: usize = 0;
    while j < tx.outputs.len()
        invariant
            j <= tx.outputs.len(),
            out@ == old(out)@ + count_le(tx@.outputs.len()) + outputs_bytes(
                tx@.outputs.take(j as int),
            ),
        decreases tx.outputs.len() - j,
    {
        serialize_output(&tx.outputs[j], out);
        proof {
            let next = tx@.outputs.take(j + 1);
            assert(next.drop_last() == tx@.outputs.take(j as int));
            assert(next.last() == tx.outputs[j as int]@);
        }
        j = j + 1;
    }
    assert(tx@.outputs.take(tx.outputs.len() as int) == tx@.outputs);
}

/// Encodes a transaction; its identifier is the hash of these bytes.
pub fn serialize_transaction(tx: &Transaction) -> (out: Vec<u8>)
    ensures
        out@ == tx_bytes(tx@),
{
    let mut out: Vec<u8> = Vec::new();
    write_count(tx.inputs.len(), &mut out);
    let mut i: usize = 0;
    while i < tx.inputs.len()
        invariant
            i <= tx.inputs.len(),
            out@ == count_le(tx@.inputs.len()) + inputs_bytes(tx@.inputs.take(i as int)),
        decreases tx.inputs.len() - i,
    {
        serialize_input(&tx.inputs[i], &mut out);
        proof {
            let next = tx@.inputs.take(i + 1);
            assert(next.drop_last() == tx@.inputs.take(i as int));
            assert(next.last() == tx.inputs[i as int]@);
        }
        i = i + 1;
    }
    assert(tx@.inputs.take(tx.inputs.len() as int) == tx@.inputs);
    serialize_outputs(tx, &mut out);
    out
}

/// Encodes a transaction with every signature blanked: the bytes whose hash
/// the inputs sign.
pub fn serialize_unsigned(tx: &Transaction) -> (out: Vec<u8>)
    ensures
        out@ == tx_bytes(unsigned(tx@)),
{
    let mut out: Vec<u8> = Vec::new();
    write_count(tx.inputs.len(), &mut out);
    let mut i: usize = 0;
    while i < tx.inputs.len()
        invariant
            i <= tx.inputs.len(),
            out@ == count_le(tx@.inputs.len()) + inputs_bytes(
                unsigned(tx@).inputs.take(i as int),
            ),
        decreases tx.inputs.len() - i,
    {
        serialize_blank_input(&tx.inputs[i], &mut out);
        proof {
            let next = unsigned(tx@).inputs.take(i + 1);
            assert(next.drop_last() == unsigned(tx@).inputs.take(i as int));
            assert(next.last() == blank(tx.inputs[i as int]@));
        }
        i = i + 1;
    }
    assert(unsigned(tx@).inputs.take(tx.inputs.len() as int) == unsigned(tx@).inputs);
    serialize_outputs(tx, &mut out);
    out
}

/// A header whose hashes and target have their 32 bytes is encoded in 120
/// bytes.
pub proof fn lemma_header_length(h: BlockHeaderView)
    requires
        h.prev_hash.len() == 32,
        h.target.len() == 32,
        h.merkle_root.len() == 32,
    ensures
        header_bytes(h).len() == 120,
{
    lemma_le_bytes_len(h.height as nat, 8);
    lemma_le_bytes_len(h.nonce as nat, 8);
    if h.timestamp < 0 {
        lemma_le_bytes_len((h.timestamp + 0x1_0000_0000_0000_0000) as nat, 8);
    } else {
        lemma_le_bytes_len(h.timestamp as nat, 8);
    }
}

/// Whether the fields of an input have their lengths: 32 bytes each for the
/// identifier and the public key, 64 for the signature.
pub open spec fn input_sized(i: TxInputView) -> bool {
    i.txid.len() == 32 && i.pubkey.len() == 32 && i.signature.len() == 64
}

/// An input whose fields have their lengths is encoded in 140 bytes, an
/// output with an address of 32 bytes in 40.
pub proof fn lemma_field_lengths(i: TxInputView, o: TxOutputView)
    ensures
        input_sized(i) ==> input_bytes(i).len() == 140,
        o.pubkey_hash.len() == 32 ==> output_bytes(o).len() == 40,
{
    lemma_le_bytes_len(i.index as nat, 4);
    lemma_le_bytes_len(i.address_index as nat, 4);
    lemma_le_bytes_len(i.signature.len(), 4);
    lemma_le_bytes_len(o.value as nat, 8);
}

/// A transaction whose fields have their lengths is encoded in 8 bytes for
/// the two counts, 140 for each input and 40 for each output.
pub proof fn lemma_transaction_length(tx: TransactionView)
    requires
        forall|i: int| 0 <= i < tx.inputs.len() ==> input_sized(#[trigger] tx.inputs[i]),
        forall|i: int| 0 <= i < tx.outputs.len() ==> (#[trigger] tx.outputs[i]).pubkey_hash.len() == 32,
    ensures
        tx_bytes(tx).len() == 8 + 140 * tx.inputs.len() + 40 * tx.outputs.len(),
{
    lemma_le_bytes_len(tx.inputs.len(), 4);
    lemma_le_bytes_len(tx.outputs.len(), 4);
    lemma_inputs_length(tx.inputs);
    lemma_outputs_length(tx.outputs);
}

proof fn lemma_inputs_length(s: Seq<TxInputView>)
    requires
        forall|i: int| 0 <= i < s.len() ==> input_sized(#[trigger] s[i]),
    ensures
        inputs_bytes(s).len() == 140 * s.len(),
    decreases s.len(),
{
    if s.len() > 0 {
        assert forall|i: int| 0 <= i < s.drop_last().len() implies input_sized(
            #[trigger] s.drop_last()[i],
        ) by {
            assert(s.drop_last()[i] == s[i]);
        }
        lemma_inputs_length(s.drop_last());
        assert(input_sized(s[s.len() - 1]));
        lemma_le_bytes_len(s.last().index as nat, 4);
        lemma_le_bytes_len(s.last().address_index as nat, 4);
        lemma_le_bytes_len(s.last().signature.len(), 4);
    }
}

proof fn lemma_outputs_length(s: Seq<TxOutputView>)
    requires
        forall|i: int| 0 <= i < s.len() ==> (#[trigger] s[i]).pubkey_hash.len() == 32,
    ensures
        outputs_bytes(s).len() == 40 * s.len(),
    decreases s.len(),
{
    if s.len() > 0 {
        assert forall|i: int| 0 <= i < s.drop_last().len() implies (#[trigger] s.drop_last()[i]).pubkey_hash.len()
            == 32 by {
            assert(s.drop_last()[i] == s[i]);
        }
        lemma_outputs_length(s.drop_last());
        assert(s[s.len() - 1].pubkey_hash.len() == 32);
        lemma_le_bytes_len(s.last().value as nat, 8);
    }
}

/// Blanking is idempotent: blanking the signatures of a transaction whose
/// signatures are already blank changes nothing.
pub proof fn lemma_unsigned_idempotent(tx: TransactionView)
    ensures
        unsigned(unsigned(tx)) == unsigned(tx),
{
    assert(unsigned(unsigned(tx)).inputs =~= unsigned(tx).inputs);
}

/// Two transactions that differ only in what their signature fields hold
/// have the same blanked form.
pub proof fn lemma_unsigned_ignores_signatures(a: TransactionView, b: TransactionView)
    requires
        a.outputs == b.outputs,
        a.inputs.len() == b.inputs.len(),
        forall|i: int|
            0 <= i < a.inputs.len() ==> (#[trigger] a.inputs[i]).txid == b.inputs[i].txid
                && a.inputs[i].index == b.inputs[i].index && a.inputs[i].pubkey
                == b.inputs[i].pubkey && a.inputs[i].address_index == b.inputs[i].address_index,
    ensures
        unsigned(a) == unsigned(b),
{
    assert(unsigned(a).inputs =~= unsigned(b).inputs);
}

} // verus!
