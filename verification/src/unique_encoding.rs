//! The canonical encoding loses nothing: where the fixed fields have their
//! 32 bytes and every other length fits its four-byte count, two
//! transactions of one encoding are the same transaction.

use crate::bytes::{
    count_le, le_bytes, lemma_le_bytes_len, len_prefixed, pow256, u32_le, u64_le,
};
use crate::serialize::{input_bytes, inputs_bytes, output_bytes, outputs_bytes, tx_bytes};
use crate::transaction::{TransactionView, TxInputView, TxOutputView};
use vstd::prelude::*;

verus! {

/// The largest number that a four-byte count holds, plus one.
pub open spec fn count_limit() -> nat {
    0x1_0000_0000
}

/// An input whose identifier and key have 32 bytes and whose signature has
/// a length that fits a count.
pub open spec fn input_encodable(i: TxInputView) -> bool {
    &&& i.txid.len() == 32
    &&& i.pubkey.len() == 32
    &&& i.signature.len() < count_limit()
}

/// An output whose address has 32 bytes.
pub open spec fn output_encodable(o: TxOutputView) -> bool {
    o.pubkey_hash.len() == 32
}

/// A transaction whose fixed fields have 32 bytes and whose other lengths
/// fit a count.
pub open spec fn encodable(tx: TransactionView) -> bool {
    &&& tx.inputs.len() < count_limit()
    &&& tx.outputs.len() < count_limit()
    &&& forall|i: int| 0 <= i < tx.inputs.len() ==> input_encodable(#[trigger] tx.inputs[i])
    &&& forall|i: int| 0 <= i < tx.outputs.len() ==> output_encodable(#[trigger] tx.outputs[i])
}

/// Two numbers below 256 to the width with one little-endian encoding are
/// one number.
proof fn lemma_le_injective(a: nat, b: nat, width: nat)
    requires
        a < pow256(width),
        b < pow256(width),
        le_bytes(a, width) == le_bytes(b, width),
    ensures
        a == b,
    decreases width,
{
    if width > 0 {
        let x = le_bytes(a, width);
        let y = le_bytes(b, width);
        assert(x[0] == (a % 256) as u8);
        assert(y[0] == (b % 256) as u8);
        assert(x.skip(1) =~= le_bytes(a / 256, (width - 1) as nat));
        assert(y.skip(1) =~= le_bytes(b / 256, (width - 1) as nat));
        lemma_le_injective(a / 256, b / 256, (width - 1) as nat);
    }
}

proof fn lemma_pow256_values()
    ensures
        pow256(4) == 0x1_0000_0000,
        pow256(8) == 0x1_0000_0000_0000_0000,
{
    assert(pow256(0) == 1);
    assert(pow256(1) == 256);
    assert(pow256(2) == 0x1_0000);
    assert(pow256(3) == 0x100_0000);
    assert(pow256(4) == 0x1_0000_0000);
    assert(pow256(5) == 0x100_0000_0000);
    assert(pow256(6) == 0x1_0000_0000_0000);
    assert(pow256(7) == 0x100_0000_0000_0000);
    assert(pow256(8) == 0x1_0000_0000_0000_0000);
}

/// Two encodings of fixed width, each followed by more bytes, that agree as
/// a whole agree part by part.
proof fn lemma_split_fixed(a: Seq<u8>, ra: Seq<u8>, b: Seq<u8>, rb: Seq<u8>)
    requires
        a.len() == b.len(),
        a + ra == b + rb,
    ensures
        a == b,
        ra == rb,
{
    assert(a =~= (a + ra).subrange(0, a.len() as int));
    assert(b =~= (b + rb).subrange(0, b.len() as int));
    assert(ra =~= (a + ra).subrange(a.len() as int, (a + ra).len() as int));
    assert(rb =~= (b + rb).subrange(b.len() as int, (b + rb).len() as int));
}

/// Two counts, each followed by more bytes, that agree as a whole are one
/// count followed by the same bytes.
proof fn lemma_split_count(a: nat, ra: Seq<u8>, b: nat, rb: Seq<u8>)
    requires
        a < count_limit(),
        b < count_limit(),
        count_le(a) + ra == count_le(b) + rb,
    ensures
        a == b,
        ra == rb,
{
    lemma_le_bytes_len(a, 4);
    lemma_le_bytes_len(b, 4);
    lemma_split_fixed(count_le(a), ra, count_le(b), rb);
    lemma_pow256_values();
    lemma_le_injective(a, b, 4);
}

/// Two byte strings behind their lengths, each followed by more bytes, that
/// agree as a whole are one byte string followed by the same bytes.
proof fn lemma_split_prefixed(a: Seq<u8>, ra: Seq<u8>, b: Seq<u8>, rb: Seq<u8>)
    requires
        a.len() < count_limit(),
        b.len() < count_limit(),
        len_prefixed(a) + ra == len_prefixed(b) + rb,
    ensures
        a == b,
        ra == rb,
{
    assert(len_prefixed(a) + ra =~= count_le(a.len()) + (a + ra));
    assert(len_prefixed(b) + rb =~= count_le(b.len()) + (b + rb));
    lemma_split_count(a.len(), a + ra, b.len(), b + rb);
    lemma_split_fixed(a, ra, b, rb);
}

proof fn lemma_split_u32(a: u32, ra: Seq<u8>, b: u32, rb: Seq<u8>)
    requires
        u32_le(a) + ra == u32_le(b) + rb,
    ensures
        a == b,
        ra == rb,
{
    lemma_split_count(a as nat, ra, b as nat, rb);
}

proof fn lemma_split_u64(a: u64, ra: Seq<u8>, b: u64, rb: Seq<u8>)
    requires
        u64_le(a) + ra == u64_le(b) + rb,
    ensures
        a == b,
        ra == rb,
{
    lemma_le_bytes_len(a as nat, 8);
    lemma_le_bytes_len(b as nat, 8);
    lemma_split_fixed(u64_le(a), ra, u64_le(b), rb);
    lemma_pow256_values();
    lemma_le_injective(a as nat, b as nat, 8);
}

/// Two encoded inputs, each followed by more bytes, that agree as a whole
/// are one input followed by the same bytes.
pub proof fn lemma_split_input(a: TxInputView, ra: Seq<u8>, b: TxInputView, rb: Seq<u8>)
    requires
        input_encodable(a),
        input_encodable(b),
        input_bytes(a) + ra == input_bytes(b) + rb,
    ensures
        a == b,
        ra == rb,
{
    let a4 = u32_le(a.address_index) + ra;
    let b4 = u32_le(b.address_index) + rb;
    let a3 = len_prefixed(a.signature) + a4;
    let b3 = len_prefixed(b.signature) + b4;
    let a2 = a.pubkey + a3;
    let b2 = b.pubkey + b3;
    let a1 = u32_le(a.index) + a2;
    let b1 = u32_le(b.index) + b2;
    assert(input_bytes(a) + ra =~= a.txid + a1);
    assert(input_bytes(b) + rb =~= b.txid + b1);
    lemma_split_fixed(a.txid, a1, b.txid, b1);
    lemma_split_u32(a.index, a2, b.index, b2);
    lemma_split_fixed(a.pubkey, a3, b.pubkey, b3);
    lemma_split_prefixed(a.signature, a4, b.signature, b4);
    lemma_split_u32(a.address_index, ra, b.address_index, rb);
}

/// Two encoded outputs, each followed by more bytes, that agree as a whole
/// are one output followed by the same bytes.
pub proof fn lemma_split_output(a: TxOutputView, ra: Seq<u8>, b: TxOutputView, rb: Seq<u8>)
    requires
        output_encodable(a),
        output_encodable(b),
        output_bytes(a) + ra == output_bytes(b) + rb,
    ensures
        a == b,
        ra == rb,
{
    let a1 = a.pubkey_hash + ra;
    let b1 = b.pubkey_hash + rb;
    assert(output_bytes(a) + ra =~= u64_le(a.value) + a1);
    assert(output_bytes(b) + rb =~= u64_le(b.value) + b1);
    lemma_split_u64(a.value, a1, b.value, b1);
    lemma_split_fixed(a.pubkey_hash, ra, b.pubkey_hash, rb);
}

/// The encodings of a list of inputs start with the encoding of the first.
proof fn lemma_inputs_front(s: Seq<TxInputView>)
    requires
        s.len() > 0,
    ensures
        inputs_bytes(s) == input_bytes(s[0]) + inputs_bytes(s.skip(1)),
    decreases s.len(),
{
    if s.len() == 1 {
        assert(s.drop_last() =~= Seq::<TxInputView>::empty());
        assert(s.skip(1) =~= Seq::<TxInputView>::empty());
        assert(inputs_bytes(s) =~= input_bytes(s[0]) + inputs_bytes(s.skip(1)));
    } else {
        lemma_inputs_front(s.drop_last());
        assert(s.drop_last().skip(1) =~= s.skip(1).drop_last());
        assert(s.skip(1).last() == s.last());
        assert(inputs_bytes(s) =~= input_bytes(s[0]) + inputs_bytes(s.skip(1)));
    }
}

/// The encodings of a list of outputs start with the encoding of the first.
proof fn lemma_outputs_front(s: Seq<TxOutputView>)
    requires
        s.len() > 0,
    ensures
        outputs_bytes(s) == output_bytes(s[0]) + outputs_bytes(s.skip(1)),
    decreases s.len(),
{
    if s.len() == 1 {
        assert(s.drop_last() =~= Seq::<TxOutputView>::empty());
        assert(s.skip(1) =~= Seq::<TxOutputView>::empty());
        assert(outputs_bytes(s) =~= output_bytes(s[0]) + outputs_bytes(s.skip(1)));
    } else {
        lemma_outputs_front(s.drop_last());
        assert(s.drop_last().skip(1) =~= s.skip(1).drop_last());
        assert(s.skip(1).last() == s.last());
        assert(outputs_bytes(s) =~= output_bytes(s[0]) + outputs_bytes(s.skip(1)));
    }
}

/// Two lists of as many inputs, each followed by more bytes, that agree as a
/// whole are one list followed by the same bytes.
proof fn lemma_split_inputs(a: Seq<TxInputView>, ra: Seq<u8>, b: Seq<TxInputView>, rb: Seq<u8>)
    requires
        a.len() == b.len(),
        forall|i: int| 0 <= i < a.len() ==> input_encodable(#[trigger] a[i]),
        forall|i: int| 0 <= i < b.len() ==> input_encodable(#[trigger] b[i]),
        inputs_bytes(a) + ra == inputs_bytes(b) + rb,
    ensures
        a == b,
        ra == rb,
    decreases a.len(),
{
    if a.len() == 0 {
        assert(a =~= b);
        assert(inputs_bytes(a) + ra =~= ra);
        assert(inputs_bytes(b) + rb =~= rb);
    } else {
        lemma_inputs_front(a);
        lemma_inputs_front(b);
        let ta = inputs_bytes(a.skip(1)) + ra;
        let tb = inputs_bytes(b.skip(1)) + rb;
        assert(inputs_bytes(a) + ra =~= input_bytes(a[0]) + ta);
        assert(inputs_bytes(b) + rb =~= input_bytes(b[0]) + tb);
        lemma_split_input(a[0], ta, b[0], tb);
        assert forall|i: int| 0 <= i < a.skip(1).len() implies input_encodable(
            #[trigger] a.skip(1)[i],
        ) by {
            assert(a.skip(1)[i] == a[i + 1]);
        }
        assert forall|i: int| 0 <= i < b.skip(1).len() implies input_encodable(
            #[trigger] b.skip(1)[i],
        ) by {
            assert(b.skip(1)[i] == b[i + 1]);
        }
        lemma_split_inputs(a.skip(1), ra, b.skip(1), rb);
        assert(a =~= seq![a[0]] + a.skip(1));
        assert(b =~= seq![b[0]] + b.skip(1));
    }
}

/// Two lists of as many outputs, each followed by more bytes, that agree as
/// a whole are one list followed by the same bytes.
proof fn lemma_split_outputs(a: Seq<TxOutputView>, ra: Seq<u8>, b: Seq<TxOutputView>, rb: Seq<u8>)
    requires
        a.len() == b.len(),
        forall|i: int| 0 <= i < a.len() ==> output_encodable(#[trigger] a[i]),
        forall|i: int| 0 <= i < b.len() ==> output_encodable(#[trigger] b[i]),
        outputs_bytes(a) + ra == outputs_bytes(b) + rb,
    ensures
        a == b,
        ra == rb,
    decreases a.len(),
{
    if a.len() == 0 {
        assert(a =~= b);
        assert(outputs_bytes(a) + ra =~= ra);
        assert(outputs_bytes(b) + rb =~= rb);
    } else {
        lemma_outputs_front(a);
        lemma_outputs_front(b);
        let ta = outputs_bytes(a.skip(1)) + ra;
        let tb = outputs_bytes(b.skip(1)) + rb;
        assert(outputs_bytes(a) + ra =~= output_bytes(a[0]) + ta);
        assert(outputs_bytes(b) + rb =~= output_bytes(b[0]) + tb);
        lemma_split_output(a[0], ta, b[0], tb);
        assert forall|i: int| 0 <= i < a.skip(1).len() implies output_encodable(
            #[trigger] a.skip(1)[i],
        ) by {
            assert(a.skip(1)[i] == a[i + 1]);
        }
        assert forall|i: int| 0 <= i < b.skip(1).len() implies output_encodable(
            #[trigger] b.skip(1)[i],
        ) by {
            assert(b.skip(1)[i] == b[i + 1]);
        }
        lemma_split_outputs(a.skip(1), ra, b.skip(1), rb);
        assert(a =~= seq![a[0]] + a.skip(1));
        assert(b =~= seq![b[0]] + b.skip(1));
    }
}

/// The encoding is injective: two transactions whose fixed fields have 32
/// bytes, whose other lengths fit their counts and whose encodings are the
/// same bytes are the same transaction.
pub proof fn lemma_encoding_injective(a: TransactionView, b: TransactionView)
    requires
        encodable(a),
        encodable(b),
        tx_bytes(a) == tx_bytes(b),
    ensures
        a == b,
{
    let a3 = outputs_bytes(a.outputs) + Seq::<u8>::empty();
    let b3 = outputs_bytes(b.outputs) + Seq::<u8>::empty();
    let a2 = count_le(a.outputs.len()) + a3;
    let b2 = count_le(b.outputs.len()) + b3;
    let a1 = inputs_bytes(a.inputs) + a2;
    let b1 = inputs_bytes(b.inputs) + b2;
    assert(tx_bytes(a) =~= count_le(a.inputs.len()) + a1);
    assert(tx_bytes(b) =~= count_le(b.inputs.len()) + b1);
    lemma_split_count(a.inputs.len(), a1, b.inputs.len(), b1);
    lemma_split_inputs(a.inputs, a2, b.inputs, b2);
    lemma_split_count(a.outputs.len(), a3, b.outputs.len(), b3);
    lemma_split_outputs(a.outputs, Seq::empty(), b.outputs, Seq::empty());
}

} // verus!
