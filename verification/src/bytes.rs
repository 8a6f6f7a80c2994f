//! Byte-level primitives: fixed-width little-endian integers, length-prefixed
//! byte strings, and the big-endian reading of a byte string as a number.

use vstd::prelude::*;

verus! {

/// The low `width` bytes of `v`, least significant first.
pub open spec fn le_bytes(v: nat, width: nat) -> Seq<u8>
    decreases width,
{
    if width == 0 {
        Seq::empty()
    } else {
        seq![(v % 256) as u8] + le_bytes(v / 256, (width - 1) as nat)
    }
}

/// Encoding of a `u32`: four bytes, little-endian.
pub open spec fn u32_le(v: u32) -> Seq<u8> {
    le_bytes(v as nat, 4)
}

/// Encoding of a `u64`: eight bytes, little-endian.
pub open spec fn u64_le(v: u64) -> Seq<u8> {
    le_bytes(v as nat, 8)
}

/// Encoding of an `i64`: eight bytes, little-endian two's complement.
pub open spec fn i64_le(v: i64) -> Seq<u8> {
    if v < 0 {
        le_bytes((v + 0x1_0000_0000_0000_0000) as nat, 8)
    } else {
        le_bytes(v as nat, 8)
    }
}

/// Encoding of a count: the low four bytes of `n`, little-endian.
pub open spec fn count_le(n: nat) -> Seq<u8> {
    le_bytes(n, 4)
}

/// Encoding of a variable-length byte string: its length as a count, then the
/// bytes themselves.
pub open spec fn len_prefixed(b: Seq<u8>) -> Seq<u8> {
    count_le(b.len()) + b
}

/// The number that a byte string denotes when read big-endian.
pub open spec fn be_value(s: Seq<u8>) -> nat
    decreases s.len(),
{
    if s.len() == 0 {
        0
    } else {
        be_value(s.drop_last()) * 256 + s.last() as nat
    }
}

/// The little-endian encoding at a width has that many bytes.
pub proof fn lemma_le_bytes_len(v: nat, width: nat)
    ensures
        le_bytes(v, width).len() == width,
    decreases width,
{
    if width > 0 {
        lemma_le_bytes_len(v / 256, (width - 1) as nat);
    }
}

fn write_le(v: u64, width: usize, out: &mut Vec<u8>)
    requires
        width <= 8,
    ensures
        final(out)@ == old(out)@ + le_bytes(v as nat, width as nat),
{
    let mut rest: u64 = v;
    let mut i: usize = 0;
    while i < width
        invariant
            i <= width,
            out@ + le_bytes(rest as nat, (width - i) as nat) == old(out)@ + le_bytes(
                v as nat,
                width as nat,
            ),
        decreases width - i,
    {
        let ghost before = out@;
        out.push((rest % 256) as u8);
        proof {
            let tail = le_bytes((rest / 256) as nat, (width - i - 1) as nat);
            assert(le_bytes(rest as nat, (width - i) as nat) == seq![(rest % 256) as u8] + tail);
            assert(out@ + tail == before + (seq![(rest % 256) as u8] + tail));
        }
        rest = rest / 256;
        i = i + 1;
    }
    assert(out@ + le_bytes(rest as nat, 0) == out@);
}

/// Appends `v` as eight little-endian bytes.
pub fn write_u64_le(v: u64, out: &mut Vec<u8>)
    ensures
        final(out)@ == old(out)@ + u64_le(v),
{
    write_le(v, 8, out);
}

/// Appends `v` as eight little-endian bytes, two's complement.
pub fn write_i64_le(v: i64, out: &mut Vec<u8>)
    ensures
        final(out)@ == old(out)@ + i64_le(v),
{
    if v >= 0 {
        write_le(v as u64, 8, out);
    } else {
        let low: u64 = (v + 0x7fff_ffff_ffff_ffff + 1) as u64;
        write_le(low + 0x8000_0000_0000_0000, 8, out);
    }
}

/// Appends `v` as four little-endian bytes.
pub fn write_u32_le(v: u32, out: &mut Vec<u8>)
    ensures
        final(out)@ == old(out)@ + u32_le(v),
{
    write_le(v as u64, 4, out);
}

/// Appends every byte of `bytes`, in order.
pub fn write_raw(bytes: &[u8], out: &mut Vec<u8>)
    ensures
        final(out)@ == old(out)@ + bytes@,
{
    let mut i: usize = 0;
    while i < bytes.len()
        invariant
            i <= bytes.len(),
            out@ == old(out)@ + bytes@.subrange(0, i as int),
        decreases bytes.len() - i,
    {
        out.push(bytes[i]);
        assert(bytes@.subrange(0, i + 1) == bytes@.subrange(0, i as int).push(bytes@[i as int]));
        i = i + 1;
    }
    assert(bytes@.subrange(0, bytes.len() as int) == bytes@);
}

/// Appends the low four bytes of `n`, little-endian.
pub fn write_count(n: usize, out: &mut Vec<u8>)
    ensures
        final(out)@ == old(out)@ + count_le(n as nat),
{
    write_le(n as u64, 4, out);
}

/// Appends a byte string with its length in front.
pub fn write_bytes(bytes: &[u8], out: &mut Vec<u8>)
    ensures
        final(out)@ == old(out)@ + len_prefixed(bytes@),
{
    write_count(bytes.len(), out);
    write_raw(bytes, out);
}

} // verus!

verus! {

/// Whether two byte strings are the same.
pub fn bytes_eq(a: &[u8], b: &[u8]) -> (same: bool)
    ensures
        same == (a@ == b@),
{
    if a.len() != b.len() {
        return false;
    }
    let mut i: usize = 0;
    while i < a.len()
        invariant
            a.len() == b.len(),
            i <= a.len(),
            a@.take(i as int) == b@.take(i as int),
        decreases a.len() - i,
    {
        if a[i] != b[i] {
            return false;
        }
        assert(a@.take(i + 1) == a@.take(i as int).push(a@[i as int]));
        assert(b@.take(i + 1) == b@.take(i as int).push(b@[i as int]));
        i = i + 1;
    }
    assert(a@.take(a.len() as int) == a@);
    assert(b@.take(b.len() as int) == b@);
    true
}

/// A copy of a byte string.
pub fn bytes_to_vec(a: &[u8]) -> (v: Vec<u8>)
    ensures
        v@ == a@,
{
    let mut v: Vec<u8> = Vec::new();
    write_raw(a, &mut v);
    v
}

/// Of two byte strings of one length that first differ at `i`, the one with
/// the smaller byte there denotes the smaller number.
pub proof fn lemma_be_value_first_difference(a: Seq<u8>, b: Seq<u8>, i: int)
    requires
        a.len() == b.len(),
        0 <= i < a.len(),
        a.take(i) == b.take(i),
        a[i] < b[i],
    ensures
        be_value(a) < be_value(b),
    decreases a.len(),
{
    if i == a.len() - 1 {
        assert(a.drop_last() == a.take(i));
        assert(b.drop_last() == b.take(i));
    } else {
        assert(a.drop_last().take(i) == a.take(i));
        assert(b.drop_last().take(i) == b.take(i));
        lemma_be_value_first_difference(a.drop_last(), b.drop_last(), i);
    }
}

} // verus!

verus! {

/// 256 to the power `n`.
pub open spec fn pow256(n: nat) -> nat
    decreases n,
{
    if n == 0 {
        1
    } else {
        256 * pow256((n - 1) as nat)
    }
}

/// The low `width` bytes of `v`, most significant first.
pub open spec fn be_bytes(v: nat, width: nat) -> Seq<u8>
    decreases width,
{
    if width == 0 {
        Seq::empty()
    } else {
        be_bytes(v / 256, (width - 1) as nat).push((v % 256) as u8)
    }
}

/// `n` zero bytes.
pub open spec fn zeros(n: nat) -> Seq<u8> {
    Seq::new(n, |i: int| 0u8)
}

/// A byte string is the big-endian encoding, at its own width, of the number
/// it denotes: no two strings of one length denote the same number.
pub proof fn lemma_be_bytes_of_value(s: Seq<u8>)
    ensures
        be_bytes(be_value(s), s.len()) == s,
    decreases s.len(),
{
    if s.len() > 0 {
        lemma_be_bytes_of_value(s.drop_last());
        let v = be_value(s);
        assert(v / 256 == be_value(s.drop_last()));
        assert(v % 256 == s.last() as nat);
        assert(be_bytes(v, s.len()) == be_bytes(v / 256, (s.len() - 1) as nat).push(
            (v % 256) as u8,
        ));
        assert(s.drop_last().push(s.last()) == s);
    }
}

/// A string of `n` bytes denotes a number below 256 to the `n`.
pub proof fn lemma_be_value_bound(s: Seq<u8>)
    ensures
        be_value(s) < pow256(s.len()),
    decreases s.len(),
{
    if s.len() > 0 {
        lemma_be_value_bound(s.drop_last());
    }
}

/// A string that starts with a nonzero byte denotes a number of full width.
pub proof fn lemma_be_value_lower_bound(s: Seq<u8>)
    requires
        s.len() >= 1,
        s[0] != 0,
    ensures
        be_value(s) >= pow256((s.len() - 1) as nat),
    decreases s.len(),
{
    if s.len() == 1 {
        assert(s.drop_last().len() == 0);
        assert(be_value(s.drop_last()) == 0);
    } else {
        lemma_be_value_lower_bound(s.drop_last());
    }
}

/// Powers of 256 grow with the exponent.
pub proof fn lemma_pow256_monotone(a: nat, b: nat)
    requires
        a <= b,
    ensures
        pow256(a) <= pow256(b),
    decreases b,
{
    if a < b {
        lemma_pow256_monotone(a, (b - 1) as nat);
    }
}

/// Zero bytes in front change nothing about the number denoted.
pub proof fn lemma_be_value_zero_padded(k: nat, s: Seq<u8>)
    ensures
        be_value(zeros(k) + s) == be_value(s),
    decreases s.len(), k,
{
    let padded = zeros(k) + s;
    if s.len() > 0 {
        assert(padded.drop_last() == zeros(k) + s.drop_last());
        lemma_be_value_zero_padded(k, s.drop_last());
    } else if k > 0 {
        assert(padded.drop_last() == zeros((k - 1) as nat) + s);
        lemma_be_value_zero_padded((k - 1) as nat, s);
    }
}

/// Right-aligns at most 32 bytes in a 32-byte field, zero in front.
pub fn right_align_32(bytes: &[u8]) -> (out: [u8; 32])
    requires
        bytes.len() <= 32,
    ensures
        out@ == zeros((32 - bytes.len()) as nat) + bytes@,
{
    let mut out: [u8; 32] = [0u8; 32];
    let start: usize = 32 - bytes.len();
    let mut i: usize = 0;
    while i < bytes.len()
        invariant
            start + bytes.len() == 32,
            i <= bytes.len(),
            forall|k: int| 0 <= k < start + i ==> out@[k] == (zeros(start as nat) + bytes@)[k],
            forall|k: int| start + i <= k < 32 ==> out@[k] == 0,
        decreases bytes.len() - i,
    {
        out[start + i] = bytes[i];
        i = i + 1;
    }
    assert(out@ =~= zeros(start as nat) + bytes@);
    out
}

/// Appends `v` as four big-endian bytes.
pub fn write_u32_be(v: u32, out: &mut Vec<u8>)
    ensures
        final(out)@ == old(out)@ + be_bytes(v as nat, 4),
{
    let b0: u8 = (v / 16_777_216) as u8;
    let b1: u8 = ((v / 65_536) % 256) as u8;
    let b2: u8 = ((v / 256) % 256) as u8;
    let b3: u8 = (v % 256) as u8;
    out.push(b0);
    out.push(b1);
    out.push(b2);
    out.push(b3);
    proof {
        let n = v as nat;
        assert(be_bytes(n / 256 / 256 / 256 / 256, 0) =~= Seq::<u8>::empty());
        assert(be_bytes(n / 256 / 256 / 256, 1) =~= seq![b0]) by {
            assert(n / 256 / 256 / 256 == n / 16_777_216);
            assert((n / 16_777_216) % 256 == n / 16_777_216);
        }
        assert(be_bytes(n / 256 / 256, 2) =~= seq![b0, b1]) by {
            assert(n / 256 / 256 == n / 65_536);
        }
        assert(be_bytes(n / 256, 3) =~= seq![b0, b1, b2]);
        assert(be_bytes(n, 4) =~= seq![b0, b1, b2, b3]);
        assert(out@ =~= old(out)@ + seq![b0, b1, b2, b3]);
    }
}

} // verus!
