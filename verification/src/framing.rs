//! Frames on a byte stream: every message travels behind its length, so
//! that a reader can tell where one ends and the next begins.

use crate::bytes::{
    bytes_to_vec, count_le, le_bytes, u64_le, write_count, write_raw, write_u64_le,
};
use crate::merkle::byte_views;
use vstd::prelude::*;

verus! {

/// The largest payload that a peer may send in one frame.
pub const MAX_MESSAGE_SIZE: usize = 1_048_576;

/// The number that bytes denote when read little-endian.
pub open spec fn le_value(s: Seq<u8>) -> nat
    decreases s.len(),
{
    if s.len() == 0 {
        0
    } else {
        s.first() as nat + 256 * le_value(s.drop_first())
    }
}

/// A payload behind its length.
pub open spec fn spec_frame(payload: Seq<u8>) -> Seq<u8> {
    count_le(payload.len()) + payload
}

/// What the front of a buffer holds.
pub enum Frame {
    /// Too few bytes for a whole frame yet.
    Incomplete,
    /// A frame whose announced payload is above the limit.
    TooLarge,
    /// A whole frame: its payload, and the number of bytes it took.
    Complete { payload: Vec<u8>, consumed: usize },
}

/// What reading the front of `buf` as a frame gives.
pub open spec fn spec_next_frame(buf: Seq<u8>) -> (int, Seq<u8>) {
    if buf.len() < 4 {
        (0, Seq::empty())
    } else {
        let len = le_value(buf.take(4));
        if len > MAX_MESSAGE_SIZE {
            (1, Seq::empty())
        } else if buf.len() < 4 + len {
            (0, Seq::empty())
        } else {
            (2, buf.subrange(4, 4 + len as int))
        }
    }
}

/// Reading back what was written little-endian gives the number, where it
/// fits the width.
pub proof fn lemma_le_round_trip(v: nat, width: nat)
    requires
        v < crate::bytes::pow256(width),
    ensures
        le_value(le_bytes(v, width)) == v,
    decreases width,
{
    if width > 0 {
        let s = le_bytes(v, width);
        assert(s.first() == (v % 256) as u8);
        assert(s.drop_first() =~= le_bytes(v / 256, (width - 1) as nat));
        lemma_le_round_trip(v / 256, (width - 1) as nat);
    }
}

/// Reads four bytes as a little-endian number.
pub fn read_u32_le(bytes: &[u8]) -> (v: u32)
    requires
        bytes.len() == 4,
    ensures
        v == le_value(bytes@),
{
    proof {
        let s = bytes@;
        let s1 = s.drop_first();
        let s2 = s1.drop_first();
        let s3 = s2.drop_first();
        assert(s3.drop_first().len() == 0);
        assert(le_value(s3.drop_first()) == 0);
        assert(le_value(s3) == s[3] as nat);
        assert(le_value(s2) == s[2] as nat + 256 * le_value(s3));
        assert(le_value(s1) == s[1] as nat + 256 * le_value(s2));
        assert(le_value(s) == s[0] as nat + 256 * le_value(s1));
    }
    let wide: u64 = bytes[0] as u64 + 256 * (bytes[1] as u64) + 65_536 * (bytes[2] as u64)
        + 16_777_216 * (bytes[3] as u64);
    wide as u32
}

/// Puts a payload behind its length. `None` where the payload is above the
/// limit for one frame.
pub fn frame_message(payload: &[u8]) -> (framed: Option<Vec<u8>>)
    ensures
        match framed {
            Some(bytes) => payload.len() <= MAX_MESSAGE_SIZE && bytes@ == spec_frame(payload@),
            None => payload.len() > MAX_MESSAGE_SIZE,
        },
{
    if payload.len() > MAX_MESSAGE_SIZE {
        return None;
    }
    let mut out: Vec<u8> = Vec::new();
    write_count(payload.len(), &mut out);
    write_raw(payload, &mut out);
    Some(out)
}

/// Reads the frame at the front of `buf`, if a whole one is there.
pub fn next_frame(buf: &[u8]) -> (frame: Frame)
    ensures
        match frame {
            Frame::Incomplete => spec_next_frame(buf@).0 == 0,
            Frame::TooLarge => spec_next_frame(buf@).0 == 1,
            Frame::Complete { payload, consumed } => {
                &&& spec_next_frame(buf@) == (2int, payload@)
                &&& consumed == 4 + payload@.len()
                &&& consumed <= buf.len()
            },
        },
{
    if buf.len() < 4 {
        return Frame::Incomplete;
    }
    let head = bytes_to_vec(slice_of(buf, 0, 4));
    assert(head@ == buf@.take(4));
    let len = read_u32_le(head.as_slice()) as usize;
    if len > MAX_MESSAGE_SIZE {
        return Frame::TooLarge;
    }
    if buf.len() - 4 < len {
        return Frame::Incomplete;
    }
    let payload = bytes_to_vec(slice_of(buf, 4, 4 + len));
    Frame::Complete { payload, consumed: 4 + len }
}

/// The part of `buf` from `from` up to `to`.
pub fn slice_of(buf: &[u8], from: usize, to: usize) -> (part: &[u8])
    requires
        from <= to <= buf.len(),
    ensures
        part@ == buf@.subrange(from as int, to as int),
{
    vstd::slice::slice_subrange(buf, from, to)
}

/// A frame that was written is read back whole, whatever follows it.
pub proof fn lemma_frame_round_trip(payload: Seq<u8>, rest: Seq<u8>)
    requires
        payload.len() <= MAX_MESSAGE_SIZE,
    ensures
        spec_next_frame(spec_frame(payload) + rest) == (2int, payload),
{
    let buf = spec_frame(payload) + rest;
    crate::bytes::lemma_le_bytes_len(payload.len(), 4);
    assert(buf.take(4) =~= count_le(payload.len()));
    assert(crate::bytes::pow256(4) == 4_294_967_296) by {
        assert(crate::bytes::pow256(0) == 1);
        assert(crate::bytes::pow256(1) == 256);
        assert(crate::bytes::pow256(2) == 65_536);
        assert(crate::bytes::pow256(3) == 16_777_216);
    }
    lemma_le_round_trip(payload.len(), 4);
    assert(buf.subrange(4, 4 + payload.len() as int) =~= payload);
}

/// A record of the store-and-forward file: the time it was written, then
/// the message behind its length.
pub open spec fn spec_offline_record(timestamp: u64, data: Seq<u8>) -> Seq<u8> {
    u64_le(timestamp) + count_le(data.len()) + data
}

/// The messages of a store-and-forward file, in order. Reading ends at the
/// first record that the file does not hold whole.
pub open spec fn spec_offline_records(buf: Seq<u8>) -> Seq<Seq<u8>>
    decreases buf.len(),
{
    if buf.len() < 12 {
        Seq::empty()
    } else {
        let len = le_value(buf.subrange(8, 12));
        if 12 + len > buf.len() {
            Seq::empty()
        } else {
            seq![buf.subrange(12, 12 + len as int)] + spec_offline_records(
                buf.skip(12 + len as int),
            )
        }
    }
}

/// Encodes one record of the store-and-forward file.
pub fn offline_record(timestamp: u64, data: &[u8]) -> (record: Vec<u8>)
    ensures
        record@ == spec_offline_record(timestamp, data@),
{
    let mut record: Vec<u8> = Vec::new();
    write_u64_le(timestamp, &mut record);
    write_count(data.len(), &mut record);
    write_raw(data, &mut record);
    record
}

/// Reads the messages of a store-and-forward file.
pub fn parse_offline_records(buf: &[u8]) -> (messages: Vec<Vec<u8>>)
    ensures
        byte_views(messages@) == spec_offline_records(buf@),
{
    let mut messages: Vec<Vec<u8>> = Vec::new();
    let mut i: usize = 0;
    assert(buf@.skip(0) =~= buf@);
    assert(byte_views(messages@) =~= Seq::<Seq<u8>>::empty());
    while buf.len() - i >= 12
        invariant
            i <= buf.len(),
            byte_views(messages@) + spec_offline_records(buf@.skip(i as int))
                == spec_offline_records(buf@),
        decreases buf.len() - i,
    {
        let ghost rest = buf@.skip(i as int);
        let head = bytes_to_vec(slice_of(buf, i + 8, i + 12));
        assert(head@ =~= rest.subrange(8, 12));
        let len = read_u32_le(head.as_slice()) as usize;
        if buf.len() - i - 12 < len {
            assert(spec_offline_records(rest) =~= Seq::<Seq<u8>>::empty());
            assert(byte_views(messages@) + Seq::<Seq<u8>>::empty() =~= byte_views(messages@));
            return messages;
        }
        let data = bytes_to_vec(slice_of(buf, i + 12, i + 12 + len));
        let ghost before = byte_views(messages@);
        proof {
            assert(data@ =~= rest.subrange(12, 12 + len as int));
            assert(rest.skip(12 + len as int) =~= buf@.skip(i + 12 + len));
        }
        messages.push(data);
        proof {
            assert(byte_views(messages@) =~= before.push(data@));
            assert(before.push(data@) + spec_offline_records(buf@.skip(i + 12 + len)) =~= before
                + spec_offline_records(rest));
        }
        i = i + 12 + len;
    }
    proof {
        assert(spec_offline_records(buf@.skip(i as int)) =~= Seq::<Seq<u8>>::empty());
        assert(byte_views(messages@) + Seq::<Seq<u8>>::empty() =~= byte_views(messages@));
    }
    messages
}

} // verus!
