//! The encoding side of the format, as mathematics: which bytes stand for a
//! given record. Nothing here is executable; the encoders are the yardstick
//! that the decoder's laws are stated against. The lemmas at the end show,
//! code by code, that the format reads back what the encoders write.
use crate::arith::lemma_group_weight_step;
use crate::format::{
    le_i64, le_u32, le_u64, varuint_len, varuint_sum, varuint_value, wrap_i32, zigzag_i32, Event,
    FIRST_CHANGE_LEN, MAGIC,
};
use vstd::arithmetic::power2::{lemma2_to64, pow2};
use vstd::prelude::*;

verus! {

/// One change of a record as it is meant: an output of `amount` satoshi
/// (negative when spent) that belongs to the block at `height`.
pub struct Change {
    pub height: u32,
    pub amount: i64,
}

/// One record as it is meant: a block and its changes in absolute terms.
pub struct Record {
    /// Height of the block that the record describes.
    pub block_height: u32,
    /// The change that is written in full.
    pub first: Change,
    /// The changes that are written as deltas, each against the one before.
    pub rest: Seq<Change>,
}

/// The four bytes of `v`, least significant first.
pub open spec fn le_bytes_u32(v: u32) -> Seq<u8> {
    seq![
        (v % 0x100) as u8,
        (v / 0x100 % 0x100) as u8,
        (v / 0x1_0000 % 0x100) as u8,
        (v / 0x100_0000) as u8,
    ]
}

/// The eight bytes of `v`, least significant first.
pub open spec fn le_bytes_u64(v: u64) -> Seq<u8> {
    le_bytes_u32((v % 0x1_0000_0000) as u32) + le_bytes_u32((v / 0x1_0000_0000) as u32)
}

/// The eight bytes of `v` in two's complement, least significant first.
pub open spec fn le_bytes_i64(v: i64) -> Seq<u8> {
    if v >= 0 {
        le_bytes_u64(v as u64)
    } else {
        le_bytes_u64((v + 0x1_0000_0000_0000_0000) as u64)
    }
}

/// The shortest LEB128 code of `v`: seven bits per byte, least significant
/// group first, the high bit set on every byte but the last.
pub open spec fn encode_varuint(v: u64) -> Seq<u8>
    decreases v,
{
    if v < 0x80 {
        seq![v as u8]
    } else {
        seq![(v % 0x80 + 0x80) as u8] + encode_varuint(v / 0x80)
    }
}

/// The zigzag code of `v`: `2v` for `v >= 0` and `-2v - 1` for `v < 0`.
pub open spec fn encode_zigzag(v: i32) -> u64 {
    if v >= 0 {
        (2 * v) as u64
    } else {
        (-2 * v - 1) as u64
    }
}

/// Number of binary digits of `v`; 0 has none.
pub open spec fn bit_length(v: u64) -> nat
    decreases v,
{
    if v == 0 {
        0
    } else {
        1 + bit_length(v / 2)
    }
}

/// The amount delta that leads from `prev` to `cur`: their difference as an
/// unsigned 64-bit number.
pub open spec fn amount_delta(prev: i64, cur: i64) -> u64 {
    ((cur - prev) % 0x1_0000_0000_0000_0000) as u64
}

/// The height delta that leads from `prev` to `cur`: their difference as a
/// signed 32-bit number.
pub open spec fn height_delta(prev: u32, cur: u32) -> i32 {
    wrap_i32(cur - prev)
}

/// The two varints that encode the step from `prev` to `cur`.
pub open spec fn encode_delta(prev: Change, cur: Change) -> Seq<u8> {
    encode_varuint(amount_delta(prev.amount, cur.amount)) + encode_varuint(
        encode_zigzag(height_delta(prev.height, cur.height)),
    )
}

/// The delta pairs that encode `rest`, the first of them against `prev`.
pub open spec fn encode_deltas(prev: Change, rest: Seq<Change>) -> Seq<u8>
    decreases rest.len(),
{
    if rest.len() == 0 {
        Seq::empty()
    } else {
        encode_delta(prev, rest[0]) + encode_deltas(rest[0], rest.skip(1))
    }
}

/// Length of the change section of `record`: the first change and all delta
/// pairs.
pub open spec fn section_len(record: Record) -> nat {
    FIRST_CHANGE_LEN as nat + encode_deltas(record.first, record.rest).len()
}

/// Whether `record` can be written: its change section must be short enough
/// for the section length field.
pub open spec fn encodable(record: Record) -> bool {
    section_len(record) <= u32::MAX
}

/// The fixed-width fields of `record` behind its magic value: block height,
/// section length, and the first change in full.
pub open spec fn encode_header(record: Record) -> Seq<u8> {
    le_bytes_u32(record.block_height) + le_bytes_u32(section_len(record) as u32) + le_bytes_i64(
        record.first.amount,
    ) + le_bytes_u32(record.first.height)
}

/// The bytes of `record` behind its magic value.
pub open spec fn encode_record_body(record: Record) -> Seq<u8> {
    encode_header(record) + encode_deltas(record.first, record.rest)
}

/// The bytes of `record`.
pub open spec fn encode_record(record: Record) -> Seq<u8> {
    le_bytes_u32(MAGIC) + encode_record_body(record)
}

/// The bytes of a stream of `records`.
pub open spec fn encode_stream(records: Seq<Record>) -> Seq<u8>
    decreases records.len(),
{
    if records.len() == 0 {
        Seq::empty()
    } else {
        encode_record(records[0]) + encode_stream(records.skip(1))
    }
}

/// The event that reports `cur` after `prev`.
pub open spec fn delta_event(prev: Change, cur: Change) -> Event {
    Event::Change {
        block_height: cur.height,
        amount_satoshi: cur.amount,
        is_null_delta: amount_delta(prev.amount, cur.amount) == 0 && height_delta(
            prev.height,
            cur.height,
        ) == 0,
    }
}

/// The events that report `rest`, the first of them after `prev`.
pub open spec fn delta_events(prev: Change, rest: Seq<Change>) -> Seq<Event>
    decreases rest.len(),
{
    if rest.len() == 0 {
        Seq::empty()
    } else {
        seq![delta_event(prev, rest[0])] + delta_events(rest[0], rest.skip(1))
    }
}

/// The events that report `record`: its block, its first change, and each
/// further change.
pub open spec fn record_events(record: Record) -> Seq<Event> {
    seq![
        Event::BeginBlock { block_height: record.block_height },
        Event::Change {
            block_height: record.first.height,
            amount_satoshi: record.first.amount,
            is_null_delta: false,
        },
    ] + delta_events(record.first, record.rest)
}

/// The events that report a stream of `records`.
pub open spec fn stream_events(records: Seq<Record>) -> Seq<Event>
    decreases records.len(),
{
    if records.len() == 0 {
        Seq::empty()
    } else {
        record_events(records[0]) + stream_events(records.skip(1))
    }
}

/// A first byte in front shifts every later group up by seven bits.
pub proof fn lemma_varuint_sum_front(b: u8, t: Seq<u8>, n: nat)
    requires
        n <= t.len(),
    ensures
        varuint_sum(seq![b] + t, n + 1) == b as nat % 0x80 + 0x80 * varuint_sum(t, n),
    decreases n,
{
    let s = seq![b] + t;
    lemma2_to64();
    if n == 0 {
        assert(varuint_sum(s, 1) == varuint_sum(s, 0) + (s[0] as nat % 0x80) * pow2(0));
    } else {
        let k = (n - 1) as nat;
        lemma_varuint_sum_front(b, t, k);
        lemma_group_weight_step(k);
        let g = t[k as int] as nat % 0x80;
        assert(s[n as int] == t[k as int]);
        assert(g * (0x80 * pow2(7 * k)) == 0x80 * (g * pow2(7 * k))) by (nonlinear_arith);
    }
}

/// The code of `v`, whatever follows it, is read back as a varint of that
/// length and sums up to `v`.
pub proof fn lemma_varuint_decode_encode(v: u64, tail: Seq<u8>)
    ensures
        varuint_len(encode_varuint(v) + tail) == Some(encode_varuint(v).len()),
        varuint_sum(encode_varuint(v) + tail, encode_varuint(v).len()) == v,
        varuint_value(encode_varuint(v) + tail, encode_varuint(v).len()) == v,
    decreases v,
{
    let s = encode_varuint(v) + tail;
    lemma2_to64();
    if v < 0x80 {
        assert(s[0] == v as u8);
        assert(varuint_sum(s, 1) == varuint_sum(s, 0) + (s[0] as nat % 0x80) * pow2(0));
    } else {
        let b = (v % 0x80 + 0x80) as u8;
        let t = encode_varuint(v / 0x80) + tail;
        lemma_varuint_decode_encode(v / 0x80, tail);
        assert(s =~= seq![b] + t);
        assert(s.skip(1) =~= t);
        lemma_varuint_sum_front(b, t, encode_varuint(v / 0x80).len());
    }
}

/// A code is at least one byte long, and as long as the digits of its number
/// need: one byte for every seven binary digits.
pub proof fn lemma_encode_varuint_len(v: u64)
    ensures
        encode_varuint(v).len() >= 1,
        encode_varuint(v).len() == (if v == 0 {
            1
        } else {
            (bit_length(v) + 6) / 7
        }),
    decreases v,
{
    reveal_with_fuel(bit_length, 8);
    if v >= 0x80 {
        lemma_encode_varuint_len(v / 0x80);
        assert(v / 2 / 2 / 2 / 2 / 2 / 2 / 2 == v / 0x80);
        assert(bit_length(v) == 7 + bit_length(v / 0x80));
    }
}

/// Every byte of a code but the last has its high bit set.
pub proof fn lemma_encode_varuint_bytes(v: u64)
    ensures
        forall|i: int| 0 <= i < encode_varuint(v).len() - 1 ==> encode_varuint(v)[i] >= 0x80,
        encode_varuint(v).last() < 0x80,
    decreases v,
{
    if v >= 0x80 {
        lemma_encode_varuint_bytes(v / 0x80);
        lemma_encode_varuint_len(v / 0x80);
        let b = (v % 0x80 + 0x80) as u8;
        let t = encode_varuint(v / 0x80);
        assert forall|i: int| 0 <= i < encode_varuint(v).len() - 1 implies encode_varuint(v)[i]
            >= 0x80 by {
            if i > 0 {
                assert(encode_varuint(v)[i] == t[i - 1]);
            }
        }
        assert(encode_varuint(v).last() == t.last());
    }
}

/// Zigzag decoding undoes zigzag encoding.
pub proof fn lemma_zigzag_decode_encode(v: i32)
    ensures
        zigzag_i32(encode_zigzag(v)) == v,
{
}

/// Four bytes written least significant first are read back as written.
pub proof fn lemma_le_u32_decode_encode(v: u32, tail: Seq<u8>)
    ensures
        le_u32(le_bytes_u32(v) + tail) == v,
        le_bytes_u32(v).len() == 4,
{
}

/// Eight bytes written least significant first are read back as written.
pub proof fn lemma_le_u64_decode_encode(v: u64, tail: Seq<u8>)
    ensures
        le_u64(le_bytes_u64(v) + tail) == v,
        le_bytes_u64(v).len() == 8,
{
    let low = (v % 0x1_0000_0000) as u32;
    let high = (v / 0x1_0000_0000) as u32;
    let s = le_bytes_u64(v) + tail;
    lemma_le_u32_decode_encode(low, le_bytes_u32(high) + tail);
    lemma_le_u32_decode_encode(high, tail);
    assert(s =~= le_bytes_u32(low) + (le_bytes_u32(high) + tail));
    assert(s.skip(4) =~= le_bytes_u32(high) + tail);
}

/// Eight bytes written in two's complement are read back as written.
pub proof fn lemma_le_i64_decode_encode(v: i64, tail: Seq<u8>)
    ensures
        le_i64(le_bytes_i64(v) + tail) == v,
        le_bytes_i64(v).len() == 8,
{
    if v >= 0 {
        lemma_le_u64_decode_encode(v as u64, tail);
    } else {
        lemma_le_u64_decode_encode((v + 0x1_0000_0000_0000_0000) as u64, tail);
    }
}

} // verus!
