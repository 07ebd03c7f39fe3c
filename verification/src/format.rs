//! The wire format of a block-change stream, as mathematics.
//!
//! A stream is a concatenation of records. Each record is
//!
//! | field          | size   | encoding                                   |
//! |----------------|--------|--------------------------------------------|
//! | magic          | 4      | the bytes `42 4C 4B 00`                    |
//! | block height   | 4      | unsigned, little-endian                    |
//! | section length | 4      | unsigned, little-endian                    |
//! | first amount   | 8      | signed, little-endian                      |
//! | first height   | 4      | unsigned, little-endian                    |
//! | amount delta   | varint | unsigned LEB128                            |
//! | height delta   | varint | unsigned LEB128, then zigzag to signed     |
//!
//! with the last two fields repeated while fewer bytes than the section
//! length have been read, counted from the first amount.
//!
//! Everything here is a `spec` function over `Seq<u8>`: this module says what
//! a byte sequence means, and the executable decoder is proved against it.
use vstd::arithmetic::power2::pow2;
use vstd::prelude::*;

verus! {

/// The magic value that opens every record: the bytes `42 4C 4B 00` read as a
/// little-endian `u32`.
pub const MAGIC: u32 = 0x004b_4c42;

/// Bytes of a record between the magic value and the first delta pair.
pub const HEADER_LEN: usize = 20;

/// Bytes of the change section that the first, absolute change takes up.
pub const FIRST_CHANGE_LEN: usize = 12;

/// One notification that the decoder delivers to its sink.
#[derive(Clone, Copy, Debug, PartialEq, Eq)]
pub enum Event {
    /// A record with this block height has begun.
    BeginBlock { block_height: u32 },
    /// An output of `amount_satoshi` was created (or, if negative, spent) by
    /// a transaction of block `block_height`. `is_null_delta` is set when
    /// both deltas that encoded this change were zero.
    Change { block_height: u32, amount_satoshi: i64, is_null_delta: bool },
    /// The record with this block height is complete.
    EndBlock { block_height: u32 },
}

/// The integer `i` reduced into the range of `u32`.
pub open spec fn wrap_u32(i: int) -> u32 {
    (i % 0x1_0000_0000) as u32
}

/// The integer `i` reduced into the range of `i32` (two's complement).
pub open spec fn wrap_i32(i: int) -> i32 {
    ((i + 0x8000_0000) % 0x1_0000_0000 - 0x8000_0000) as i32
}

/// The integer `i` reduced into the range of `i64` (two's complement).
pub open spec fn wrap_i64(i: int) -> i64 {
    ((i + 0x8000_0000_0000_0000) % 0x1_0000_0000_0000_0000 - 0x8000_0000_0000_0000) as i64
}

/// The first four bytes of `s` as a little-endian unsigned number.
pub open spec fn le_u32(s: Seq<u8>) -> u32
    recommends
        s.len() >= 4,
{
    (s[0] as int + 0x100 * (s[1] as int) + 0x1_0000 * (s[2] as int) + 0x100_0000 * (
    s[3] as int)) as u32
}

/// The first eight bytes of `s` as a little-endian unsigned number.
pub open spec fn le_u64(s: Seq<u8>) -> u64
    recommends
        s.len() >= 8,
{
    (le_u32(s) as int + 0x1_0000_0000 * (le_u32(s.skip(4)) as int)) as u64
}

/// The first eight bytes of `s` as a little-endian two's-complement number.
pub open spec fn le_i64(s: Seq<u8>) -> i64
    recommends
        s.len() >= 8,
{
    wrap_i64(le_u64(s) as int)
}

/// Length of the varint at the front of `s`: the number of bytes up to and
/// including the first one whose high bit is clear. `None` if every byte of
/// `s` has its high bit set.
pub open spec fn varuint_len(s: Seq<u8>) -> Option<nat>
    decreases s.len(),
{
    if s.len() == 0 {
        None
    } else if s[0] < 0x80 {
        Some(1)
    } else {
        match varuint_len(s.skip(1)) {
            Some(n) => Some(n + 1),
            None => None,
        }
    }
}

/// The low seven bits of the first `n` bytes of `s`, put together with the
/// first byte least significant, as an unbounded number.
pub open spec fn varuint_sum(s: Seq<u8>, n: nat) -> nat
    recommends
        n <= s.len(),
    decreases n,
{
    if n == 0 {
        0
    } else {
        varuint_sum(s, (n - 1) as nat) + (s[n - 1] as nat % 0x80) * pow2((7 * (n - 1)) as nat)
    }
}

/// Value of a varint of `n` bytes at the front of `s`. Groups beyond the
/// 64th bit wrap as unsigned arithmetic does.
pub open spec fn varuint_value(s: Seq<u8>, n: nat) -> u64
    recommends
        n <= s.len(),
{
    (varuint_sum(s, n) % 0x1_0000_0000_0000_0000) as u64
}

/// The signed number that the zigzag code `raw` stands for, cut to 32 bits:
/// even codes `2n` are `n`, odd codes `2n + 1` are `-n - 1`.
pub open spec fn zigzag_i32(raw: u64) -> i32 {
    if raw % 2 == 0 {
        wrap_i32(raw as int / 2)
    } else {
        wrap_i32(-(raw as int / 2) - 1)
    }
}

/// What decoding a byte sequence comes to.
pub struct Decoded {
    /// Whether decoding succeeded.
    pub ok: bool,
    /// How many bytes were taken from the input.
    pub consumed: nat,
    /// The notifications delivered, in order.
    pub events: Seq<Event>,
}

impl Decoded {
    /// Success without input and without events.
    pub open spec fn done() -> Decoded {
        Decoded { ok: true, consumed: 0, events: Seq::empty() }
    }

    /// Failure after `consumed` bytes, without events.
    pub open spec fn failed(consumed: nat) -> Decoded {
        Decoded { ok: false, consumed, events: Seq::empty() }
    }

    /// This outcome reached after `taken` more bytes, which gave `events`,
    /// had been decoded first.
    pub open spec fn after(self, taken: nat, events: Seq<Event>) -> Decoded {
        Decoded { ok: self.ok, consumed: taken + self.consumed, events: events + self.events }
    }
}

/// The running amount after a delta: wraparound 64-bit addition.
pub open spec fn next_amount(amount: i64, amount_delta: u64) -> i64 {
    wrap_i64(amount as int + amount_delta as int)
}

/// The running height after a delta: wraparound 32-bit addition.
pub open spec fn next_height(height: u32, height_delta: i32) -> u32 {
    wrap_u32(height as int + height_delta as int)
}

/// A varint at the front of `s` has at least one byte and lies within `s`.
pub proof fn lemma_varuint_len_bounds(s: Seq<u8>)
    ensures
        varuint_len(s) matches Some(n) ==> 1 <= n <= s.len(),
    decreases s.len(),
{
    if s.len() > 0 && s[0] >= 0x80 {
        lemma_varuint_len_bounds(s.skip(1));
    }
}

/// Decodes the delta pairs of a change section from `s`, where `bytes_read`
/// bytes of a section of `section_length` bytes are accounted for and the
/// previous change was (`height`, `amount`). Stops before a pair once
/// `bytes_read` has reached `section_length`; fails, with all of `s`
/// consumed and no event for the unfinished pair, if `s` ends inside a pair.
pub open spec fn decode_deltas(
    s: Seq<u8>,
    bytes_read: nat,
    section_length: u32,
    amount: i64,
    height: u32,
) -> Decoded
    decreases s.len(),
    via decode_deltas_decreases
{
    if bytes_read >= section_length {
        Decoded::done()
    } else {
        match varuint_len(s) {
            None => Decoded::failed(s.len()),
            Some(n1) => match varuint_len(s.skip(n1 as int)) {
                None => Decoded::failed(s.len()),
                Some(n2) => {
                    let amount_delta = varuint_value(s, n1);
                    let height_delta = zigzag_i32(varuint_value(s.skip(n1 as int), n2));
                    let amount = next_amount(amount, amount_delta);
                    let height = next_height(height, height_delta);
                    let change = Event::Change {
                        block_height: height,
                        amount_satoshi: amount,
                        is_null_delta: amount_delta == 0 && height_delta == 0,
                    };
                    decode_deltas(
                        s.skip((n1 + n2) as int),
                        bytes_read + n1 + n2,
                        section_length,
                        amount,
                        height,
                    ).after(n1 + n2, seq![change])
                },
            },
        }
    }
}

#[via_fn]
proof fn decode_deltas_decreases(
    s: Seq<u8>,
    bytes_read: nat,
    section_length: u32,
    amount: i64,
    height: u32,
) {
    lemma_varuint_len_bounds(s);
    if let Some(n1) = varuint_len(s) {
        lemma_varuint_len_bounds(s.skip(n1 as int));
    }
}

/// Decoding delta pairs never takes more bytes than there are, and takes
/// them all when it fails.
pub proof fn lemma_decode_deltas_consumed(
    s: Seq<u8>,
    bytes_read: nat,
    section_length: u32,
    amount: i64,
    height: u32,
)
    ensures
        decode_deltas(s, bytes_read, section_length, amount, height).consumed <= s.len(),
        !decode_deltas(s, bytes_read, section_length, amount, height).ok ==> decode_deltas(
            s,
            bytes_read,
            section_length,
            amount,
            height,
        ).consumed == s.len(),
    decreases s.len(),
{
    if bytes_read < section_length {
        lemma_varuint_len_bounds(s);
        if let Some(n1) = varuint_len(s) {
            lemma_varuint_len_bounds(s.skip(n1 as int));
            if let Some(n2) = varuint_len(s.skip(n1 as int)) {
                let amount_delta = varuint_value(s, n1);
                let height_delta = zigzag_i32(varuint_value(s.skip(n1 as int), n2));
                lemma_decode_deltas_consumed(
                    s.skip((n1 + n2) as int),
                    bytes_read + n1 + n2,
                    section_length,
                    next_amount(amount, amount_delta),
                    next_height(height, height_delta),
                );
            }
        }
    }
}

/// Decodes one record from `s`, which starts right after the magic value.
///
/// The block is announced as soon as its height is read, so a record that
/// breaks off later still gives that event.
pub open spec fn decode_record(s: Seq<u8>) -> Decoded {
    if s.len() < 4 {
        Decoded::failed(s.len())
    } else {
        let begin = Event::BeginBlock { block_height: le_u32(s) };
        if s.len() < HEADER_LEN {
            Decoded::failed(s.len()).after(0, seq![begin])
        } else {
            let section_length = le_u32(s.skip(4));
            let amount = le_i64(s.skip(8));
            let height = le_u32(s.skip(16));
            let first = Event::Change {
                block_height: height,
                amount_satoshi: amount,
                is_null_delta: false,
            };
            decode_deltas(
                s.skip(HEADER_LEN as int),
                FIRST_CHANGE_LEN as nat,
                section_length,
                amount,
                height,
            ).after(HEADER_LEN as nat, seq![begin, first])
        }
    }
}

/// Decoding a record never takes more bytes than there are, and takes them
/// all when it fails.
pub proof fn lemma_decode_record_consumed(s: Seq<u8>)
    ensures
        decode_record(s).consumed <= s.len(),
        !decode_record(s).ok ==> decode_record(s).consumed == s.len(),
{
    if s.len() >= HEADER_LEN {
        lemma_decode_deltas_consumed(
            s.skip(HEADER_LEN as int),
            FIRST_CHANGE_LEN as nat,
            le_u32(s.skip(4)),
            le_i64(s.skip(8)),
            le_u32(s.skip(16)),
        );
    }
}

/// Decodes a whole stream: records until `s` ends between two of them.
///
/// Succeeds only if `s` is used up exactly where a magic value would start.
/// A magic field that is cut short or holds another value fails, and so
/// does whatever fails inside a record.
#[verifier::opaque]
pub open spec fn decode_stream(s: Seq<u8>) -> Decoded
    decreases s.len(),
    via decode_stream_decreases
{
    if s.len() == 0 {
        Decoded::done()
    } else if s.len() < 4 {
        Decoded::failed(s.len())
    } else if le_u32(s) != MAGIC {
        Decoded::failed(4)
    } else {
        let record = decode_record(s.skip(4));
        if record.ok {
            decode_stream(s.skip(4 + record.consumed as int)).after(
                4 + record.consumed,
                record.events,
            )
        } else {
            record.after(4, Seq::empty())
        }
    }
}

#[via_fn]
proof fn decode_stream_decreases(s: Seq<u8>) {
    if s.len() >= 4 {
        lemma_decode_record_consumed(s.skip(4));
    }
}

/// How a stream decodes, case by case, in terms of its first record.
pub proof fn lemma_decode_stream_unfold(s: Seq<u8>)
    ensures
        s.len() == 0 ==> decode_stream(s) == Decoded::done(),
        0 < s.len() < 4 ==> decode_stream(s) == Decoded::failed(s.len()),
        s.len() >= 4 && le_u32(s) != MAGIC ==> decode_stream(s) == Decoded::failed(4),
        s.len() >= 4 && le_u32(s) == MAGIC && !decode_record(s.skip(4)).ok ==> decode_stream(s)
            == decode_record(s.skip(4)).after(4, Seq::empty()),
        s.len() >= 4 && le_u32(s) == MAGIC && decode_record(s.skip(4)).ok ==> decode_stream(s)
            == decode_stream(s.skip(4 + decode_record(s.skip(4)).consumed as int)).after(
            4 + decode_record(s.skip(4)).consumed,
            decode_record(s.skip(4)).events,
        ),
{
    reveal(decode_stream);
}

/// Two prefixes in a row are one prefix.
pub proof fn lemma_after_after(
    d: Decoded,
    taken: nat,
    events: Seq<Event>,
    taken_before: nat,
    events_before: Seq<Event>,
)
    ensures
        d.after(taken, events).after(taken_before, events_before) == d.after(
            taken_before + taken,
            events_before + events,
        ),
{
    assert(events_before + (events + d.events) =~= (events_before + events) + d.events);
}

/// A prefix of no bytes and no events changes nothing.
pub proof fn lemma_after_nothing(d: Decoded)
    ensures
        d.after(0, Seq::empty()) == d,
{
    assert(Seq::<Event>::empty() + d.events =~= d.events);
}

} // verus!
