//! The streaming decoder: primitive readers on a byte cursor, and the record
//! parser that drives a [`BlockCallback`].
//!
//! The cursor is a `std::slice::Iter<u8>`. In contracts, the bytes that a
//! cursor `it` has not yet given out are `(*it).remaining().unref()`; every
//! reader says what it returns as a function of those bytes, and how many of
//! them are gone afterwards.
use crate::arith::{
    lemma_le_u32_bits, lemma_le_u64_bits, lemma_next_amount, lemma_next_height,
    lemma_u64_as_i64, lemma_varuint_len_none, lemma_varuint_len_some, lemma_varuint_value_high,
    lemma_varuint_value_low, lemma_zigzag_bits,
};
use crate::format::{
    decode_deltas, decode_record, decode_stream, le_i64, le_u32, le_u64, lemma_after_after,
    lemma_after_nothing, lemma_decode_deltas_consumed, lemma_decode_record_consumed,
    lemma_decode_stream_unfold, lemma_varuint_len_bounds, varuint_len, varuint_value,
    zigzag_i32, Decoded, Event, FIRST_CHANGE_LEN, HEADER_LEN, MAGIC,
};
use std::slice::Iter;
use vstd::prelude::*;
use vstd::std_specs::convert::FromSpec;
use vstd::std_specs::iter::IteratorSpec;

verus! {

/// Receives what the parser decodes, one call per event, in stream order.
///
/// A sink that is verified may keep a ghost account of the calls made on it:
/// it then reports `tracks_history()` and every method appends its event to
/// `history()`. [`parse`] states its effect on such a sink exactly. A sink
/// written in plain Rust leaves both spec functions as they are, and nothing
/// is claimed of it.
pub trait BlockCallback {
    /// Whether `history` accounts for every call made on this sink.
    open spec fn tracks_history(&self) -> bool {
        false
    }

    /// The calls made on this sink so far, oldest first.
    open spec fn history(&self) -> Seq<Event> {
        Seq::empty()
    }

    /// A record begins; `block_height` is the height of its block.
    fn begin_block(&mut self, block_height: u32)
        ensures
            final(self).tracks_history() == old(self).tracks_history(),
            old(self).tracks_history() ==> final(self).history() == old(self).history().push(
                Event::BeginBlock { block_height },
            ),
    ;

    /// An output changed within the record that `begin_block` announced.
    /// `block_height` is the height of the output's own block and
    /// `amount_satoshi` its value, positive when it was created and negative
    /// when it was spent. `is_null_delta` tells that both deltas of this
    /// change were zero, so that it repeats the change before it.
    fn change(&mut self, block_height: u32, amount_satoshi: i64, is_null_delta: bool)
        ensures
            final(self).tracks_history() == old(self).tracks_history(),
            old(self).tracks_history() ==> final(self).history() == old(self).history().push(
                Event::Change { block_height, amount_satoshi, is_null_delta },
            ),
    ;

    /// The record of the block at `block_height` is complete.
    fn end_block(&mut self, block_height: u32)
        ensures
            final(self).tracks_history() == old(self).tracks_history(),
            old(self).tracks_history() ==> final(self).history() == old(self).history().push(
                Event::EndBlock { block_height },
            ),
    ;
}

/// Takes the next item from any iterator that keeps to the iterator laws:
/// the head of what remains, or `None` with nothing changed.
fn advance<I: Iterator>(it: &mut I) -> (r: Option<I::Item>)
    requires
        (*old(it)).obeys_prophetic_iter_laws(),
    ensures
        (*old(it)).remaining().len() > 0 ==> r == Some((*old(it)).remaining()[0])
            && (*final(it)).remaining() == (*old(it)).remaining().skip(1),
        (*old(it)).remaining().len() == 0 ==> r is None
            && (*final(it)).remaining() == (*old(it)).remaining(),
{
    it.next()
}

/// Takes the next byte, widened to `T`.
pub fn next<T: From<u8>>(it: &mut Iter<'_, u8>) -> (r: Option<T>)
    ensures
        r is Some <==> (*old(it)).remaining().len() > 0,
        r is Some ==> (*final(it)).remaining() == (*old(it)).remaining().skip(1),
        r is Some && T::obeys_from_spec() ==> r == Some(
            T::from_spec((*old(it)).remaining().unref()[0]),
        ),
        r is None ==> (*final(it)).remaining() == (*old(it)).remaining(),
{
    match advance(it) {
        Some(byte) => Some(T::from(*byte)),
        None => None,
    }
}

/// Reads three more bytes and puts them above `first`, the byte read before
/// them, as a little-endian `u32`.
fn parse_u32_tail(it: &mut Iter<'_, u8>, first: u32) -> (r: Option<u32>)
    requires
        first < 0x100,
    ensures
        (*old(it)).remaining().len() >= 3 ==> r == Some(
            le_u32(seq![first as u8] + (*old(it)).remaining().unref()),
        ) && (*final(it)).remaining() == (*old(it)).remaining().skip(3),
        (*old(it)).remaining().len() < 3 ==> r is None && (*final(it)).remaining().len() == 0,
{
    let b1: u32 = next::<u32>(it)?;
    let b2: u32 = next::<u32>(it)?;
    let b3: u32 = next::<u32>(it)?;
    proof {
        lemma_le_u32_bits(first, b1, b2, b3);
    }
    Some(first | b1 << 8 | b2 << 16 | b3 << 24)
}

/// Reads four bytes as a little-endian `u32`. With fewer than four bytes
/// left it fails and leaves the cursor exhausted.
pub fn parse_u32(it: &mut Iter<'_, u8>) -> (r: Option<u32>)
    ensures
        (*old(it)).remaining().len() >= 4 ==> r == Some(le_u32((*old(it)).remaining().unref()))
            && (*final(it)).remaining() == (*old(it)).remaining().skip(4),
        (*old(it)).remaining().len() < 4 ==> r is None && (*final(it)).remaining().len() == 0,
{
    let ghost bytes = (*it).remaining().unref();
    let first: u32 = next::<u32>(it)?;
    assert(seq![first as u8] + (*it).remaining().unref() =~= bytes);
    parse_u32_tail(it, first)
}

/// Reads eight bytes as a little-endian `u64`. With fewer than eight bytes
/// left it fails and leaves the cursor exhausted.
pub fn parse_u64(it: &mut Iter<'_, u8>) -> (r: Option<u64>)
    ensures
        (*old(it)).remaining().len() >= 8 ==> r == Some(le_u64((*old(it)).remaining().unref()))
            && (*final(it)).remaining() == (*old(it)).remaining().skip(8),
        (*old(it)).remaining().len() < 8 ==> r is None && (*final(it)).remaining().len() == 0,
{
    let ghost bytes = (*it).remaining().unref();
    let b0: u64 = next::<u64>(it)?;
    let b1: u64 = next::<u64>(it)?;
    let b2: u64 = next::<u64>(it)?;
    let b3: u64 = next::<u64>(it)?;
    let b4: u64 = next::<u64>(it)?;
    let b5: u64 = next::<u64>(it)?;
    let b6: u64 = next::<u64>(it)?;
    let b7: u64 = next::<u64>(it)?;
    proof {
        lemma_le_u64_bits(b0, b1, b2, b3, b4, b5, b6, b7);
        assert(bytes.skip(4)[0] == bytes[4]);
        assert(bytes.skip(4)[1] == bytes[5]);
        assert(bytes.skip(4)[2] == bytes[6]);
        assert(bytes.skip(4)[3] == bytes[7]);
    }
    Some(b0 | b1 << 8 | b2 << 16 | b3 << 24 | b4 << 32 | b5 << 40 | b6 << 48 | b7 << 56)
}

/// Reads eight bytes as a little-endian two's-complement `i64`. With fewer
/// than eight bytes left it fails and leaves the cursor exhausted.
pub fn parse_i64(it: &mut Iter<'_, u8>) -> (r: Option<i64>)
    ensures
        (*old(it)).remaining().len() >= 8 ==> r == Some(le_i64((*old(it)).remaining().unref()))
            && (*final(it)).remaining() == (*old(it)).remaining().skip(8),
        (*old(it)).remaining().len() < 8 ==> r is None && (*final(it)).remaining().len() == 0,
{
    let v: u64 = parse_u64(it)?;
    proof {
        lemma_u64_as_i64(v);
    }
    Some(v as i64)
}

/// Reads an unsigned LEB128 number: seven bits per byte, least significant
/// group first, up to the first byte whose high bit is clear. Returns the
/// number of bytes read and the value; groups beyond the 64th bit are lost
/// as in unsigned overflow. If the bytes run out first it fails and leaves
/// the cursor exhausted.
pub fn parse_var_u64(it: &mut Iter<'_, u8>) -> (r: Option<(usize, u64)>)
    requires
        (*old(it)).remaining().len() <= usize::MAX,
    ensures
        match varuint_len((*old(it)).remaining().unref()) {
            Some(n) => r == Some((n as usize, varuint_value((*old(it)).remaining().unref(), n)))
                && (*final(it)).remaining() == (*old(it)).remaining().skip(n as int),
            None => r is None && (*final(it)).remaining().len() == 0,
        },
{
    let ghost bytes = (*it).remaining().unref();
    let mut val: u64 = 0;
    let mut num_bytes: usize = 0;
    loop
        invariant
            bytes == (*old(it)).remaining().unref(),
            num_bytes <= bytes.len() <= usize::MAX,
            (*it).remaining() == (*old(it)).remaining().skip(num_bytes as int),
            forall|i: int| 0 <= i < num_bytes ==> bytes[i] >= 0x80,
            val == varuint_value(bytes, num_bytes as nat),
        decreases usize::MAX - num_bytes,
    {
        let ghost unread = (*it).remaining();
        let byte: u8 = match advance(it) {
            Some(byte) => *byte,
            None => {
                proof {
                    lemma_varuint_len_none(bytes);
                }
                return None;
            },
        };
        assert(byte == bytes[num_bytes as int]) by {
            assert(unread[0] == (*old(it)).remaining()[num_bytes as int]);
        }
        if num_bytes < 10 {
            let shift: u64 = 7 * (num_bytes as u64);
            proof {
                lemma_varuint_value_low(bytes, num_bytes as nat, val, byte);
            }
            val |= ((byte & 0x7f) as u64) << shift;
        } else {
            proof {
                lemma_varuint_value_high(bytes, num_bytes as nat);
            }
        }
        num_bytes += 1;
        if byte <= 0x7f {
            proof {
                lemma_varuint_len_some(bytes, (num_bytes - 1) as nat);
            }
            return Some((num_bytes, val));
        }
    }
}

/// Reads an unsigned LEB128 number and undoes the zigzag mapping on it: the
/// signed number is `(raw >> 1) ^ (0 - (raw & 1))`, cut to 32 bits. Returns
/// the number of bytes read and the signed number, and fails as
/// [`parse_var_u64`] does.
pub fn parse_var_i32(it: &mut Iter<'_, u8>) -> (r: Option<(usize, i32)>)
    requires
        (*old(it)).remaining().len() <= usize::MAX,
    ensures
        match varuint_len((*old(it)).remaining().unref()) {
            Some(n) => r == Some(
                (n as usize, zigzag_i32(varuint_value((*old(it)).remaining().unref(), n))),
            ) && (*final(it)).remaining() == (*old(it)).remaining().skip(n as int),
            None => r is None && (*final(it)).remaining().len() == 0,
        },
{
    let (bytes, val) = parse_var_u64(it)?;
    let mask: u64 = 0_u64.wrapping_sub(val & 1);
    proof {
        assert(val & 1 == 0 || val & 1 == 1) by (bit_vector);
        lemma_zigzag_bits(val, mask);
    }
    let val: u64 = (val >> 1) ^ mask;
    Some((bytes, val as i32))
}

/// Reads the delta pairs that follow the first change of a record, whose
/// section is `section_length` bytes long, and reports each to `callback`.
fn parse_deltas<C: BlockCallback + ?Sized>(
    it: &mut Iter<'_, u8>,
    callback: &mut C,
    section_length: u32,
    first_amount: i64,
    first_height: u32,
) -> (r: Option<()>)
    requires
        (*old(it)).remaining().len() <= usize::MAX - FIRST_CHANGE_LEN,
    ensures
        r is Some <==> decode_deltas(
            (*old(it)).remaining().unref(),
            FIRST_CHANGE_LEN as nat,
            section_length,
            first_amount,
            first_height,
        ).ok,
        (*final(it)).remaining() == (*old(it)).remaining().skip(
            decode_deltas(
                (*old(it)).remaining().unref(),
                FIRST_CHANGE_LEN as nat,
                section_length,
                first_amount,
                first_height,
            ).consumed as int,
        ),
        final(callback).tracks_history() == old(callback).tracks_history(),
        old(callback).tracks_history() ==> final(callback).history() == old(callback).history()
            + decode_deltas(
            (*old(it)).remaining().unref(),
            FIRST_CHANGE_LEN as nat,
            section_length,
            first_amount,
            first_height,
        ).events,
{
    let ghost bytes = (*it).remaining().unref();
    let ghost whole = decode_deltas(
        bytes,
        FIRST_CHANGE_LEN as nat,
        section_length,
        first_amount,
        first_height,
    );
    let ghost mut taken: nat = 0;
    let ghost mut events: Seq<Event> = Seq::empty();
    let mut amount: i64 = first_amount;
    let mut height: u32 = first_height;
    let mut bytes_read: usize = FIRST_CHANGE_LEN;
    assert(bytes.skip(0) =~= bytes);
    assert((*it).remaining().skip(0) =~= (*it).remaining());
    assert(whole.after(0, Seq::empty()).events =~= whole.events);
    while bytes_read < section_length as usize
        invariant
            bytes == (*old(it)).remaining().unref(),
            whole == decode_deltas(
                bytes,
                FIRST_CHANGE_LEN as nat,
                section_length,
                first_amount,
                first_height,
            ),
            taken <= bytes.len() <= usize::MAX - FIRST_CHANGE_LEN,
            bytes_read == FIRST_CHANGE_LEN + taken,
            (*it).remaining() == (*old(it)).remaining().skip(taken as int),
            whole == decode_deltas(
                bytes.skip(taken as int),
                bytes_read as nat,
                section_length,
                amount,
                height,
            ).after(taken, events),
            callback.tracks_history() == old(callback).tracks_history(),
            old(callback).tracks_history() ==> callback.history() == old(callback).history()
                + events,
        decreases usize::MAX - bytes_read,
    {
        let ghost rest = bytes.skip(taken as int);
        assert((*it).remaining().unref() =~= rest);
        proof {
            lemma_varuint_len_bounds(rest);
        }
        let (n1, amount_delta) = match parse_var_u64(it) {
            Some(pair) => pair,
            None => {
                assert((*it).remaining() =~= (*old(it)).remaining().skip(bytes.len() as int));
                assert(whole.events =~= events);
                return None;
            },
        };
        let ghost rest1 = rest.skip(n1 as int);
        assert((*it).remaining().unref() =~= rest1);
        proof {
            lemma_varuint_len_bounds(rest1);
        }
        let (n2, height_delta) = match parse_var_i32(it) {
            Some(pair) => pair,
            None => {
                assert((*it).remaining() =~= (*old(it)).remaining().skip(bytes.len() as int));
                assert(whole.events =~= events);
                return None;
            },
        };
        proof {
            lemma_next_amount(amount, amount_delta);
            lemma_next_height(height, height_delta);
        }
        amount = amount.wrapping_add(amount_delta as i64);
        height = height.wrapping_add(height_delta as u32);
        let is_null_delta = amount_delta == 0 && height_delta == 0;
        callback.change(height, amount, is_null_delta);
        bytes_read = bytes_read + n1 + n2;
        proof {
            let change = Event::Change {
                block_height: height,
                amount_satoshi: amount,
                is_null_delta,
            };
            let step = (n1 + n2) as nat;
            let tail = decode_deltas(
                rest.skip(step as int),
                bytes_read as nat,
                section_length,
                amount,
                height,
            );
            assert(rest.skip(step as int) =~= bytes.skip((taken + step) as int));
            assert((*it).remaining() =~= (*old(it)).remaining().skip((taken + step) as int));
            assert(tail.after(step, seq![change]).after(taken, events).events =~= tail.after(
                taken + step,
                events.push(change),
            ).events);
            taken = taken + step;
            events = events.push(change);
        }
    }
    assert(whole.events =~= events);
    Some(())
}

/// Reads one record, the magic value of which has been read already, and
/// reports it to `callback`: the block as soon as its height is known, then
/// the first change, then one change for each delta pair.
fn parse_record<C: BlockCallback + ?Sized>(it: &mut Iter<'_, u8>, callback: &mut C) -> (r: Option<
    (),
>)
    requires
        (*old(it)).remaining().len() <= usize::MAX,
    ensures
        r is Some <==> decode_record((*old(it)).remaining().unref()).ok,
        (*final(it)).remaining() == (*old(it)).remaining().skip(
            decode_record((*old(it)).remaining().unref()).consumed as int,
        ),
        final(callback).tracks_history() == old(callback).tracks_history(),
        old(callback).tracks_history() ==> final(callback).history() == old(callback).history()
            + decode_record((*old(it)).remaining().unref()).events,
{
    let ghost bytes = (*it).remaining().unref();
    let ghost whole = decode_record(bytes);
    let ghost exhausted = (*it).remaining().skip(bytes.len() as int);
    let block_height: u32 = match parse_u32(it) {
        Some(block_height) => block_height,
        None => {
            assert((*it).remaining() =~= exhausted);
            assert(whole.events =~= Seq::empty());
            assert((*callback).history() + whole.events =~= (*callback).history());
            return None;
        },
    };
    callback.begin_block(block_height);
    let ghost begin = Event::BeginBlock { block_height };
    proof {
        if bytes.len() < HEADER_LEN {
            assert(whole.events =~= seq![begin]);
        }
        assert((*old(callback)).history() + seq![begin] =~= (*old(callback)).history().push(
            begin,
        ));
        assert((*it).remaining().unref() =~= bytes.skip(4));
    }
    let section_length: u32 = match parse_u32(it) {
        Some(section_length) => section_length,
        None => {
            assert((*it).remaining() =~= exhausted);
            return None;
        },
    };
    assert((*it).remaining().unref() =~= bytes.skip(8));
    let amount: i64 = match parse_i64(it) {
        Some(amount) => amount,
        None => {
            assert((*it).remaining() =~= exhausted);
            return None;
        },
    };
    assert((*it).remaining().unref() =~= bytes.skip(16));
    let height: u32 = match parse_u32(it) {
        Some(height) => height,
        None => {
            assert((*it).remaining() =~= exhausted);
            return None;
        },
    };
    callback.change(height, amount, false);
    let ghost first = Event::Change {
        block_height: height,
        amount_satoshi: amount,
        is_null_delta: false,
    };
    let ghost deltas = decode_deltas(
        bytes.skip(HEADER_LEN as int),
        FIRST_CHANGE_LEN as nat,
        section_length,
        amount,
        height,
    );
    proof {
        assert((*it).remaining() =~= (*old(it)).remaining().skip(HEADER_LEN as int));
        assert((*it).remaining().unref() =~= bytes.skip(HEADER_LEN as int));
        assert(((*old(callback)).history() + seq![begin]).push(first) + deltas.events =~= (*old(
            callback
        )).history() + (seq![begin, first] + deltas.events));
    }
    let ghost unread = (*it).remaining();
    let r = parse_deltas(it, callback, section_length, amount, height);
    proof {
        lemma_decode_deltas_consumed(
            bytes.skip(HEADER_LEN as int),
            FIRST_CHANGE_LEN as nat,
            section_length,
            amount,
            height,
        );
        assert(unread.skip(deltas.consumed as int) =~= (*old(it)).remaining().skip(
            whole.consumed as int,
        ));
    }
    r
}

/// Decodes the records that `it` yields, until it is exhausted between two
/// records, and reports each event to `callback` as soon as it is decoded.
///
/// Succeeds when the cursor runs out exactly where a magic value would
/// start, the empty input included; every byte has then been read. Fails,
/// with `None`, on a magic field that holds another value (the cursor then
/// stands right behind it) and wherever the bytes run out inside a record or
/// inside a magic field (the cursor is then exhausted). What was reported
/// before a failure stays reported. `end_block` is never called.
///
/// The cursor must not hold more bytes than `usize::MAX`, which is so for
/// every cursor over a slice.
pub fn parse<C: BlockCallback + ?Sized>(it: &mut Iter<'_, u8>, callback: &mut C) -> (r: Option<()>)
    requires
        (*old(it)).remaining().len() <= usize::MAX,
    ensures
        r is Some <==> decode_stream((*old(it)).remaining().unref()).ok,
        (*final(it)).remaining() == (*old(it)).remaining().skip(
            decode_stream((*old(it)).remaining().unref()).consumed as int,
        ),
        final(callback).tracks_history() == old(callback).tracks_history(),
        old(callback).tracks_history() ==> final(callback).history() == old(callback).history()
            + decode_stream((*old(it)).remaining().unref()).events,
{
    let ghost bytes = (*it).remaining().unref();
    let ghost whole = decode_stream(bytes);
    // So far none of the bytes is taken and none of the events is decoded;
    // both grow with every record that is read.
    let ghost mut taken = bytes.take(0).len();
    let ghost mut events = whole.events.take(0);
    let ghost mut records: nat = 0;
    proof {
        assert(bytes.skip(0) =~= bytes);
        assert((*it).remaining().skip(0) =~= (*it).remaining());
        assert(events =~= Seq::empty());
        lemma_after_nothing(whole);
    }
    loop
        invariant
            bytes == (*old(it)).remaining().unref(),
            whole == decode_stream(bytes),
            records <= taken <= bytes.len() <= usize::MAX,
            (*it).remaining() == (*old(it)).remaining().skip(taken as int),
            whole == decode_stream(bytes.skip(taken as int)).after(taken, events),
            callback.tracks_history() == old(callback).tracks_history(),
            old(callback).tracks_history() ==> callback.history() == old(callback).history()
                + events,
        decreases usize::MAX - records,
    {
        let ghost rest = bytes.skip(taken as int);
        let ghost history = (*callback).history();
        proof {
            assert((*it).remaining().unref() =~= rest);
            lemma_decode_stream_unfold(rest);
            lemma_after_nothing(decode_stream(rest));
            lemma_after_after(Decoded::failed(4), 0, Seq::empty(), taken, events);
            lemma_after_after(Decoded::failed(rest.len()), 0, Seq::empty(), taken, events);
            lemma_after_after(Decoded::done(), 0, Seq::empty(), taken, events);
            assert(events + Seq::<Event>::empty() =~= events);
        }
        let first: u32 = match next::<u32>(it) {
            Some(first) => first,
            None => {
                return Some(());
            },
        };
        proof {
            assert((*it).remaining().unref() =~= rest.skip(1));
            assert(seq![first as u8] + rest.skip(1) =~= rest);
        }
        let magic: u32 = match parse_u32_tail(it, first) {
            Some(magic) => magic,
            None => {
                assert((*it).remaining() =~= (*old(it)).remaining().skip(bytes.len() as int));
                return None;
            },
        };
        assert((*it).remaining() =~= (*old(it)).remaining().skip(taken + 4 as int));
        if magic != MAGIC {
            return None;
        }
        let ghost record = decode_record(rest.skip(4));
        let ghost step = 4 + record.consumed;
        proof {
            assert((*it).remaining().unref() =~= rest.skip(4));
            lemma_decode_record_consumed(rest.skip(4));
            lemma_after_after(record, 4, Seq::empty(), taken, events);
            lemma_after_after(
                decode_stream(rest.skip(step as int)),
                step,
                record.events,
                taken,
                events,
            );
            assert(Seq::<Event>::empty() + record.events =~= record.events);
            assert((*old(callback)).tracks_history() ==> history + record.events =~= (*old(
                callback
            )).history() + (events + record.events));
        }
        if parse_record(it, callback).is_none() {
            assert((*it).remaining() =~= (*old(it)).remaining().skip(bytes.len() as int));
            return None;
        }
        proof {
            assert(rest.skip(step as int) =~= bytes.skip((taken + step) as int));
            assert((*it).remaining() =~= (*old(it)).remaining().skip(
                (taken + step) as int,
            ));
            taken = taken + step;
            events = events + record.events;
            records = records + 1;
        }
    }
}

} // verus!
