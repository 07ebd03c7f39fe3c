//! What holds of the decoder for every input.
//!
//! [`parse`](crate::parser::parse) delivers what
//! [`decode_stream`](crate::format::decode_stream) says, and the primitive
//! readers what the functions of [`format`](crate::format) say; the laws
//! below are stated over those functions and over the encoders of
//! [`encoding`](crate::encoding).
use crate::encoding::{
    amount_delta, bit_length, delta_event, delta_events, encodable, encode_record,
    encode_record_body, encode_stream, encode_varuint, encode_zigzag, height_delta, le_bytes_u32,
    lemma_encode_varuint_len, lemma_le_u32_decode_encode, lemma_varuint_decode_encode,
    lemma_zigzag_decode_encode, record_events, stream_events, Change, Record,
};
use crate::format::{
    decode_deltas, decode_record, decode_stream, le_i64, le_u32, lemma_decode_record_consumed,
    lemma_decode_stream_unfold, next_amount, next_height, varuint_len, varuint_value,
    zigzag_i32, Decoded, Event, FIRST_CHANGE_LEN, HEADER_LEN, MAGIC,
};
use crate::framing::{
    lemma_decode_deltas_changes, lemma_decode_record, lemma_decode_record_cut,
    lemma_decode_stream, lemma_decode_stream_bad_magic, lemma_magic_bytes_unique,
    lemma_success_reads_all,
};
use vstd::math::max;
use vstd::prelude::*;

verus! {

/// The changes that `events` report, in order, without their flags.
pub open spec fn reported_changes(events: Seq<Event>) -> Seq<Change>
    decreases events.len(),
{
    if events.len() == 0 {
        Seq::empty()
    } else {
        match events.last() {
            Event::Change { block_height, amount_satoshi, .. } => reported_changes(
                events.drop_last(),
            ).push(Change { height: block_height, amount: amount_satoshi }),
            _ => reported_changes(events.drop_last()),
        }
    }
}

/// The change that change `i` of the delta-coded changes of `record` is
/// coded against.
pub open spec fn previous_change(record: Record, i: int) -> Change {
    if i == 0 {
        record.first
    } else {
        record.rest[i - 1]
    }
}

/// A stream that is made of whole records, the empty stream among them,
/// decodes with success to the events that report its records, and is read
/// to its last byte.
pub proof fn law_well_formed_stream_decodes(records: Seq<Record>)
    requires
        forall|i: int| 0 <= i < records.len() ==> encodable(#[trigger] records[i]),
    ensures
        decode_stream(encode_stream(records)) == (Decoded {
            ok: true,
            consumed: encode_stream(records).len(),
            events: stream_events(records),
        }),
{
    let tail = Seq::<u8>::empty();
    lemma_decode_stream(records, tail);
    lemma_decode_stream_unfold(tail);
    assert(encode_stream(records) + tail =~= encode_stream(records));
    assert(stream_events(records) + Seq::<Event>::empty() =~= stream_events(records));
}

/// Whatever bytes decode with success have been read to the last one: a
/// stream can only end between two records.
pub proof fn law_success_reads_every_byte(s: Seq<u8>)
    ensures
        decode_stream(s).consumed <= s.len(),
        decode_stream(s).ok ==> decode_stream(s).consumed == s.len(),
{
    lemma_success_reads_all(s);
}

/// Of the bytes of a record, whether it is whole or breaks off, the block is
/// announced once, before anything else and with the block height that the
/// record holds, as soon as that height can be read; every other event of
/// the record is a change.
pub proof fn law_block_begins_once(s: Seq<u8>)
    ensures
        s.len() < 4 ==> decode_record(s).events.len() == 0,
        s.len() >= 4 ==> decode_record(s).events.len() >= 1 && decode_record(s).events[0]
            == (Event::BeginBlock { block_height: le_u32(s) }),
        forall|i: int| 1 <= i < decode_record(s).events.len() ==> decode_record(s).events[i]
            is Change,
{
    if s.len() >= HEADER_LEN {
        lemma_decode_deltas_changes(
            s.skip(HEADER_LEN as int),
            FIRST_CHANGE_LEN as nat,
            le_u32(s.skip(4)),
            le_i64(s.skip(8)),
            le_u32(s.skip(16)),
        );
    }
}

/// Of the bytes of a record, whether it is whole or breaks off, the first
/// change is reported as soon as its fields can be read, with the amount and
/// the height that they hold, and is never flagged as a null delta.
pub proof fn law_first_change_is_not_null(s: Seq<u8>)
    ensures
        s.len() < HEADER_LEN ==> decode_record(s).events.len() <= 1,
        s.len() >= HEADER_LEN ==> decode_record(s).events.len() >= 2 && decode_record(
            s,
        ).events[1] == (Event::Change {
            block_height: le_u32(s.skip(16)),
            amount_satoshi: le_i64(s.skip(8)),
            is_null_delta: false,
        }),
{
}

/// Wherever a change section goes on with a whole delta pair, the decoder
/// reports one change for the pair, before anything that follows: the
/// running amount and height with the deltas added, wrapping around, and
/// flagged as a null delta if and only if both deltas are zero.
pub proof fn law_null_delta_iff_both_zero(
    s: Seq<u8>,
    bytes_read: nat,
    section_length: u32,
    amount: i64,
    height: u32,
    n1: nat,
    n2: nat,
)
    requires
        bytes_read < section_length,
        varuint_len(s) == Some(n1),
        varuint_len(s.skip(n1 as int)) == Some(n2),
    ensures
        decode_deltas(s, bytes_read, section_length, amount, height).events.len() >= 1,
        decode_deltas(s, bytes_read, section_length, amount, height).events[0] == (Event::Change {
            block_height: next_height(height, zigzag_i32(varuint_value(s.skip(n1 as int), n2))),
            amount_satoshi: next_amount(amount, varuint_value(s, n1)),
            is_null_delta: varuint_value(s, n1) == 0 && zigzag_i32(
                varuint_value(s.skip(n1 as int), n2),
            ) == 0,
        }),
        decode_deltas(s, bytes_read, section_length, amount, height).events.skip(1)
            == decode_deltas(
            s.skip((n1 + n2) as int),
            bytes_read + n1 + n2,
            section_length,
            next_amount(amount, varuint_value(s, n1)),
            next_height(height, zigzag_i32(varuint_value(s.skip(n1 as int), n2))),
        ).events,
{
    let behind = decode_deltas(
        s.skip((n1 + n2) as int),
        bytes_read + n1 + n2,
        section_length,
        next_amount(amount, varuint_value(s, n1)),
        next_height(height, zigzag_i32(varuint_value(s.skip(n1 as int), n2))),
    );
    let whole = decode_deltas(s, bytes_read, section_length, amount, height);
    assert(whole.events.skip(1) =~= behind.events);
}

/// A record decodes, whatever follows it, to one event for its block and one
/// for each of its changes, with the heights and amounts that were encoded.
/// The first change is not flagged; each later one is flagged as a null delta
/// if and only if both deltas that encode it are zero.
pub proof fn law_record_round_trip(record: Record, tail: Seq<u8>)
    requires
        encodable(record),
    ensures
        decode_record(encode_record_body(record) + tail).ok,
        decode_record(encode_record_body(record) + tail).consumed == encode_record_body(
            record,
        ).len(),
        decode_record(encode_record_body(record) + tail).events.len() == 2 + record.rest.len(),
        decode_record(encode_record_body(record) + tail).events[0] == (Event::BeginBlock {
            block_height: record.block_height,
        }),
        decode_record(encode_record_body(record) + tail).events[1] == (Event::Change {
            block_height: record.first.height,
            amount_satoshi: record.first.amount,
            is_null_delta: false,
        }),
        forall|i: int|
            0 <= i < record.rest.len() ==> decode_record(
                encode_record_body(record) + tail,
            ).events[2 + i] == (Event::Change {
                block_height: record.rest[i].height,
                amount_satoshi: record.rest[i].amount,
                is_null_delta: amount_delta(
                    previous_change(record, i).amount,
                    record.rest[i].amount,
                ) == 0 && height_delta(previous_change(record, i).height, record.rest[i].height)
                    == 0,
            }),
        reported_changes(decode_record(encode_record_body(record) + tail).events) == seq![
            record.first,
        ] + record.rest,
{
    lemma_decode_record(record, tail);
    lemma_record_events(record);
}

/// Both deltas between two changes are zero exactly when the second change
/// repeats the first.
pub proof fn law_null_delta_repeats(prev: Change, cur: Change)
    ensures
        (amount_delta(prev.amount, cur.amount) == 0 && height_delta(prev.height, cur.height)
            == 0) <==> prev == cur,
{
}

/// Zigzag decoding undoes zigzag encoding of every 32-bit signed number.
pub proof fn law_zigzag_round_trip(v: i32)
    ensures
        zigzag_i32(encode_zigzag(v)) == v,
{
    lemma_zigzag_decode_encode(v);
}

/// The code of every 64-bit unsigned number, whatever follows it, is read
/// back as that number, and as many bytes are read as the code is long: one
/// for every seven binary digits of the number, rounded up, and at least
/// one.
pub proof fn law_varuint_round_trip(v: u64, tail: Seq<u8>)
    ensures
        varuint_len(encode_varuint(v) + tail) == Some(encode_varuint(v).len()),
        varuint_value(encode_varuint(v) + tail, encode_varuint(v).len()) == v,
        encode_varuint(v).len() == max(1, (bit_length(v) + 6) as int / 7),
{
    lemma_varuint_decode_encode(v, tail);
    lemma_encode_varuint_len(v);
    reveal_with_fuel(bit_length, 2);
}

/// A stream of one record that breaks off anywhere before its last byte,
/// but not before its first, fails to decode. Every byte of it is read, and
/// the events are those of the record's beginning, without the last: nothing
/// is reported of a field that is not there in full.
pub proof fn law_truncated_record_fails(record: Record, k: int)
    requires
        encodable(record),
        0 < k < encode_record(record).len(),
    ensures
        !decode_stream(encode_record(record).take(k)).ok,
        decode_stream(encode_record(record).take(k)).consumed == k,
        decode_stream(encode_record(record).take(k)).events.is_prefix_of(record_events(record)),
        decode_stream(encode_record(record).take(k)).events.len() < record_events(record).len(),
{
    let s = encode_record(record).take(k);
    let body = encode_record_body(record);
    lemma_decode_stream_unfold(s);
    if k >= 4 {
        let cut = body.take(k - 4);
        lemma_le_u32_decode_encode(MAGIC, cut);
        assert(s =~= le_bytes_u32(MAGIC) + cut);
        assert(s.skip(4) =~= cut);
        lemma_decode_record_cut(record, k - 4);
        assert(Seq::<Event>::empty() + decode_record(cut).events =~= decode_record(cut).events);
    } else {
        assert(decode_stream(s).events =~= record_events(record).subrange(0, 0));
    }
}

/// A stream of records that breaks off inside its last record, anywhere
/// behind that record's first byte and before its last, fails to decode.
/// Every byte of it is read; the records before the last are reported in
/// full, and of the last one as much as of that record cut off alone, which
/// is less than the whole.
pub proof fn law_truncated_stream_fails(before: Seq<Record>, record: Record, k: int)
    requires
        forall|i: int| 0 <= i < before.len() ==> encodable(#[trigger] before[i]),
        encodable(record),
        0 < k < encode_record(record).len(),
    ensures
        !decode_stream(
            (encode_stream(before) + encode_record(record)).take(encode_stream(before).len() + k),
        ).ok,
        decode_stream(
            (encode_stream(before) + encode_record(record)).take(encode_stream(before).len() + k),
        ).consumed == encode_stream(before).len() + k,
        decode_stream(
            (encode_stream(before) + encode_record(record)).take(encode_stream(before).len() + k),
        ).events == stream_events(before) + decode_stream(encode_record(record).take(k)).events,
        decode_stream(encode_record(record).take(k)).events.is_prefix_of(record_events(record)),
        decode_stream(encode_record(record).take(k)).events.len() < record_events(record).len(),
{
    let cut = encode_record(record).take(k);
    let s = (encode_stream(before) + encode_record(record)).take(encode_stream(before).len() + k);
    law_truncated_record_fails(record, k);
    lemma_decode_stream(before, cut);
    assert(s =~= encode_stream(before) + cut);
}

/// Whatever the bytes, the decoder reports blocks and changes only, never
/// the end of a block, and reports no change before it has reported a block.
pub proof fn law_changes_follow_a_block(s: Seq<u8>)
    ensures
        forall|i: int|
            0 <= i < decode_stream(s).events.len() ==> !(decode_stream(s).events[i] is EndBlock),
        decode_stream(s).events.len() > 0 ==> decode_stream(s).events[0] is BeginBlock,
    decreases s.len(),
{
    lemma_decode_stream_unfold(s);
    if s.len() >= 4 && le_u32(s) == MAGIC {
        let record = decode_record(s.skip(4));
        law_block_begins_once(s.skip(4));
        lemma_decode_record_consumed(s.skip(4));
        assert(Seq::<Event>::empty() + record.events =~= record.events);
        if record.ok {
            law_changes_follow_a_block(s.skip(4 + record.consumed as int));
        }
    }
}

/// Where one byte of the magic field of a record holds another value, in a
/// stream that is well formed before that record, decoding fails right
/// behind that magic field, and nothing of that record or of what follows it
/// is reported.
pub proof fn law_corrupt_magic_fails(
    before: Seq<Record>,
    record: Record,
    after: Seq<u8>,
    j: int,
    byte: u8,
)
    requires
        forall|i: int| 0 <= i < before.len() ==> encodable(#[trigger] before[i]),
        0 <= j < 4,
        byte != le_bytes_u32(MAGIC)[j],
    ensures
        decode_stream(
            (encode_stream(before) + encode_record(record) + after).update(
                encode_stream(before).len() + j,
                byte,
            ),
        ) == (Decoded {
            ok: false,
            consumed: encode_stream(before).len() + 4,
            events: stream_events(before),
        }),
{
    let good = encode_stream(before) + encode_record(record) + after;
    let bad = good.update(encode_stream(before).len() + j, byte);
    let tail = (encode_record(record) + after).update(j, byte);
    assert(bad =~= encode_stream(before) + tail);
    lemma_magic_bytes_unique(tail, j);
    lemma_decode_stream_bad_magic(before, tail);
}

/// The events that report a record, one by one.
proof fn lemma_record_events(record: Record)
    ensures
        record_events(record).len() == 2 + record.rest.len(),
        forall|i: int|
            0 <= i < record.rest.len() ==> record_events(record)[2 + i] == (Event::Change {
                block_height: record.rest[i].height,
                amount_satoshi: record.rest[i].amount,
                is_null_delta: amount_delta(
                    previous_change(record, i).amount,
                    record.rest[i].amount,
                ) == 0 && height_delta(previous_change(record, i).height, record.rest[i].height)
                    == 0,
            }),
        reported_changes(record_events(record)) == seq![record.first] + record.rest,
{
    lemma_delta_events(record.first, record.rest);
    let head = seq![
        Event::BeginBlock { block_height: record.block_height },
        Event::Change {
            block_height: record.first.height,
            amount_satoshi: record.first.amount,
            is_null_delta: false,
        },
    ];
    let deltas = delta_events(record.first, record.rest);
    assert(head.drop_last() =~= seq![head[0]]);
    assert(seq![head[0]].drop_last() =~= Seq::<Event>::empty());
    reveal_with_fuel(reported_changes, 3);
    assert(reported_changes(head) =~= seq![record.first]);
    lemma_reported_changes_append(head, deltas, record.rest);
}

/// The events that report delta-coded changes, one by one.
proof fn lemma_delta_events(prev: Change, rest: Seq<Change>)
    ensures
        delta_events(prev, rest).len() == rest.len(),
        forall|i: int|
            0 <= i < rest.len() ==> delta_events(prev, rest)[i]
                == delta_event(
                if i == 0 {
                    prev
                } else {
                    rest[i - 1]
                },
                rest[i],
            ),
    decreases rest.len(),
{
    if rest.len() > 0 {
        lemma_delta_events(rest[0], rest.skip(1));
        assert forall|i: int| 0 <= i < rest.len() implies delta_events(
            prev,
            rest,
        )[i] == delta_event(
            if i == 0 {
                prev
            } else {
                rest[i - 1]
            },
            rest[i],
        ) by {
            if i > 0 {
                assert(delta_events(prev, rest)[i]
                    == delta_events(rest[0], rest.skip(1))[i - 1]);
                assert(rest.skip(1)[i - 1] == rest[i]);
            }
        }
    }
}

/// Events that are changes one by one report those changes behind what the
/// events before them report.
proof fn lemma_reported_changes_append(head: Seq<Event>, events: Seq<Event>, changes: Seq<Change>)
    requires
        events.len() == changes.len(),
        forall|i: int|
            0 <= i < events.len() ==> (#[trigger] events[i] matches Event::Change {
                block_height,
                amount_satoshi,
                ..
            } && block_height == changes[i].height && amount_satoshi == changes[i].amount),
    ensures
        reported_changes(head + events) == reported_changes(head) + changes,
    decreases events.len(),
{
    if events.len() == 0 {
        assert(head + events =~= head);
        assert(reported_changes(head) + changes =~= reported_changes(head));
    } else {
        let n = events.len() - 1;
        lemma_reported_changes_append(head, events.drop_last(), changes.drop_last());
        assert((head + events).drop_last() =~= head + events.drop_last());
        assert((head + events).last() == events[n]);
        assert(reported_changes(head) + changes =~= (reported_changes(head)
            + changes.drop_last()).push(changes[n]));
    }
}

} // verus!
