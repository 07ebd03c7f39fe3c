//! How decoding goes along with concatenation and cutting: what the decoder
//! makes of an encoding that is followed by other bytes, and of one that
//! breaks off before its end.
use crate::arith::lemma_varuint_len_none;
use crate::encoding::{
    amount_delta, delta_event, delta_events, encodable, encode_delta, encode_deltas,
    encode_header, encode_record_body, encode_stream, encode_varuint, encode_zigzag,
    height_delta, le_bytes_i64, le_bytes_u32, lemma_encode_varuint_bytes,
    lemma_encode_varuint_len, lemma_le_i64_decode_encode, lemma_le_u32_decode_encode,
    lemma_varuint_decode_encode, lemma_zigzag_decode_encode, record_events, section_len,
    stream_events, Change, Record,
};
use crate::format::{
    decode_deltas, decode_record, decode_stream, le_i64, le_u32, lemma_after_after,
    lemma_after_nothing, lemma_decode_record_consumed, lemma_decode_stream_unfold,
    lemma_varuint_len_bounds, next_amount, next_height, varuint_len, varuint_value, zigzag_i32,
    Decoded, Event, FIRST_CHANGE_LEN, HEADER_LEN, MAGIC,
};
use vstd::prelude::*;

verus! {

/// Applying the delta between two changes to the first gives the second.
pub proof fn lemma_delta_applies(prev: Change, cur: Change)
    ensures
        next_amount(prev.amount, amount_delta(prev.amount, cur.amount)) == cur.amount,
        next_height(prev.height, height_delta(prev.height, cur.height)) == cur.height,
{
}

/// A delta pair takes at least two bytes.
pub proof fn lemma_encode_delta_len(prev: Change, cur: Change)
    ensures
        encode_delta(prev, cur).len() >= 2,
{
    lemma_encode_varuint_len(amount_delta(prev.amount, cur.amount));
    lemma_encode_varuint_len(encode_zigzag(height_delta(prev.height, cur.height)));
}

/// A section that is not yet full decodes its next pair, whatever follows,
/// to the change that the pair was made from.
pub proof fn lemma_decode_delta(
    prev: Change,
    cur: Change,
    tail: Seq<u8>,
    bytes_read: nat,
    section_length: u32,
)
    requires
        bytes_read < section_length,
    ensures
        decode_deltas(
            encode_delta(prev, cur) + tail,
            bytes_read,
            section_length,
            prev.amount,
            prev.height,
        ) == decode_deltas(
            tail,
            bytes_read + encode_delta(prev, cur).len(),
            section_length,
            cur.amount,
            cur.height,
        ).after(encode_delta(prev, cur).len(), seq![delta_event(prev, cur)]),
{
    let a = amount_delta(prev.amount, cur.amount);
    let h = height_delta(prev.height, cur.height);
    let code_a = encode_varuint(a);
    let code_h = encode_varuint(encode_zigzag(h));
    let s = encode_delta(prev, cur) + tail;
    lemma_varuint_decode_encode(a, code_h + tail);
    lemma_varuint_decode_encode(encode_zigzag(h), tail);
    lemma_zigzag_decode_encode(h);
    lemma_delta_applies(prev, cur);
    assert(s =~= code_a + (code_h + tail));
    assert(s.skip(code_a.len() as int) =~= code_h + tail);
    assert(s.skip((code_a.len() + code_h.len()) as int) =~= tail);
}

/// A section of exactly the encoded length decodes its delta pairs, whatever
/// follows, to the changes that they were made from, and stops behind them.
pub proof fn lemma_decode_deltas(
    prev: Change,
    rest: Seq<Change>,
    tail: Seq<u8>,
    bytes_read: nat,
    section_length: u32,
)
    requires
        section_length == bytes_read + encode_deltas(prev, rest).len(),
    ensures
        decode_deltas(
            encode_deltas(prev, rest) + tail,
            bytes_read,
            section_length,
            prev.amount,
            prev.height,
        ) == (Decoded {
            ok: true,
            consumed: encode_deltas(prev, rest).len(),
            events: delta_events(prev, rest),
        }),
    decreases rest.len(),
{
    if rest.len() > 0 {
        let pair = encode_delta(prev, rest[0]);
        let others = encode_deltas(rest[0], rest.skip(1));
        lemma_encode_delta_len(prev, rest[0]);
        lemma_decode_delta(prev, rest[0], others + tail, bytes_read, section_length);
        lemma_decode_deltas(rest[0], rest.skip(1), tail, bytes_read + pair.len(), section_length);
        assert(encode_deltas(prev, rest) + tail =~= pair + (others + tail));
    }
}

/// The header of a record, whatever follows it, is read back field by field.
pub proof fn lemma_decode_header(record: Record, tail: Seq<u8>)
    ensures
        encode_header(record).len() == HEADER_LEN,
        le_u32(encode_header(record) + tail) == record.block_height,
        le_u32((encode_header(record) + tail).skip(4)) == section_len(record) as u32,
        le_i64((encode_header(record) + tail).skip(8)) == record.first.amount,
        le_u32((encode_header(record) + tail).skip(16)) == record.first.height,
        (encode_header(record) + tail).skip(HEADER_LEN as int) == tail,
{
    let section = section_len(record) as u32;
    let f4 = le_bytes_u32(record.first.height) + tail;
    let f3 = le_bytes_i64(record.first.amount) + f4;
    let f2 = le_bytes_u32(section) + f3;
    let s = encode_header(record) + tail;
    lemma_le_u32_decode_encode(record.block_height, f2);
    lemma_le_u32_decode_encode(section, f3);
    lemma_le_i64_decode_encode(record.first.amount, f4);
    lemma_le_u32_decode_encode(record.first.height, tail);
    assert(s =~= le_bytes_u32(record.block_height) + f2);
    assert(s.skip(4) =~= f2);
    assert(s.skip(8) =~= f3);
    assert(s.skip(16) =~= f4);
    assert(s.skip(HEADER_LEN as int) =~= tail);
}

/// A record decodes, whatever follows it, to the events that report it, and
/// stops behind it.
pub proof fn lemma_decode_record(record: Record, tail: Seq<u8>)
    requires
        encodable(record),
    ensures
        decode_record(encode_record_body(record) + tail) == (Decoded {
            ok: true,
            consumed: encode_record_body(record).len(),
            events: record_events(record),
        }),
        encode_record_body(record).len() == HEADER_LEN + encode_deltas(
            record.first,
            record.rest,
        ).len(),
{
    let deltas = encode_deltas(record.first, record.rest);
    let s = encode_record_body(record) + tail;
    lemma_decode_header(record, deltas + tail);
    assert(s =~= encode_header(record) + (deltas + tail));
    lemma_decode_deltas(
        record.first,
        record.rest,
        tail,
        FIRST_CHANGE_LEN as nat,
        section_len(record) as u32,
    );
}

/// A stream of records decodes, whatever follows it, to the events that
/// report the records, and goes on behind them.
pub proof fn lemma_decode_stream(records: Seq<Record>, tail: Seq<u8>)
    requires
        forall|i: int| 0 <= i < records.len() ==> encodable(#[trigger] records[i]),
    ensures
        decode_stream(encode_stream(records) + tail) == decode_stream(tail).after(
            encode_stream(records).len(),
            stream_events(records),
        ),
    decreases records.len(),
{
    if records.len() == 0 {
        assert(encode_stream(records) + tail =~= tail);
        lemma_after_nothing(decode_stream(tail));
    } else {
        let first = records[0];
        let others = records.skip(1);
        let s = encode_stream(records) + tail;
        let behind = encode_stream(others) + tail;
        let body = encode_record_body(first);
        let step = 4 + body.len();
        assert(le_u32(s) == MAGIC && s.len() >= 4 && s.skip(4) == body + behind && s.skip(
            step as int,
        ) == behind) by {
            lemma_le_u32_decode_encode(MAGIC, body + behind);
            assert(s =~= le_bytes_u32(MAGIC) + (body + behind));
            assert(s.skip(4) =~= body + behind);
            assert(s.skip(step as int) =~= behind);
        }
        assert(decode_record(s.skip(4)) == (Decoded {
            ok: true,
            consumed: body.len(),
            events: record_events(first),
        })) by {
            lemma_decode_record(first, behind);
        }
        assert(decode_stream(s) == decode_stream(behind).after(step, record_events(first))) by {
            lemma_decode_stream_unfold(s);
        }
        assert(decode_stream(behind) == decode_stream(tail).after(
            encode_stream(others).len(),
            stream_events(others),
        )) by {
            assert forall|i: int| 0 <= i < others.len() implies encodable(
                #[trigger] others[i],
            ) by {
                assert(others[i] == records[i + 1]);
            }
            lemma_decode_stream(others, tail);
        }
        lemma_after_after(
            decode_stream(tail),
            encode_stream(others).len(),
            stream_events(others),
            step,
            record_events(first),
        );
    }
}

/// A stream that decodes with success has been read to its last byte.
pub proof fn lemma_success_reads_all(s: Seq<u8>)
    ensures
        decode_stream(s).consumed <= s.len(),
        decode_stream(s).ok ==> decode_stream(s).consumed == s.len(),
    decreases s.len(),
{
    lemma_decode_stream_unfold(s);
    if s.len() >= 4 && le_u32(s) == MAGIC {
        let record = decode_record(s.skip(4));
        lemma_decode_record_consumed(s.skip(4));
        if record.ok {
            lemma_success_reads_all(s.skip(4 + record.consumed as int));
        }
    }
}

/// A code that breaks off before its last byte holds no complete varint.
pub proof fn lemma_varuint_cut(v: u64, k: int)
    requires
        0 <= k < encode_varuint(v).len(),
    ensures
        varuint_len(encode_varuint(v).take(k)) is None,
{
    lemma_encode_varuint_bytes(v);
    lemma_varuint_len_none(encode_varuint(v).take(k));
}

/// A delta pair that breaks off before its last byte fails, with every byte
/// read and no event.
pub proof fn lemma_decode_delta_cut(
    prev: Change,
    cur: Change,
    k: int,
    bytes_read: nat,
    section_length: u32,
    amount: i64,
    height: u32,
)
    requires
        bytes_read < section_length,
        0 <= k < encode_delta(prev, cur).len(),
    ensures
        decode_deltas(encode_delta(prev, cur).take(k), bytes_read, section_length, amount, height)
            == Decoded::failed(k as nat),
{
    let a = amount_delta(prev.amount, cur.amount);
    let zz = encode_zigzag(height_delta(prev.height, cur.height));
    let code_a = encode_varuint(a);
    let code_h = encode_varuint(zz);
    let s = encode_delta(prev, cur).take(k);
    if k < code_a.len() {
        lemma_varuint_cut(a, k);
        assert(s =~= code_a.take(k));
    } else {
        let cut = code_h.take(k - code_a.len());
        lemma_varuint_decode_encode(a, cut);
        lemma_varuint_cut(zz, k - code_a.len());
        assert(s =~= code_a + cut);
        assert(s.skip(code_a.len() as int) =~= cut);
    }
}

/// A change section that breaks off before its last byte fails, with every
/// byte read, after the events of the pairs that are there in full.
pub proof fn lemma_decode_deltas_cut(
    prev: Change,
    rest: Seq<Change>,
    k: int,
    bytes_read: nat,
    section_length: u32,
)
    requires
        section_length == bytes_read + encode_deltas(prev, rest).len(),
        0 <= k < encode_deltas(prev, rest).len(),
    ensures
        !decode_deltas(
            encode_deltas(prev, rest).take(k),
            bytes_read,
            section_length,
            prev.amount,
            prev.height,
        ).ok,
        decode_deltas(
            encode_deltas(prev, rest).take(k),
            bytes_read,
            section_length,
            prev.amount,
            prev.height,
        ).consumed == k,
        decode_deltas(
            encode_deltas(prev, rest).take(k),
            bytes_read,
            section_length,
            prev.amount,
            prev.height,
        ).events.is_prefix_of(delta_events(prev, rest)),
        decode_deltas(
            encode_deltas(prev, rest).take(k),
            bytes_read,
            section_length,
            prev.amount,
            prev.height,
        ).events.len() < delta_events(prev, rest).len(),
    decreases rest.len(),
{
    let pair = encode_delta(prev, rest[0]);
    let others = encode_deltas(rest[0], rest.skip(1));
    let s = encode_deltas(prev, rest).take(k);
    let event = delta_event(prev, rest[0]);
    lemma_encode_delta_len(prev, rest[0]);
    if k < pair.len() {
        lemma_decode_delta_cut(
            prev,
            rest[0],
            k,
            bytes_read,
            section_length,
            prev.amount,
            prev.height,
        );
        assert(s =~= pair.take(k));
    } else {
        let cut = others.take(k - pair.len());
        let behind = decode_deltas(
            cut,
            bytes_read + pair.len(),
            section_length,
            rest[0].amount,
            rest[0].height,
        );
        lemma_decode_delta(prev, rest[0], cut, bytes_read, section_length);
        lemma_decode_deltas_cut(
            rest[0],
            rest.skip(1),
            k - pair.len(),
            bytes_read + pair.len(),
            section_length,
        );
        assert(s =~= pair + cut);
        let whole = delta_events(prev, rest);
        let found = seq![event] + behind.events;
        assert(found =~= whole.subrange(0, found.len() as int)) by {
            let tail_events = delta_events(rest[0], rest.skip(1));
            assert(behind.events =~= tail_events.subrange(0, behind.events.len() as int));
        }
    }
}

/// A record that breaks off before its last byte fails, with every byte
/// read, after the events of what is there in full.
pub proof fn lemma_decode_record_cut(record: Record, k: int)
    requires
        encodable(record),
        0 <= k < encode_record_body(record).len(),
    ensures
        !decode_record(encode_record_body(record).take(k)).ok,
        decode_record(encode_record_body(record).take(k)).consumed == k,
        decode_record(encode_record_body(record).take(k)).events.is_prefix_of(
            record_events(record),
        ),
        decode_record(encode_record_body(record).take(k)).events.len() < record_events(
            record,
        ).len(),
{
    let deltas = encode_deltas(record.first, record.rest);
    let body = encode_record_body(record);
    let s = body.take(k);
    let whole = record_events(record);
    let begin = Event::BeginBlock { block_height: record.block_height };
    let first = Event::Change {
        block_height: record.first.height,
        amount_satoshi: record.first.amount,
        is_null_delta: false,
    };
    assert(whole[0] == begin && whole[1] == first);
    lemma_decode_header(record, deltas);
    if k < 4 {
        assert(decode_record(s).events =~= whole.subrange(0, 0));
    } else if k < HEADER_LEN {
        assert(le_u32(s) == le_u32(body));
        assert(decode_record(s).events =~= seq![begin]);
        assert(seq![begin] =~= whole.subrange(0, 1));
    } else {
        let cut = deltas.take(k - HEADER_LEN);
        lemma_decode_header(record, cut);
        assert(s =~= encode_header(record) + cut);
        lemma_decode_deltas_cut(
            record.first,
            record.rest,
            k - HEADER_LEN,
            FIRST_CHANGE_LEN as nat,
            section_len(record) as u32,
        );
        let behind = decode_deltas(
            cut,
            FIRST_CHANGE_LEN as nat,
            section_len(record) as u32,
            record.first.amount,
            record.first.height,
        );
        let found = seq![begin, first] + behind.events;
        let tail_events = delta_events(record.first, record.rest);
        assert(behind.events =~= tail_events.subrange(0, behind.events.len() as int));
        assert(found =~= whole.subrange(0, found.len() as int));
    }
}

/// Four bytes that differ from the magic bytes in one place do not read as
/// the magic value.
pub proof fn lemma_magic_bytes_unique(s: Seq<u8>, j: int)
    requires
        s.len() >= 4,
        0 <= j < 4,
        s[j] != le_bytes_u32(MAGIC)[j],
    ensures
        le_u32(s) != MAGIC,
{
}

/// Every event of a change section is a change.
pub proof fn lemma_decode_deltas_changes(
    s: Seq<u8>,
    bytes_read: nat,
    section_length: u32,
    amount: i64,
    height: u32,
)
    ensures
        forall|i: int|
            0 <= i < decode_deltas(s, bytes_read, section_length, amount, height).events.len()
                ==> decode_deltas(s, bytes_read, section_length, amount, height).events[i]
                is Change,
    decreases s.len(),
{
    if bytes_read < section_length {
        lemma_varuint_len_bounds(s);
        if let Some(n1) = varuint_len(s) {
            lemma_varuint_len_bounds(s.skip(n1 as int));
            if let Some(n2) = varuint_len(s.skip(n1 as int)) {
                let amount_delta = varuint_value(s, n1);
                let height_delta = zigzag_i32(varuint_value(s.skip(n1 as int), n2));
                lemma_decode_deltas_changes(
                    s.skip((n1 + n2) as int),
                    bytes_read + n1 + n2,
                    section_length,
                    next_amount(amount, amount_delta),
                    next_height(height, height_delta),
                );
            }
        }
    }
}

/// What follows a stream of records that decodes to failure decides nothing:
/// a magic field that holds another value ends decoding right behind it.
pub proof fn lemma_decode_stream_bad_magic(records: Seq<Record>, tail: Seq<u8>)
    requires
        forall|i: int| 0 <= i < records.len() ==> encodable(#[trigger] records[i]),
        tail.len() >= 4,
        le_u32(tail) != MAGIC,
    ensures
        decode_stream(encode_stream(records) + tail) == (Decoded {
            ok: false,
            consumed: encode_stream(records).len() + 4,
            events: stream_events(records),
        }),
{
    lemma_decode_stream(records, tail);
    lemma_decode_stream_unfold(tail);
    assert(stream_events(records) + Seq::<Event>::empty() =~= stream_events(records));
}

} // verus!
