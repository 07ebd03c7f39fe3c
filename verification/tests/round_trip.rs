use blk::parser::{parse_var_i32, parse_var_u64};
use blk::{parse, BlockCallback, Event};

/// Keeps the changes as (height, amount) pairs, and the flags beside them.
struct Pairs {
    blocks: Vec<u32>,
    pairs: Vec<(u32, i64)>,
    flags: Vec<bool>,
}

impl Pairs {
    fn new() -> Pairs {
        Pairs { blocks: Vec::new(), pairs: Vec::new(), flags: Vec::new() }
    }
}

impl BlockCallback for Pairs {
    fn begin_block(&mut self, block_height: u32) {
        self.blocks.push(block_height);
    }

    fn change(&mut self, block_height: u32, amount_satoshi: i64, is_null_delta: bool) {
        self.pairs.push((block_height, amount_satoshi));
        self.flags.push(is_null_delta);
    }

    fn end_block(&mut self, _block_height: u32) {
        unreachable!("the parser does not close blocks");
    }
}

/// Keeps every notification in order.
struct Log {
    events: Vec<Event>,
}

impl BlockCallback for Log {
    fn begin_block(&mut self, block_height: u32) {
        self.events.push(Event::BeginBlock { block_height });
    }

    fn change(&mut self, block_height: u32, amount_satoshi: i64, is_null_delta: bool) {
        self.events.push(Event::Change { block_height, amount_satoshi, is_null_delta });
    }

    fn end_block(&mut self, block_height: u32) {
        self.events.push(Event::EndBlock { block_height });
    }
}

fn encode_varuint(mut v: u64) -> Vec<u8> {
    let mut out = Vec::new();
    loop {
        let group = (v & 0x7f) as u8;
        v >>= 7;
        if v == 0 {
            out.push(group);
            return out;
        }
        out.push(group | 0x80);
    }
}

fn encode_zigzag(v: i32) -> u64 {
    (((v << 1) ^ (v >> 31)) as u32) as u64
}

/// The bytes of a record whose changes are `changes`, the first in full and
/// the others as deltas.
fn encode_record(block_height: u32, changes: &[(u32, i64)]) -> Vec<u8> {
    let mut deltas = Vec::new();
    for pair in changes.windows(2) {
        let (prev_height, prev_amount) = pair[0];
        let (height, amount) = pair[1];
        deltas.extend(encode_varuint(amount.wrapping_sub(prev_amount) as u64));
        deltas.extend(encode_varuint(encode_zigzag(height.wrapping_sub(prev_height) as i32)));
    }
    let mut out = vec![0x42, 0x4c, 0x4b, 0x00];
    out.extend(block_height.to_le_bytes());
    out.extend((12 + deltas.len() as u32).to_le_bytes());
    out.extend(changes[0].1.to_le_bytes());
    out.extend(changes[0].0.to_le_bytes());
    out.extend(deltas);
    out
}

fn bit_length(v: u64) -> usize {
    (64 - v.leading_zeros()) as usize
}

#[test]
fn varuint_round_trip() {
    let mut values = vec![0u64, 1, 2, 0x7f, 0x80, 0xff, 300, 5000, u32::MAX as u64, u64::MAX];
    for bits in 0..64 {
        values.push(1 << bits);
        values.push((1 << bits) - 1);
        values.push((1 << bits) + 1);
        values.push(u64::MAX >> bits);
    }
    for v in values {
        let code = encode_varuint(v);
        let expected_len = std::cmp::max(1, (bit_length(v) + 6) / 7);
        assert_eq!(code.len(), expected_len);
        let mut it = code.iter();
        assert_eq!(parse_var_u64(&mut it), Some((expected_len, v)));
        assert_eq!(it.as_slice().len(), 0);
    }
}

#[test]
fn varuint_round_trip_leaves_what_follows() {
    let mut data = encode_varuint(0x1234_5678_9abc);
    let len = data.len();
    assert_eq!(len, 7);
    data.extend([0x80, 0x80, 0x00]);
    let mut it = data.iter();
    assert_eq!(parse_var_u64(&mut it), Some((len, 0x1234_5678_9abc)));
    assert_eq!(it.as_slice(), &[0x80, 0x80, 0x00]);
}

#[test]
fn varuint_lengths_by_magnitude() {
    assert_eq!(encode_varuint(0).len(), 1);
    assert_eq!(encode_varuint(127).len(), 1);
    assert_eq!(encode_varuint(128).len(), 2);
    assert_eq!(encode_varuint(16_383).len(), 2);
    assert_eq!(encode_varuint(16_384).len(), 3);
    assert_eq!(encode_varuint((1 << 56) - 1).len(), 8);
    assert_eq!(encode_varuint(1 << 56).len(), 9);
    assert_eq!(encode_varuint((1 << 63) - 1).len(), 9);
    assert_eq!(encode_varuint(1 << 63).len(), 10);
}

#[test]
fn zigzag_round_trip() {
    let mut values = vec![0i32, 1, -1, 2, -2, 63, -64, 64, -65, i32::MAX, i32::MIN];
    for bits in 0..31 {
        values.push(1 << bits);
        values.push(-(1 << bits));
        values.push((1 << bits) - 1);
        values.push(-(1 << bits) - 1);
    }
    for v in values {
        let code = encode_varuint(encode_zigzag(v));
        let mut it = code.iter();
        assert_eq!(parse_var_i32(&mut it), Some((code.len(), v)));
    }
}

#[test]
fn zigzag_codes_interleave() {
    assert_eq!(encode_zigzag(0), 0);
    assert_eq!(encode_zigzag(-1), 1);
    assert_eq!(encode_zigzag(1), 2);
    assert_eq!(encode_zigzag(-2), 3);
    assert_eq!(encode_zigzag(i32::MAX), 0xffff_fffe);
    assert_eq!(encode_zigzag(i32::MIN), 0xffff_ffff);
}

#[test]
fn record_round_trip() {
    let changes = vec![
        (100u32, 5_000_000_000i64),
        (100, 5_000_000_000),      // both deltas zero
        (101, 4_999_999_999),      // negative amount delta
        (99, -1),                  // height moves back
        (99, i64::MIN),            // amount delta wraps
        (u32::MAX, i64::MAX),      // large positive steps
        (0, i64::MAX),             // height wraps up to zero
        (u32::MAX, i64::MAX),      // height wraps down from zero
        (0x8000_0000, 0),          // largest height step
        (0x8000_0000, 0),
    ];
    let data = encode_record(321, &changes);
    let mut it = data.iter();
    let mut sink = Pairs::new();
    assert_eq!(parse(&mut it, &mut sink), Some(()));
    assert_eq!(it.as_slice().len(), 0);
    assert_eq!(sink.blocks, vec![321]);
    assert_eq!(sink.pairs, changes);
    assert_eq!(
        sink.flags,
        vec![false, true, false, false, false, false, false, false, false, true]
    );
}

#[test]
fn first_change_is_never_flagged() {
    for pair in [(0u32, 0i64), (5, 5), (u32::MAX, -1)] {
        let data = encode_record(0, &[pair, pair, pair]);
        let mut sink = Pairs::new();
        assert_eq!(parse(&mut data.iter(), &mut sink), Some(()));
        assert_eq!(sink.flags, vec![false, true, true]);
    }
}

#[test]
fn flag_needs_both_deltas_zero() {
    let data = encode_record(0, &[(1, 1), (1, 2), (2, 2), (2, 2), (3, 3)]);
    let mut sink = Pairs::new();
    assert_eq!(parse(&mut data.iter(), &mut sink), Some(()));
    assert_eq!(sink.flags, vec![false, false, false, true, false]);
}

#[test]
fn stream_round_trip() {
    let records: Vec<(u32, Vec<(u32, i64)>)> = vec![
        (0, vec![(0, 5_000_000_000)]),
        (1, vec![(1, 5_000_000_000), (0, -5_000_000_000), (1, 4_999_990_000)]),
        (2, vec![(2, 1), (2, 1), (1, -1)]),
        (7, vec![(3, 0)]),
    ];
    let mut data = Vec::new();
    let mut expected = Vec::new();
    for (block_height, changes) in &records {
        data.extend(encode_record(*block_height, changes));
        expected.push(Event::BeginBlock { block_height: *block_height });
        for (i, (height, amount)) in changes.iter().enumerate() {
            expected.push(Event::Change {
                block_height: *height,
                amount_satoshi: *amount,
                is_null_delta: i > 0 && changes[i - 1] == (*height, *amount),
            });
        }
    }
    let mut it = data.iter();
    let mut sink = Log { events: Vec::new() };
    assert_eq!(parse(&mut it, &mut sink), Some(()));
    assert_eq!(it.as_slice().len(), 0);
    assert_eq!(sink.events, expected);
}

#[test]
fn each_block_begins_once_before_its_changes() {
    let mut data = encode_record(10, &[(1, 1), (2, 2)]);
    data.extend(encode_record(11, &[(3, 3)]));
    data.extend(encode_record(12, &[(4, 4), (4, 4), (5, 5)]));
    let mut sink = Log { events: Vec::new() };
    assert_eq!(parse(&mut data.iter(), &mut sink), Some(()));
    let begins: Vec<usize> = (0..sink.events.len())
        .filter(|i| matches!(sink.events[*i], Event::BeginBlock { .. }))
        .collect();
    assert_eq!(begins, vec![0, 3, 5]);
    assert_eq!(sink.events[0], Event::BeginBlock { block_height: 10 });
    assert_eq!(sink.events[3], Event::BeginBlock { block_height: 11 });
    assert_eq!(sink.events[5], Event::BeginBlock { block_height: 12 });
    assert_eq!(sink.events.len(), 9);
}

#[test]
fn truncated_encoded_record_fails_everywhere() {
    let changes = vec![(7u32, 100i64), (8, 300), (8, 300), (6, -70_000), (6, 1 << 40)];
    let data = encode_record(9, &changes);
    let mut whole = Pairs::new();
    assert_eq!(parse(&mut data.iter(), &mut whole), Some(()));
    for len in 1..data.len() {
        let mut it = data[..len].iter();
        let mut sink = Pairs::new();
        assert_eq!(parse(&mut it, &mut sink), None);
        assert_eq!(it.as_slice().len(), 0);
        assert!(sink.pairs.len() < changes.len() || sink.blocks.is_empty());
        assert_eq!(sink.pairs[..], changes[..sink.pairs.len()]);
        assert_eq!(sink.blocks.len(), if len >= 8 { 1 } else { 0 });
    }
}
