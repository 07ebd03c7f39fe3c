use blk::{parse, BlockCallback, Event};

/// Keeps every notification in order.
struct Recorder {
    events: Vec<Event>,
}

impl Recorder {
    fn new() -> Recorder {
        Recorder { events: Vec::new() }
    }
}

impl BlockCallback for Recorder {
    fn begin_block(&mut self, block_height: u32) {
        self.events.push(Event::BeginBlock { block_height });
    }

    fn change(&mut self, block_height: u32, amount_satoshi: i64, is_null_delta: bool) {
        self.events.push(Event::Change { block_height, amount_satoshi, is_null_delta });
    }

    fn end_block(&mut self, block_height: u32) {
        self.events.push(Event::EndBlock { block_height });
    }
}

fn begin(block_height: u32) -> Event {
    Event::BeginBlock { block_height }
}

fn change(block_height: u32, amount_satoshi: i64, is_null_delta: bool) -> Event {
    Event::Change { block_height, amount_satoshi, is_null_delta }
}

/// Runs the parser over `data`: its result, the events, and the bytes left.
fn run(data: &[u8]) -> (Option<()>, Vec<Event>, usize) {
    let mut it = data.iter();
    let mut sink = Recorder::new();
    let result = parse(&mut it, &mut sink);
    (result, sink.events, it.as_slice().len())
}

fn record_5000() -> Vec<u8> {
    vec![
        0x42, 0x4c, 0x4b, 0x00, // magic
        0, 0, 0, 0, // block height 0
        12, 0, 0, 0, // section length 12
        0x88, 0x13, 0, 0, 0, 0, 0, 0, // amount 5000
        0, 0, 0, 0, // height 0
    ]
}

#[test]
fn empty_stream_succeeds() {
    assert_eq!(run(&[]), (Some(()), vec![], 0));
}

#[test]
fn single_record_without_deltas() {
    let data = record_5000();
    assert_eq!(run(&data), (Some(()), vec![begin(0), change(0, 5000, false)], 0));
}

#[test]
fn single_record_with_null_delta() {
    let mut data = record_5000();
    data[8] = 14;
    data.push(0x00);
    data.push(0x00);
    assert_eq!(
        run(&data),
        (Some(()), vec![begin(0), change(0, 5000, false), change(0, 5000, true)], 0)
    );
}

#[test]
fn partial_magic_fails() {
    for len in 1..4 {
        let data = &record_5000()[..len];
        assert_eq!(run(data), (None, vec![], 0));
    }
}

#[test]
fn wrong_magic_fails_right_behind_it() {
    let mut data = record_5000();
    data[3] = 0x01;
    assert_eq!(run(&data), (None, vec![], 20));
}

#[test]
fn every_corrupted_magic_byte_fails_before_any_event() {
    for at in 0..4 {
        for flip in [0x01u8, 0x80, 0xff] {
            let mut data = record_5000();
            data[at] ^= flip;
            assert_eq!(run(&data), (None, vec![], 20));
        }
    }
}

#[test]
fn corrupted_magic_of_second_record_keeps_the_first() {
    let mut data = record_5000();
    data.extend(record_5000());
    data[24 + 1] = 0x4d;
    assert_eq!(run(&data), (None, vec![begin(0), change(0, 5000, false)], 20));
}

#[test]
fn block_is_announced_before_the_record_is_known_to_be_whole() {
    let data = record_5000();
    // the block height is there, the section length is not
    assert_eq!(run(&data[..8]), (None, vec![begin(0)], 0));
    assert_eq!(run(&data[..11]), (None, vec![begin(0)], 0));
    // the first change is there but for its last byte
    assert_eq!(run(&data[..23]), (None, vec![begin(0)], 0));
    // only the magic value is there
    assert_eq!(run(&data[..4]), (None, vec![], 0));
    assert_eq!(run(&data[..7]), (None, vec![], 0));
}

#[test]
fn every_truncation_of_a_record_fails() {
    let mut data = record_5000();
    data[8] = 17;
    data.extend([0xac, 0x02, 0x03]); // amount + 300, height - 2
    data.extend([0x00, 0x01]); // amount + 0, height - 1
    let whole = vec![
        begin(0),
        change(0, 5000, false),
        change(0xffff_fffe, 5300, false),
        change(0xffff_fffd, 5300, false),
    ];
    assert_eq!(run(&data), (Some(()), whole.clone(), 0));
    for len in 1..data.len() {
        let (result, events, left) = run(&data[..len]);
        assert_eq!(result, None);
        assert_eq!(left, 0);
        assert!(events.len() < whole.len());
        assert_eq!(events[..], whole[..events.len()]);
    }
    // nothing is reported of a pair that is not there in full
    assert_eq!(run(&data[..26]).1.len(), 2);
    assert_eq!(run(&data[..27]).1.len(), 3);
    assert_eq!(run(&data[..28]).1.len(), 3);
}

#[test]
fn deltas_add_up_within_a_record() {
    let mut data = record_5000();
    data[8] = 18;
    data.extend([0x01, 0x02]); // amount + 1, height + 1
    data.extend([0x00, 0x00]); // nothing changes
    data.extend([0x00, 0x04]); // height + 2
    assert_eq!(
        run(&data),
        (
            Some(()),
            vec![
                begin(0),
                change(0, 5000, false),
                change(1, 5001, false),
                change(1, 5001, true),
                change(3, 5001, false),
            ],
            0
        )
    );
}

#[test]
fn amount_delta_wraps_to_negative() {
    let mut data = record_5000();
    data[8] = 23;
    // 2^64 - 5001 as a varint of ten bytes, then height delta 0
    data.extend([0xf7, 0xd8, 0xff, 0xff, 0xff, 0xff, 0xff, 0xff, 0xff, 0x01, 0x00]);
    assert_eq!(
        run(&data),
        (Some(()), vec![begin(0), change(0, 5000, false), change(0, -1, false)], 0)
    );
}

#[test]
fn amount_wraps_around() {
    let mut data = vec![0x42, 0x4c, 0x4b, 0x00, 7, 0, 0, 0, 14, 0, 0, 0];
    data.extend(i64::MAX.to_le_bytes());
    data.extend(9u32.to_le_bytes());
    data.extend([0x01, 0x00]);
    assert_eq!(
        run(&data),
        (Some(()), vec![begin(7), change(9, i64::MAX, false), change(9, i64::MIN, false)], 0)
    );
}

#[test]
fn height_wraps_around_both_ways() {
    let mut data = vec![0x42, 0x4c, 0x4b, 0x00, 1, 0, 0, 0, 16, 0, 0, 0];
    data.extend(10i64.to_le_bytes());
    data.extend(0u32.to_le_bytes());
    data.extend([0x00, 0x01]); // height - 1, below zero
    data.extend([0x00, 0x04]); // height + 2, above u32::MAX
    assert_eq!(
        run(&data),
        (
            Some(()),
            vec![begin(1), change(0, 10, false), change(u32::MAX, 10, false), change(1, 10, false)],
            0
        )
    );
}

#[test]
fn change_height_may_differ_from_block_height() {
    let mut data = vec![0x42, 0x4c, 0x4b, 0x00];
    data.extend(400_000u32.to_le_bytes());
    data.extend(12u32.to_le_bytes());
    data.extend((-123_456_789i64).to_le_bytes());
    data.extend(170u32.to_le_bytes());
    assert_eq!(
        run(&data),
        (Some(()), vec![begin(400_000), change(170, -123_456_789, false)], 0)
    );
}

#[test]
fn section_length_below_twelve_means_no_deltas() {
    for section_length in 0..12 {
        let mut data = record_5000();
        data[8] = section_length;
        assert_eq!(run(&data), (Some(()), vec![begin(0), change(0, 5000, false)], 0));
    }
}

#[test]
fn last_pair_may_reach_beyond_section_length() {
    // one byte of the section is left, and a whole pair is read for it
    let mut data = record_5000();
    data[8] = 13;
    data.extend([0x80, 0x01, 0x02]);
    assert_eq!(
        run(&data),
        (Some(()), vec![begin(0), change(0, 5000, false), change(1, 5128, false)], 0)
    );
}

#[test]
fn state_does_not_carry_over_to_the_next_record() {
    let mut data = record_5000();
    data[8] = 14;
    data.extend([0x05, 0x06]); // amount + 5, height + 3
    let mut second = vec![0x42, 0x4c, 0x4b, 0x00, 1, 0, 0, 0, 14, 0, 0, 0];
    second.extend(70i64.to_le_bytes());
    second.extend(1u32.to_le_bytes());
    second.extend([0x01, 0x00]); // amount + 1
    data.extend(second);
    assert_eq!(
        run(&data),
        (
            Some(()),
            vec![
                begin(0),
                change(0, 5000, false),
                change(3, 5005, false),
                begin(1),
                change(1, 70, false),
                change(1, 71, false),
            ],
            0
        )
    );
}

#[test]
fn truncated_second_record_keeps_the_first() {
    let mut data = record_5000();
    data.extend(&record_5000()[..12]);
    assert_eq!(
        run(&data),
        (None, vec![begin(0), change(0, 5000, false), begin(0)], 0)
    );
    let mut data = record_5000();
    data.extend(&record_5000()[..2]);
    assert_eq!(run(&data), (None, vec![begin(0), change(0, 5000, false)], 0));
}

#[test]
fn end_block_is_never_called() {
    let mut data = record_5000();
    data.extend(record_5000());
    let (result, events, _) = run(&data);
    assert_eq!(result, Some(()));
    assert_eq!(events.len(), 4);
    assert!(events.iter().all(|event| !matches!(event, Event::EndBlock { .. })));
}

#[test]
fn parse_takes_a_trait_object() {
    let data = record_5000();
    let mut it = data.iter();
    let mut sink = Recorder::new();
    {
        let callback: &mut dyn BlockCallback = &mut sink;
        assert_eq!(parse(&mut it, callback), Some(()));
    }
    assert_eq!(sink.events, vec![begin(0), change(0, 5000, false)]);
}

#[test]
fn parse_starts_where_the_cursor_stands() {
    let mut data = vec![0xde, 0xad];
    data.extend(record_5000());
    let mut it = data.iter();
    it.next();
    it.next();
    let mut sink = Recorder::new();
    assert_eq!(parse(&mut it, &mut sink), Some(()));
    assert_eq!(sink.events, vec![begin(0), change(0, 5000, false)]);
}
