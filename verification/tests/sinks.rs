use blk::{parse, BlockCallback, ChangeToPixel, CheckSequential};

fn record(block_height: u32, pairs: u8) -> Vec<u8> {
    let mut out = vec![0x42, 0x4c, 0x4b, 0x00];
    out.extend(block_height.to_le_bytes());
    out.extend((12 + 2 * pairs as u32).to_le_bytes());
    out.extend(1i64.to_le_bytes());
    out.extend(block_height.to_le_bytes());
    for _ in 0..pairs {
        out.extend([0x01, 0x00]);
    }
    out
}

#[test]
fn check_sequential_starts_before_block_zero() {
    let check = CheckSequential::new();
    assert_eq!(check.last_block(), u32::MAX);
    assert_eq!(check.num_changes(), 0);
    assert_eq!(check.next_block(), 0);
    assert!(check.is_next(0));
    assert!(!check.is_next(1));
    assert!(check.is_current(u32::MAX));
}

#[test]
fn check_sequential_follows_the_blocks() {
    let mut check = CheckSequential::new();
    check.begin_block(0);
    assert_eq!(check.last_block(), 0);
    assert!(check.is_next(1));
    assert!(!check.is_next(0));
    assert!(!check.is_next(2));
    assert!(check.is_current(0));
    assert!(!check.is_current(1));
    check.begin_block(5);
    assert_eq!(check.last_block(), 5);
    assert_eq!(check.next_block(), 6);
    assert!(check.is_next(6));
    check.end_block(5);
    assert_eq!(check.last_block(), 5);
    assert_eq!(check.num_changes(), 0);
}

#[test]
fn check_sequential_counts_changes_only() {
    let mut check = CheckSequential::new();
    check.begin_block(0);
    check.change(0, 50, false);
    check.change(0, 50, true);
    check.end_block(0);
    check.begin_block(1);
    check.change(1, -50, false);
    assert_eq!(check.num_changes(), 3);
    assert_eq!(check.last_block(), 1);
}

#[test]
fn check_sequential_wraps_at_the_last_block() {
    let mut check = CheckSequential::new();
    check.begin_block(u32::MAX);
    assert!(check.is_next(0));
    assert!(!check.is_next(u32::MAX));
}

#[test]
fn check_sequential_after_a_stream() {
    let mut data = record(0, 0);
    data.extend(record(1, 3));
    data.extend(record(2, 1));
    let mut check = CheckSequential::new();
    assert_eq!(parse(&mut data.iter(), &mut check), Some(()));
    assert_eq!(check.last_block(), 2);
    assert_eq!(check.num_changes(), 7);
    assert!(check.is_next(3));
}

#[test]
fn check_sequential_after_a_failure() {
    let mut data = record(0, 2);
    data.extend(&record(4, 2)[..25]);
    let mut check = CheckSequential::new();
    assert_eq!(parse(&mut data.iter(), &mut check), None);
    assert_eq!(check.last_block(), 4);
    assert_eq!(check.num_changes(), 4);
}

#[test]
fn change_to_pixel_keeps_its_frame() {
    let frame = ChangeToPixel::new(1080, -5_000, 21_000_000);
    assert_eq!(frame, ChangeToPixel::new(1080, -5_000, 21_000_000));
    assert_ne!(frame, ChangeToPixel::new(1081, -5_000, 21_000_000));
    assert_ne!(frame, ChangeToPixel::new(1080, -5_001, 21_000_000));
    assert_ne!(frame, ChangeToPixel::new(1080, -5_000, 21_000_001));
    assert_eq!(
        format!("{:?}", frame),
        "ChangeToPixel { height: 1080, min_satoshi: -5000, max_satoshi: 21000000 }"
    );
}
