use blk::{parse, BlockCallback, CheckSequential, FastFileSource};
use memmap::MmapMut;

/// A source over a map that holds `bytes`.
fn source_of(bytes: &[u8]) -> FastFileSource {
    let mut map = MmapMut::map_anon(bytes.len()).expect("an anonymous map");
    map.copy_from_slice(bytes);
    FastFileSource::from_mmap(map.make_read_only().expect("a read-only map"))
}

struct Heights {
    seen: Vec<u32>,
}

impl BlockCallback for Heights {
    fn begin_block(&mut self, block_height: u32) {
        self.seen.push(block_height);
    }

    fn change(&mut self, block_height: u32, _amount_satoshi: i64, _is_null_delta: bool) {
        self.seen.push(block_height);
    }

    fn end_block(&mut self, block_height: u32) {
        self.seen.push(block_height);
    }
}

#[test]
fn source_yields_the_mapped_bytes_in_order() {
    let bytes: Vec<u8> = (0..=255u8).rev().collect();
    let mut source = source_of(&bytes);
    let read: Vec<u8> = source.iter().copied().collect();
    assert_eq!(read, bytes);
}

#[test]
fn source_starts_over_with_each_cursor() {
    let mut source = source_of(&[1, 2, 3]);
    assert_eq!(source.iter().next(), Some(&1));
    let mut it = source.iter();
    assert_eq!(it.next(), Some(&1));
    assert_eq!(it.next(), Some(&2));
    assert_eq!(it.next(), Some(&3));
    assert_eq!(it.next(), None);
}

#[test]
fn source_feeds_the_parser() {
    let mut bytes = vec![0x42, 0x4c, 0x4b, 0x00, 3, 0, 0, 0, 14, 0, 0, 0];
    bytes.extend(25i64.to_le_bytes());
    bytes.extend(2u32.to_le_bytes());
    bytes.extend([0x00, 0x03]);
    let mut source = source_of(&bytes);
    let mut heights = Heights { seen: Vec::new() };
    assert_eq!(parse(&mut source.iter(), &mut heights), Some(()));
    assert_eq!(heights.seen, vec![3, 2, 0]);
    let mut check = CheckSequential::new();
    assert_eq!(parse(&mut source.iter(), &mut check), Some(()));
    assert_eq!(check.last_block(), 3);
    assert_eq!(check.num_changes(), 2);
}

#[test]
fn source_with_a_broken_stream() {
    let mut source = source_of(&[0x42, 0x4c, 0x4b, 0x01, 0, 0, 0, 0]);
    let mut heights = Heights { seen: Vec::new() };
    let mut it = source.iter();
    assert_eq!(parse(&mut it, &mut heights), None);
    assert_eq!(it.as_slice().len(), 4);
    assert_eq!(heights.seen.len(), 0);
}
