use core::array::TryFromSliceError;
use core::cmp::Ordering;
use lsm_core::block::{Block, BlockError, SNAPSHOT_FREQUENCY};
use std::mem::size_of;

#[test]
fn iterator_works() {
    // 55 for the entries + 8 for the idx + offset
    let mut block = Block::new(vec![0_u8; 55 + 8]);

    let key_suffix = [0, 1, 2, 3];
    let value_suffix = [5, 6, 7];

    for n in 0..5 {
        let mut key = vec![n];

        key.extend_from_slice(&key_suffix);

        let mut value = vec![n];
        value.extend_from_slice(&value_suffix);

        block.insert(&key, &value).unwrap();
    }

    let mut it = block.into_iter();
    let mut expected_prefix = 0_usize;
    while let Some(entry) = it.next() {
        let mut expected_key = vec![expected_prefix as u8];
        expected_key.extend_from_slice(&key_suffix);

        let mut expected_value = vec![expected_prefix as u8];
        expected_value.extend_from_slice(&value_suffix);

        assert_eq!(entry.key(), expected_key.as_slice());
        assert_eq!(entry.value(), expected_value.as_slice());
        expected_prefix += 1;
    }
    assert_eq!(expected_prefix, 5);
}

#[test]
fn offset_snapshots_created_ok() {
    const SNAPSHOT_NUM: usize = 6;
    const ENTRIES_NUM: usize = SNAPSHOT_FREQUENCY as usize * SNAPSHOT_NUM;
    const ENTRIES_SIZE: usize = 11 * ENTRIES_NUM;
    const SNAPSHOTS_SIZE: usize = SNAPSHOT_NUM * size_of::<u32>();

    let mut block = Block::new(vec![0_u8; ENTRIES_SIZE + SNAPSHOTS_SIZE]);

    let key_suffix = [0, 1, 2, 3];
    let value_suffix = [5, 6, 7];

    for n in 0..ENTRIES_NUM as u8 {
        let mut key = vec![n];
        key.extend_from_slice(&key_suffix);

        let mut value = vec![n];
        value.extend_from_slice(&value_suffix);

        block.insert(&key, &value).unwrap();
    }

    for n in 1..SNAPSHOT_NUM + 1 {
        let offset = block.read_offset_snapshot(n - 1);

        assert_eq!(
            offset as usize,
            (n * (SNAPSHOT_FREQUENCY as usize) - 1) * 11,
            "asserting snapshot {}",
            n
        );
    }
}

#[test]
fn binary_search_ok() {
    const SNAPSHOT_NUM: usize = 6;
    const ENTRY_SIZE: usize = 11;
    const ENTRIES_NUM: usize = SNAPSHOT_FREQUENCY as usize * SNAPSHOT_NUM;
    const ENTRIES_SIZE: usize = ENTRY_SIZE * ENTRIES_NUM;
    const SNAPSHOTS_SIZE: usize = SNAPSHOT_NUM * size_of::<u32>();

    let mut block = Block::new(vec![0_u8; ENTRIES_SIZE + SNAPSHOTS_SIZE]);

    let key_prefix = [0, 1, 2, 3];
    let value_suffix = [5, 6, 7];

    for n in 0..ENTRIES_NUM as u8 {
        let mut key = Vec::from(key_prefix);
        key.push(n);

        let mut value = vec![n];
        value.extend_from_slice(&value_suffix);

        block.insert(&key, &value).unwrap();
    }

    let needle_entry_num = 39;

    let mut needle = Vec::from(key_prefix);
    needle.push(needle_entry_num);

    // The needle must be 8 bytes long to be converted to an u64 below
    needle.extend_from_slice(&[0_u8; 3]);

    let res: Result<[u8; 8], TryFromSliceError> = needle.as_slice().try_into();
    let needle_int = u64::from_be_bytes(res.unwrap());

    let offset = block.binary_search(|key: &[u8]| -> Ordering {
        let mut key_int_bytes = Vec::from(key);

        key_int_bytes.extend_from_slice(&vec![0; 8 - key_int_bytes.len()]);

        let key_int = u64::from_be_bytes(key_int_bytes.try_into().unwrap());

        key_int.cmp(&needle_int)
    });

    assert_eq!(offset, needle_entry_num as u32 * ENTRY_SIZE as u32);
}

fn filled_block(count: u8, capacity: usize) -> Block {
    let mut block = Block::new(vec![0_u8; capacity]);
    for n in 0..count {
        block.insert(&[n, n], &[n]).unwrap();
    }
    block
}

#[test]
fn binary_search_between_snapshots_returns_lower_one() {
    // records of 5 bytes; snapshots at records 9, 19 and 29
    let block = filled_block(35, 35 * 5 + 12);
    let offset = block.binary_search(|key: &[u8]| key[0].cmp(&24));
    assert_eq!(offset, 19 * 5);
}

#[test]
fn binary_search_below_first_snapshot_returns_start() {
    let block = filled_block(35, 35 * 5 + 12);
    let offset = block.binary_search(|key: &[u8]| key[0].cmp(&3));
    assert_eq!(offset, 0);
    let few = filled_block(4, 20);
    assert_eq!(few.binary_search(|key: &[u8]| key[0].cmp(&2)), 0);
}

#[test]
fn binary_search_above_last_snapshot_returns_last() {
    let block = filled_block(35, 35 * 5 + 12);
    let offset = block.binary_search(|key: &[u8]| key[0].cmp(&33));
    assert_eq!(offset, 29 * 5);
}

#[test]
fn full_page_is_refused_and_unchanged() {
    let mut block = Block::new(vec![0_u8; 10]);
    assert_eq!(block.insert(&[0, 1, 2, 3, 4], &[5, 6, 7, 8]), Err(BlockError::FullBlock));
    assert_eq!(block.entry_count(), 0);
    assert_eq!(block.write_offset(), 0);

    let mut block = filled_block(2, 11);
    assert_eq!(block.insert(&[9, 9], &[9]), Err(BlockError::FullBlock));
    assert_eq!(block.entry_count(), 2);
    assert_eq!(block.write_offset(), 10);
}

#[test]
fn insert_that_needs_a_snapshot_counts_its_room() {
    // nine records of 2 bytes take 18; the tenth needs 2 more and 4 for its snapshot
    let mut tight = Block::new(vec![0_u8; 23]);
    for _ in 0..9 {
        tight.insert(&[], &[]).unwrap();
    }
    assert_eq!(tight.insert(&[], &[]), Err(BlockError::FullBlock));
    assert_eq!(tight.entry_count(), 9);
    assert_eq!(tight.write_offset(), 18);

    let mut exact = Block::new(vec![0_u8; 24]);
    for _ in 0..9 {
        exact.insert(&[], &[]).unwrap();
    }
    assert_eq!(exact.insert(&[], &[]), Ok(18));
    assert_eq!(exact.read_offset_snapshot(0), 18);
    assert_eq!(&exact.as_bytes()[20..24], &[18, 0, 0, 0]);
}

#[test]
fn insert_returns_record_offsets() {
    let mut block = Block::new(vec![0_u8; 64]);
    assert_eq!(block.insert(&[1], &[2, 3]), Ok(0));
    assert_eq!(block.insert(&[4, 5, 6], &[]), Ok(5));
    assert_eq!(block.write_offset(), 10);
    assert_eq!(&block.as_bytes()[0..10], &[1, 2, 1, 2, 3, 3, 0, 4, 5, 6]);
}

#[test]
fn index_reads_each_record() {
    let block = filled_block(12, 100);
    for n in 0..12_u8 {
        let entry = block.index(n as u32);
        assert_eq!(entry.key(), &[n, n]);
        assert_eq!(entry.value(), &[n]);
    }
    let at = block.get_at_offset(10);
    assert_eq!(at.key(), &[2, 2]);
}

#[test]
fn header_bytes_hold_count_and_offset() {
    let block = filled_block(3, 300);
    assert_eq!(block.header_bytes(), vec![3, 0, 0, 0, 15, 0, 0, 0]);
    let big = filled_block(60, 300 + 24);
    assert_eq!(big.header_bytes(), vec![60, 0, 0, 0, 44, 1, 0, 0]);
}

#[test]
fn snapshot_cadence_on_sixty_records() {
    let block = filled_block(60, 60 * 5 + 24);
    for i in 0..6_usize {
        assert_eq!(block.read_offset_snapshot(i) as usize, ((i + 1) * 10 - 1) * 5);
    }
}

#[test]
fn insert_writes_record_and_leaves_free_bytes() {
    let mut block = Block::new(vec![0xaa_u8; 30]);
    for _ in 0..9 {
        block.insert(&[], &[]).unwrap();
    }
    assert_eq!(block.insert(&[1], &[2]), Ok(18));
    let bytes = block.as_bytes();
    assert_eq!(&bytes[18..22], &[1, 1, 1, 2]);
    assert_eq!(&bytes[22..26], &[0xaa; 4]);
    assert_eq!(&bytes[26..30], &[18, 0, 0, 0]);
}
