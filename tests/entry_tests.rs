use lsm_core::entry::{Entry, EntryError};

#[test]
fn storage_create_then_read_is_consistent() {
    let mut block = vec![0_u8; 11];

    let key: [u8; 5] = [0, 1, 2, 3, 4];
    let value: [u8; 4] = [5, 6, 7, 8];

    Entry::create(&mut block, 0, &key, &value);
    let entry = Entry::from_slice(&block).unwrap();

    assert_eq!(entry.key_len(), (5, 1));
    assert_eq!(entry.value_len(), (4, 1));
    assert_eq!(entry.key(), key);
    assert_eq!(entry.value(), value);
}

#[test]
fn disk_create_then_read_is_consistent() {
    let mut block = vec![0_u8; 11];

    let key: [u8; 5] = [0, 1, 2, 3, 4];
    let value: [u8; 4] = [5, 6, 7, 8];

    let written = Entry::create(&mut block, 0, &key, &value);
    assert_eq!(written, 11);
    let entry = Entry::from_slice(&block).unwrap();

    assert_eq!(entry.key_len(), (5, 1));
    assert_eq!(entry.value_len(), (4, 1));
    assert_eq!(entry.key(), key);
    assert_eq!(entry.value(), value);
}

#[test]
fn create_writes_exact_layout() {
    let mut block = vec![0xee_u8; 8];
    let written = Entry::create(&mut block, 1, &[7, 8], &[9]);
    assert_eq!(written, 5);
    assert_eq!(block, vec![0xee, 2, 1, 7, 8, 9, 0xee, 0xee]);
}

#[test]
fn multi_byte_length_headers_round_trip() {
    let key = vec![3_u8; 300];
    let value = vec![4_u8; 130];
    let mut block = vec![0_u8; 2 + 2 + 300 + 130 + 6];
    let written = Entry::create(&mut block, 0, &key, &value);
    assert_eq!(written, 434);
    assert_eq!(&block[0..4], &[0xac, 0x02, 0x82, 0x01]);

    let entry = Entry::from_slice(&block).unwrap();
    assert_eq!(entry.key_len(), (300, 2));
    assert_eq!(entry.value_len(), (130, 2));
    assert_eq!(entry.key(), key.as_slice());
    assert_eq!(entry.value(), value.as_slice());
    assert_eq!(entry.len(), 434);
    assert_eq!(Entry::len_from_slice(&block), Some(434));
    assert_eq!(Entry::key_len_from_slice(&block), Some((300, 2)));
    assert_eq!(Entry::value_len_from_slice(&block), Some((130, 2)));
}

#[test]
fn empty_key_and_value() {
    let mut block = vec![0xff_u8; 2];
    assert_eq!(Entry::create(&mut block, 0, &[], &[]), 2);
    let entry = Entry::from_slice(&block).unwrap();
    assert_eq!(entry.key(), &[] as &[u8]);
    assert_eq!(entry.value(), &[] as &[u8]);
    assert_eq!(entry.len(), 2);
}

#[test]
fn truncated_header_is_corruption() {
    assert!(matches!(Entry::from_slice(&[0x80]), Err(EntryError::Corruption)));
    assert!(matches!(Entry::from_slice(&[]), Err(EntryError::Corruption)));
    assert_eq!(Entry::key_len_from_slice(&[0x80, 0x80]), None);
    assert_eq!(Entry::len_from_slice(&[0x80]), None);
}

#[test]
fn payload_past_the_end_is_corruption() {
    assert!(matches!(Entry::from_slice(&[5, 0, 1, 2]), Err(EntryError::Corruption)));
    assert!(matches!(Entry::from_slice(&[1, 3, 1, 2]), Err(EntryError::Corruption)));
    assert!(Entry::from_slice(&[1, 2, 1, 2, 3]).is_ok());
}

#[test]
fn header_past_u32_is_corruption() {
    // five header bytes whose last carries more than four bits
    let data = [0xff, 0xff, 0xff, 0xff, 0x1f, 0, 0];
    assert_eq!(Entry::key_len_from_slice(&data), None);
    assert!(matches!(Entry::from_slice(&data), Err(EntryError::Corruption)));
    // the largest u32 length still reads
    let max = [0xff, 0xff, 0xff, 0xff, 0x0f];
    assert_eq!(Entry::key_len_from_slice(&max), Some((u32::MAX, 5)));
    // six header bytes
    let long = [0x80, 0x80, 0x80, 0x80, 0x80, 0x00];
    assert_eq!(Entry::key_len_from_slice(&long), None);
}

#[test]
fn value_header_read_without_payload() {
    assert_eq!(Entry::value_len_from_slice(&[3, 0x82, 0x01]), Some((130, 2)));
    assert_eq!(Entry::value_len_from_slice(&[3]), None);
    assert_eq!(Entry::value_len_from_slice(&[3, 0x82]), None);
    assert!(matches!(Entry::from_slice(&[3, 0x82]), Err(EntryError::Corruption)));
}
