//! Record codec and recovery-scan behaviour on concrete byte sequences.
use bitcask::CRC_OFFSET;
use bitcask::CRC_SIZE;
use bitcask::DataFile;
use bitcask::DecodeResult;
use bitcask::KEY_OFFSET;
use bitcask::KeyDir;
use bitcask::LogIterator;
use bitcask::LogReader;
use bitcask::byte_to_entry;
use bitcask::byte_to_header;
use bitcask::create_entry;
use bitcask::load_from_data_file;
use bitcask::read_range;
use bitcask::rebuild_storage;

#[test]
fn create_entry_writes_exact_record_bytes() {
    let entry = create_entry(b"foo", b"bar", 5).unwrap();
    assert_eq!(entry.len(), 22);
    let mut expected = Vec::new();
    expected.extend_from_slice(&[0, 0, 0, 5]); // timestamp
    expected.extend_from_slice(&[0, 0, 0, 3]); // key length
    expected.extend_from_slice(&[0, 0, 0, 3]); // value length
    expected.extend_from_slice(b"foo");
    expected.extend_from_slice(b"bar");
    let crc = crc32fast::hash(&expected);
    let mut record = crc.to_be_bytes().to_vec();
    record.extend_from_slice(&expected);
    assert_eq!(entry, record);
}

#[test]
fn byte_to_entry_roundtrip() {
    let entry = create_entry(b"some key", b"some value", 1234).unwrap();
    match byte_to_entry(&entry, 0) {
        DecodeResult::Entry(e, next) => {
            assert_eq!(e.key, b"some key".to_vec());
            assert_eq!(e.val, b"some value".to_vec());
            assert_eq!(e.ts_tamp, 1234);
            assert_eq!(e.val_size, 10);
            assert_eq!(e.val_offset, (KEY_OFFSET + 8) as u32);
            assert_eq!(e.crc, entry[CRC_OFFSET..CRC_OFFSET + CRC_SIZE].to_vec());
            assert_eq!(next, entry.len());
        }
        _ => panic!("a valid record must decode"),
    }
}

#[test]
fn byte_to_entry_rejects_bad_crc() {
    let mut entry = create_entry(b"k", b"v", 7).unwrap();
    entry[0] ^= 0xFF;
    assert!(matches!(byte_to_entry(&entry, 0), DecodeResult::Corrupt));
}

#[test]
fn byte_to_entry_reports_end_and_truncation() {
    let entry = create_entry(b"k", b"v", 7).unwrap();
    assert!(matches!(byte_to_entry(&entry, entry.len()), DecodeResult::End));
    // a truncated tail is corruption, not a clean end
    let truncated = &entry[..entry.len() - 1];
    assert!(matches!(byte_to_entry(truncated, 0), DecodeResult::Corrupt));
    let short = &entry[..10];
    assert!(matches!(byte_to_entry(short, 0), DecodeResult::Corrupt));
}

#[test]
fn byte_to_header_builds_index_entry() {
    let entry = create_entry(b"foo", b"bar", 5).unwrap();
    let header = byte_to_header(&entry, 77).unwrap();
    assert_eq!(header.file_id, 77);
    assert_eq!(header.val_size, 3);
    assert_eq!(header.val_offset, (KEY_OFFSET + 3) as u32);
    assert_eq!(header.ts_tamp, 5);
    let mut bad = entry.clone();
    bad[6] ^= 1;
    assert!(byte_to_header(&bad, 77).is_none());
}

#[test]
fn log_iterator_walks_records() {
    let mut data = create_entry(b"a", b"1", 10).unwrap();
    data.extend_from_slice(&create_entry(b"b", b"22", 11).unwrap());
    let mut it = LogIterator::new(data);
    match it.next_entry() {
        DecodeResult::Entry(e, _) => {
            assert_eq!(e.key, b"a".to_vec());
            assert_eq!(e.val, b"1".to_vec());
        }
        _ => panic!("first record must decode"),
    }
    match it.next_entry() {
        DecodeResult::Entry(e, _) => {
            assert_eq!(e.key, b"b".to_vec());
            assert_eq!(e.val, b"22".to_vec());
        }
        _ => panic!("second record must decode"),
    }
    assert!(matches!(it.next_entry(), DecodeResult::End));
}

#[test]
fn log_reader_reads_exact_range() {
    let entry = create_entry(b"foo", b"bar", 5).unwrap();
    let reader = LogReader::new(entry);
    let val = reader.read((KEY_OFFSET + 3) as u32, 3).unwrap();
    assert_eq!(val, b"bar".to_vec());
}

#[test]
fn read_range_rejects_out_of_bounds() {
    let data = vec![1u8, 2, 3, 4];
    assert_eq!(read_range(&data, 0, 4).unwrap(), data);
    assert_eq!(read_range(&data, 2, 3), Err(bitcask::BitcaskError::IOError));
    assert_eq!(read_range(&data, 5, 0), Err(bitcask::BitcaskError::IOError));
}

#[test]
fn load_from_data_file_replays_records() {
    let mut data = create_entry(b"a", b"old", 1).unwrap();
    data.extend_from_slice(&create_entry(b"b", b"kept", 2).unwrap());
    data.extend_from_slice(&create_entry(b"a", b"new", 3).unwrap());
    data.extend_from_slice(&create_entry(b"b", &[8], 4).unwrap()); // tombstone
    let mut key_dir = KeyDir::new();
    let clean = load_from_data_file(9, &data, &mut key_dir);
    assert!(clean);
    let h = key_dir.get(b"a").unwrap();
    assert_eq!(h.file_id, 9);
    assert_eq!(h.val_size, 3);
    assert_eq!(h.ts_tamp, 3);
    assert!(key_dir.get(b"b").is_none());
}

#[test]
fn rebuild_storage_prefers_newest_file() {
    let mut old_file = create_entry(b"k", b"old", 1).unwrap();
    old_file.extend_from_slice(&create_entry(b"only_old", b"o", 1).unwrap());
    let new_file = create_entry(b"k", b"new", 2).unwrap();
    let files = vec![
        DataFile { file_id: 1, data: old_file },
        DataFile { file_id: 2, data: new_file },
    ];
    let key_dir = rebuild_storage(&files);
    let h = key_dir.get(b"k").unwrap();
    assert_eq!(h.file_id, 2);
    assert_eq!(h.val_size, 3);
    let h2 = key_dir.get(b"only_old").unwrap();
    assert_eq!(h2.file_id, 1);
}

#[test]
fn corruption_excludes_record_and_rest() {
    let r1 = create_entry(b"a", b"1", 1).unwrap();
    let r2 = create_entry(b"b", b"2", 2).unwrap();
    let r3 = create_entry(b"c", b"3", 3).unwrap();
    let mut data = r1.clone();
    data.extend_from_slice(&r2);
    data.extend_from_slice(&r3);
    // flip every single bit of the second record outside its leading CRC
    // field: the record and everything after it must drop out of the index
    for pos in r1.len() + CRC_SIZE..r1.len() + r2.len() {
        for bit in 0..8 {
            let mut corrupted = data.clone();
            corrupted[pos] ^= 1 << bit;
            let mut key_dir = KeyDir::new();
            let clean = load_from_data_file(1, &corrupted, &mut key_dir);
            assert!(!clean);
            assert!(key_dir.get(b"a").is_some());
            assert!(key_dir.get(b"b").is_none());
            assert!(key_dir.get(b"c").is_none());
        }
    }
}
