//! End-to-end behaviour of the store: puts, gets, deletes, recovery,
//! rollover and expiry.
use bitcask::CRC_OFFSET;
use bitcask::CRC_SIZE;
use bitcask::Config;
use bitcask::DataFile;
use bitcask::DecodeResult;
use bitcask::FsBackend;
use bitcask::FsReader;
use bitcask::FsWriter;
use bitcask::Handle;
use bitcask::KEY_OFFSET;
use bitcask::KEY_SIZE_OFFSET;
use bitcask::KeyDir;
use bitcask::LogIterator;
use bitcask::LogReader;
use bitcask::LogWriter;
use bitcask::Reader;
use bitcask::StoreAction;
use bitcask::VAL_SIZE_OFFSET;
use bitcask::Writer;
use bitcask::timestamp;

fn fresh(conf: Config) -> Handle {
    Handle::open(conf, Vec::new()).unwrap()
}

#[test]
fn it_should_load_cask_from_file() {
    let cask_result = Handle::open(Config::default(), Vec::new());
    assert!(cask_result.is_ok());
    assert_eq!(0, cask_result.unwrap().position());
}

#[test]
fn it_should_put_to_file() {
    let mut write_cask = fresh(Config::default());
    let key = b"foo";
    let val = b"bar";

    write_cask.put(key, val).unwrap();

    let total = (KEY_OFFSET + key.len() + val.len()) as u32;
    let payload = write_cask.read(write_cask.file_id(), 0, total).unwrap();

    let payload_without_crc = payload[CRC_OFFSET + CRC_SIZE..].to_vec();
    let checksum = crc32fast::hash(&payload_without_crc);
    assert_eq!(
        u32::from_be_bytes(payload[CRC_OFFSET..CRC_OFFSET + CRC_SIZE].try_into().unwrap()),
        checksum
    );

    assert_eq!(
        u32::from_be_bytes(payload[KEY_SIZE_OFFSET..VAL_SIZE_OFFSET].try_into().unwrap()),
        key.len() as u32
    );
    assert_eq!(
        u32::from_be_bytes(payload[VAL_SIZE_OFFSET..KEY_OFFSET].try_into().unwrap()),
        val.len() as u32
    );

    assert_eq!(payload[KEY_OFFSET..KEY_OFFSET + key.len()], *key.as_slice());

    let val_offset = KEY_OFFSET + key.len();
    assert_eq!(payload[val_offset..val_offset + val.len()], *val.as_slice());

    let header = write_cask.lookup(key).unwrap();
    assert_eq!(header.file_id, write_cask.file_id());
    assert_eq!(header.val_size, val.len() as u32);
    assert_eq!(header.val_offset, (KEY_OFFSET + key.len()).try_into().unwrap());
    assert_eq!(write_cask.position(), (KEY_OFFSET + key.len() + val.len()).try_into().unwrap());
}

#[test]
fn fs_store_it_should_get() {
    let mut cask = fresh(Config::default());
    let pairs: Vec<(&[u8], &[u8])> = vec![
        (b"key1", b"val1"),
        (b"key2", b"val2"),
        (b"key1", b"val3"),
    ];
    for (key, val) in pairs {
        cask.put(key, val).unwrap();
        let actual = cask.get(key).unwrap().unwrap();
        assert_eq!(val, actual.as_slice());
    }
}

#[test]
fn fs_store_it_should_delete() {
    let mut cask = fresh(Config::default());
    cask.put(b"k1", b"v1").unwrap();
    assert!(cask.delete(b"k1").is_ok());
    assert!(cask.get(b"k1").unwrap().is_none());
}

#[test]
fn it_should_create_new_log() {
    let writer = LogWriter::new(Config::default(), KeyDir::new(), Vec::new()).unwrap();
    assert_eq!(0, writer.position());
    assert_ne!(0, writer.file_id());
}

#[test]
fn it_should_write_to_file() {
    let mut writer = LogWriter::new(Config::default(), KeyDir::new(), Vec::new()).unwrap();
    let key = b"foo";
    let val = b"bar";

    writer.put(key, val).unwrap();

    let total = (KEY_OFFSET + key.len() + val.len()) as u32;
    let payload = writer.read_from_file(writer.file_id(), 0, total).unwrap();

    let payload_without_crc = payload[CRC_OFFSET + CRC_SIZE..].to_vec();
    let checksum = crc32fast::hash(&payload_without_crc);
    assert_eq!(
        u32::from_be_bytes(payload[CRC_OFFSET..CRC_OFFSET + CRC_SIZE].try_into().unwrap()),
        checksum
    );

    assert_eq!(
        u32::from_be_bytes(payload[KEY_SIZE_OFFSET..VAL_SIZE_OFFSET].try_into().unwrap()),
        key.len() as u32
    );
    assert_eq!(
        u32::from_be_bytes(payload[VAL_SIZE_OFFSET..KEY_OFFSET].try_into().unwrap()),
        val.len() as u32
    );

    assert_eq!(payload[KEY_OFFSET..KEY_OFFSET + key.len()], *key.as_slice());

    let val_offset = KEY_OFFSET + key.len();
    assert_eq!(payload[val_offset..val_offset + val.len()], *val.as_slice());

    let header = writer.lookup(key).unwrap();
    assert_eq!(header.file_id, writer.file_id());
    assert_eq!(header.val_size, val.len() as u32);
    assert_eq!(header.val_offset, (KEY_OFFSET + key.len()).try_into().unwrap());
    assert_eq!(writer.position(), (KEY_OFFSET + key.len() + val.len()).try_into().unwrap());
}

#[test]
fn log_writer_it_should_get() {
    let mut writer = LogWriter::new(Config::default(), KeyDir::new(), Vec::new()).unwrap();
    let pairs: Vec<(&[u8], &[u8])> = vec![
        (b"key1", b"val1"),
        (b"key2", b"val2"),
        (b"key1", b"val3"),
    ];
    for (key, val) in pairs {
        writer.put(key, val).unwrap();
        let header = writer.lookup(key).unwrap();
        let data = writer.read_from_file(writer.file_id(), 0, writer.position()).unwrap();
        let reader = LogReader::new(data);
        let actual = reader.read(header.val_offset, header.val_size).unwrap();
        assert_eq!(val, actual.as_slice());
    }
}

#[test]
fn log_writer_it_should_delete() {
    let mut writer = LogWriter::new(Config::default(), KeyDir::new(), Vec::new()).unwrap();
    let key = b"k1";

    writer.put(key, b"val1").unwrap();

    assert!(writer.delete(key).is_ok());
    assert!(writer.lookup(key).is_none());
}

#[test]
fn round_trip_distinct_keys() {
    let mut cask = fresh(Config::default());
    for i in 0..20u32 {
        let key = format!("key_{}", i).into_bytes();
        let val = format!("val_{}", i).into_bytes();
        cask.put(&key, &val).unwrap();
    }
    for i in 0..20u32 {
        let key = format!("key_{}", i).into_bytes();
        let val = format!("val_{}", i).into_bytes();
        assert_eq!(cask.get(&key).unwrap(), Some(val));
    }
}

#[test]
fn last_writer_wins() {
    let mut cask = fresh(Config::default());
    cask.put(b"k", b"v1").unwrap();
    cask.put(b"k", b"v2").unwrap();
    assert_eq!(cask.get(b"k").unwrap(), Some(b"v2".to_vec()));
}

#[test]
fn delete_hides_key() {
    let mut cask = fresh(Config::default());
    cask.put(b"k", b"v").unwrap();
    cask.delete(b"k").unwrap();
    assert_eq!(cask.get(b"k").unwrap(), None);
}

#[test]
fn recovery_returns_all_keys() {
    let conf = Config { sync_on_put: true, ..Config::default() };
    let mut cask = fresh(conf);
    for i in 0..100u32 {
        let key = format!("key_{}", i).into_bytes();
        let val = format!("val_{}", i).into_bytes();
        cask.put(&key, &val).unwrap();
    }
    let files = cask.data_files();
    drop(cask);

    let conf = Config { sync_on_put: true, ..Config::default() };
    let mut reopened = Handle::open(conf, files).unwrap();
    for i in 0..100u32 {
        let key = format!("key_{}", i).into_bytes();
        let val = format!("val_{}", i).into_bytes();
        assert_eq!(reopened.get(&key).unwrap(), Some(val));
    }
}

#[test]
fn reopen_after_delete_stays_absent() {
    let mut cask = fresh(Config::default());
    cask.put(b"gone", b"v1").unwrap();
    cask.put(b"gone", b"v2").unwrap();
    cask.put(b"kept", b"v").unwrap();
    cask.delete(b"gone").unwrap();
    let files = cask.data_files();
    drop(cask);

    let mut reopened = Handle::open(Config::default(), files).unwrap();
    assert_eq!(reopened.get(b"gone").unwrap(), None);
    assert_eq!(reopened.get(b"kept").unwrap(), Some(b"v".to_vec()));
}

#[test]
fn rollover_preserves_keys() {
    let conf = Config { max_file_size: 128, ..Config::default() };
    let mut cask = fresh(conf);
    for i in 0..50u32 {
        let key = format!("key_{:02}", i).into_bytes();
        let val = format!("value_{:02}", i).into_bytes();
        cask.put(&key, &val).unwrap();
    }
    assert!(cask.data_files().len() >= 2);
    for i in 0..50u32 {
        let key = format!("key_{:02}", i).into_bytes();
        let val = format!("value_{:02}", i).into_bytes();
        assert_eq!(cask.get(&key).unwrap(), Some(val));
    }
}

#[test]
fn expiry_hides_old_entries() {
    let conf = Config { expiry_secs: 1, ..Config::default() };
    let mut cask = fresh(conf);
    cask.put(b"k", b"v").unwrap();
    let start = timestamp();
    while timestamp() < start + 2 {}
    assert_eq!(cask.get(b"k").unwrap(), None);

    // the expired read appended a tombstone for the key
    let files = cask.data_files();
    let mut tombstone_seen = false;
    for f in &files {
        let mut it = LogIterator::new(f.data.clone());
        loop {
            match it.next_entry() {
                DecodeResult::Entry(e, _) => {
                    if e.key == b"k".to_vec() && e.val == vec![8u8] {
                        tombstone_seen = true;
                    }
                }
                _ => break,
            }
        }
    }
    assert!(tombstone_seen);
}

#[test]
fn get_at_expires_deterministically() {
    let conf = Config { expiry_secs: 1, ..Config::default() };
    let mut cask = fresh(conf);
    cask.put(b"k", b"v").unwrap();
    // queried as of the epoch, nothing is older than the window
    assert_eq!(cask.get_at(b"k", 0, 1).unwrap(), Some(b"v".to_vec()));
    // queried far in the future, the entry has expired and is deleted
    assert_eq!(cask.get_at(b"k", u32::MAX, 1).unwrap(), None);
    assert_eq!(cask.get(b"k").unwrap(), None);
}

#[test]
fn put_at_stamps_records() {
    let mut writer = LogWriter::new(Config::default(), KeyDir::new(), Vec::new()).unwrap();
    writer.put_at(b"k", b"v", 42, 1).unwrap();
    let header = writer.lookup(b"k").unwrap();
    assert_eq!(header.ts_tamp, 42);
    assert_eq!(header.val_offset, 17);
    assert_eq!(header.val_size, 1);
    writer.delete_at(b"k", 43, 1).unwrap();
    assert!(writer.lookup(b"k").is_none());
}

#[test]
fn actions_describe_appends() {
    let mut cask = fresh(Config::default());
    cask.put(b"foo", b"bar").unwrap();
    let actions = cask.take_actions();
    assert_eq!(actions.len(), 1);
    match &actions[0] {
        StoreAction::Append { file_id, bytes, sync } => {
            assert_eq!(*file_id, cask.file_id());
            assert_eq!(bytes.len(), KEY_OFFSET + 6);
            assert_eq!(&bytes[KEY_OFFSET..KEY_OFFSET + 3], b"foo");
            assert!(!*sync);
        }
        _ => panic!("a put must queue an append"),
    }
    assert!(cask.take_actions().is_empty());

    let conf = Config { max_file_size: 16, ..Config::default() };
    let mut small = fresh(conf);
    small.put(b"k", b"v").unwrap();
    let actions = small.take_actions();
    assert_eq!(actions.len(), 2);
    assert!(matches!(actions[0], StoreAction::Append { .. }));
    match &actions[1] {
        StoreAction::Roll { prev_file_id, new_file_id } => {
            assert!(new_file_id > prev_file_id);
            assert_eq!(*new_file_id, small.file_id());
        }
        _ => panic!("exceeding the threshold must queue a roll"),
    }
}

#[test]
fn traits_delegate() {
    let mut cask: Handle = <Handle as FsBackend>::open(Config::default()).unwrap();
    Writer::put(&mut cask, b"a", b"1").unwrap();
    assert_eq!(Reader::get(&mut cask, b"a").unwrap(), Some(b"1".to_vec()));
    Writer::delete(&mut cask, b"a").unwrap();
    assert_eq!(Reader::get(&mut cask, b"a").unwrap(), None);

    let before = cask.position();
    FsWriter::write_to_file(&mut cask, b"junk").unwrap();
    assert_eq!(cask.position(), before + 4);
    let fid = cask.file_id();
    let junk = FsReader::read_from_file(&mut cask, fid, before, 4).unwrap();
    assert_eq!(junk, b"junk".to_vec());

    let old_id = cask.file_id();
    FsBackend::new_active_file(&mut cask).unwrap();
    assert!(cask.file_id() > old_id);
    assert_eq!(cask.position(), 0);
    FsBackend::sync(&mut cask).unwrap();
}

#[test]
fn open_rejects_exhausted_file_ids() {
    let files = vec![DataFile { file_id: u64::MAX, data: Vec::new() }];
    match Handle::open(Config::default(), files) {
        Err(e) => assert_eq!(e, bitcask::BitcaskError::Overflow),
        Ok(_) => panic!("no file identifier above u64::MAX exists"),
    }
}
