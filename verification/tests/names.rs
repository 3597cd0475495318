//! Data-file names, lock-file contents, and expiry arithmetic.
use bitcask::BitcaskError;
use bitcask::build_data_file_name;
use bitcask::check_expired;
use bitcask::evaluate_lock_file;
use bitcask::expiry_time;
use bitcask::extract_data_file_ids;
use bitcask::lock_verdict;
use bitcask::parse_data_file_name;
use bitcask::parse_pid;
use bitcask::u64_to_dec;

#[test]
fn u64_to_dec_formats() {
    assert_eq!(u64_to_dec(0), "0");
    assert_eq!(u64_to_dec(7), "7");
    assert_eq!(u64_to_dec(1234567890), "1234567890");
    assert_eq!(u64_to_dec(u64::MAX), "18446744073709551615");
}

#[test]
fn build_data_file_name_formats() {
    assert_eq!(build_data_file_name(1234567890), "1234567890.bitcask.data");
    assert_eq!(build_data_file_name(0), "0.bitcask.data");
}

#[test]
fn parse_data_file_name_cases() {
    assert_eq!(parse_data_file_name(b"123.bitcask.data"), Some(123));
    assert_eq!(parse_data_file_name(b"7.data"), Some(7));
    assert_eq!(parse_data_file_name(b"18446744073709551615.data"), Some(u64::MAX));
    // built names parse back to their identifier
    assert_eq!(
        parse_data_file_name(build_data_file_name(1714000000).as_bytes()),
        Some(1714000000)
    );
    assert_eq!(parse_data_file_name(b"pid.lock"), None);
    assert_eq!(parse_data_file_name(b".data"), None);
    assert_eq!(parse_data_file_name(b"12x.data"), None);
    assert_eq!(parse_data_file_name(b"12.bitcask.databank"), None);
    assert_eq!(parse_data_file_name(b"123"), None);
    // one past u64::MAX overflows and is discarded
    assert_eq!(parse_data_file_name(b"18446744073709551616.data"), None);
}

#[test]
fn extract_data_file_ids_sorts_and_dedups() {
    let names: Vec<Vec<u8>> = vec![
        b"9.bitcask.data".to_vec(),
        b"3.bitcask.data".to_vec(),
        b"pid.lock".to_vec(),
        b"3.bitcask.data".to_vec(),
        b"12x.data".to_vec(),
        b"7.bitcask.data".to_vec(),
    ];
    let ids = extract_data_file_ids(&names);
    assert_eq!(ids, vec![3, 7, 9]);
    let none: Vec<Vec<u8>> = Vec::new();
    assert!(extract_data_file_ids(&none).is_empty());
}

#[test]
fn parse_pid_cases() {
    assert_eq!(parse_pid(b"1234"), Some(1234));
    assert_eq!(parse_pid(b"0"), Some(0));
    assert_eq!(parse_pid(b"2147483647"), Some(i32::MAX));
    assert_eq!(parse_pid(b"2147483648"), None);
    assert_eq!(parse_pid(b""), None);
    assert_eq!(parse_pid(b"12a"), None);
    assert_eq!(parse_pid(b"-5"), None);
}

#[test]
fn evaluate_lock_file_cases() {
    assert_eq!(evaluate_lock_file(b"4321"), Ok(4321));
    assert_eq!(evaluate_lock_file(b""), Err(BitcaskError::StaleLock));
    assert_eq!(evaluate_lock_file(b"not a pid"), Err(BitcaskError::StaleLock));
}

#[test]
fn lock_verdict_cases() {
    assert_eq!(lock_verdict(true), Err(BitcaskError::LockContention));
    assert_eq!(lock_verdict(false), Ok(()));
}

#[test]
fn expiry_arithmetic() {
    assert_eq!(expiry_time(0), 0);
    // written at 100, window of 10: visible through 110, expired after
    assert!(!check_expired(100, 105, 10));
    assert!(!check_expired(100, 110, 10));
    assert!(check_expired(100, 111, 10));
    // expiry disabled: nothing expires
    assert!(!check_expired(0, u32::MAX, 0));
}

#[test]
fn error_variants_compare() {
    assert_eq!(BitcaskError::NotFound, BitcaskError::NotFound);
    assert_ne!(BitcaskError::IOError, BitcaskError::Overflow);
}
