//! The store's programmatic surface, as traits a storage backend
//! implements.
use vstd::prelude::*;

use crate::config::Config;
use crate::error::BitcaskError;

verus! {

/// The read side of a store.
pub trait Reader {
    /// The state in which the reader may be used.
    spec fn inv(&self) -> bool;

    /// Looks up the newest value written for `key`, if any.
    fn get(&mut self, key: &[u8]) -> (r: Result<Option<Vec<u8>>, BitcaskError>)
        requires
            old(self).inv(),
        ensures
            final(self).inv(),
    ;
}

/// The write side of a store.
pub trait Writer {
    /// The state in which the writer may be used.
    spec fn inv(&self) -> bool;

    /// Records `val` as the newest value for `key`.
    fn put(&mut self, key: &[u8], val: &[u8]) -> (r: Result<(), BitcaskError>)
        requires
            old(self).inv(),
        ensures
            final(self).inv(),
    ;

    /// Removes `key` from the store.
    fn delete(&mut self, key: &[u8]) -> (r: Result<(), BitcaskError>)
        requires
            old(self).inv(),
        ensures
            final(self).inv(),
    ;
}

/// Lifecycle operations of a file-backed store.
pub trait FsBackend where Self: Sized {
    /// The state in which the backend may be used.
    spec fn inv(&self) -> bool;

    /// Opens a store over an empty data directory.
    fn open(conf: Config) -> (r: Result<Self, BitcaskError>)
        ensures
            r matches Ok(s) ==> s.inv(),
    ;

    /// Seals the active file and starts a fresh one.
    fn new_active_file(&mut self) -> (r: Result<(), BitcaskError>)
        requires
            old(self).inv(),
        ensures
            final(self).inv(),
    ;

    /// Flushes the active file to durable storage.
    fn sync(&mut self) -> (r: Result<(), BitcaskError>)
        requires
            old(self).inv(),
        ensures
            final(self).inv(),
    ;
}

/// Random access reads against the store's data files.
pub trait FsReader {
    /// The state in which the reader may be used.
    spec fn inv(&self) -> bool;

    /// Reads `size` bytes at `offset` from the file named by `file_id`.
    fn read_from_file(&mut self, file_id: u64, offset: u32, size: u32) -> (r: Result<
        Vec<u8>,
        BitcaskError,
    >)
        requires
            old(self).inv(),
        ensures
            final(self).inv(),
    ;
}

/// Raw appends to the store's active file.
pub trait FsWriter {
    /// The state in which the writer may be used.
    spec fn inv(&self) -> bool;

    /// Appends `buf` to the active file.
    fn write_to_file(&mut self, buf: &[u8]) -> (r: Result<(), BitcaskError>)
        requires
            old(self).inv(),
        ensures
            final(self).inv(),
    ;
}

} // verus!
