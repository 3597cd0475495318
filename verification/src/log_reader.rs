//! Random access reads over one data file.
use vstd::prelude::*;
use vstd::slice::slice_subrange;
use vstd::slice::slice_to_vec;

use crate::error::BitcaskError;

verus! {

/// Copies `size` bytes starting at `offset` out of `data`.
///
/// Fails exactly when the requested range reaches past the end of the data,
/// as a short read from a file would.
pub fn read_range(data: &[u8], offset: u32, size: u32) -> (r: Result<Vec<u8>, BitcaskError>)
    ensures
        match r {
            Ok(v) => {
                &&& offset + size <= data@.len()
                &&& v@ == data@.subrange(offset as int, offset + size)
            },
            Err(e) => {
                &&& e == BitcaskError::IOError
                &&& offset + size > data@.len()
            },
        },
{
    let len = data.len();
    if (offset as u64) + (size as u64) > (len as u64) {
        return Err(BitcaskError::IOError);
    }
    let start = offset as usize;
    let end = start + size as usize;
    Ok(slice_to_vec(slice_subrange(data, start, end)))
}

/// A reader for one data file: it owns the file's bytes and serves
/// `(offset, size)` lookups against them.
pub struct LogReader {
    data: Vec<u8>,
}

impl View for LogReader {
    type V = Seq<u8>;

    closed spec fn view(&self) -> Seq<u8> {
        self.data@
    }
}

impl LogReader {
    /// A reader over the given file contents.
    pub fn new(data: Vec<u8>) -> (r: Self)
        ensures
            r@ == data@,
    {
        LogReader { data }
    }

    /// Returns exactly `size` bytes starting at `offset`.
    pub fn read(&self, offset: u32, size: u32) -> (r: Result<Vec<u8>, BitcaskError>)
        ensures
            match r {
                Ok(v) => {
                    &&& offset + size <= self@.len()
                    &&& v@ == self@.subrange(offset as int, offset + size)
                },
                Err(e) => {
                    &&& e == BitcaskError::IOError
                    &&& offset + size > self@.len()
                },
            },
    {
        read_range(self.data.as_slice(), offset, size)
    }
}

} // verus!
