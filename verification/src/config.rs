//! Store configuration.
use vstd::prelude::*;

verus! {

/// The options the store recognises.
#[derive(Clone, Debug)]
pub struct Config {
    /// The data directory. The engine itself never touches the file system;
    /// the I/O shell around it creates this directory and mirrors the
    /// engine's appends into it.
    pub path: String,
    /// If greater than zero, entries older than this many seconds are
    /// invisible to `get` and deleted when read.
    pub expiry_secs: u32,
    /// If true, every append is followed by a data sync.
    pub sync_on_put: bool,
    /// Roll the active file once its length exceeds this many bytes.
    pub max_file_size: u32,
}

impl Default for Config {
    /// An empty path, no expiry, no sync on put, and a one-mebibyte file
    /// size threshold.
    fn default() -> (r: Self)
        ensures
            r.path@ == Seq::<char>::empty(),
            r.expiry_secs == 0,
            r.sync_on_put == false,
            r.max_file_size == 0x10_0000,
    {
        Config {
            path: String::new(),
            expiry_secs: 0,
            sync_on_put: false,
            max_file_size: 0x10_0000,
        }
    }
}

} // verus!
