//! An embedded, persistent, log-structured key-value store in the Bitcask
//! style: writes append fixed-layout records to a log file, an in-memory key
//! directory maps each key to the location of its most recent value, and
//! startup recovery rebuilds the directory by replaying the log files.
//!
//! The store keeps a byte-exact model of every data file; an I/O shell
//! mirrors appended bytes to the file system and feeds recovered file
//! contents back in at startup.
use vstd::prelude::*;

mod cask;
mod config;
mod context;
mod error;
mod file_lock;
mod handle;
mod keydir;
mod laws;
mod log;
mod log_reader;
mod log_writer;
mod rebuild;
mod utils;

pub use cask::FsBackend;
pub use cask::FsReader;
pub use cask::FsWriter;
pub use cask::Reader;
pub use cask::Writer;
pub use config::Config;
pub use context::ReadContext;
pub use error::BitcaskError;
pub use file_lock::evaluate_lock_file;
pub use file_lock::is_dec_digits;
pub use file_lock::lock_verdict;
pub use file_lock::parse_pid;
pub use handle::Handle;
pub use handle::lemma_handle_files_sorted;
pub use handle::lemma_handle_recovery_faithful;
pub use handle::lemma_handle_rollover_preservation;
pub use keydir::Header;
pub use keydir::KeyDir;
pub use laws::apply_puts;
pub use laws::lemma_delete_visibility;
pub use laws::lemma_expiry;
pub use laws::lemma_last_writer_wins;
pub use laws::lemma_round_trip;
pub use laws::lemma_scan_stops;
pub use laws::put_keys_distinct;
pub use log::CRC_OFFSET;
pub use log::CRC_SIZE;
pub use log::DataFile;
pub use log::DecodeResult;
pub use log::KEY_OFFSET;
pub use log::KEY_SIZE;
pub use log::KEY_SIZE_OFFSET;
pub use log::LogEntry;
pub use log::LogIterator;
pub use log::ParsedRec;
pub use log::TOMBSTONE_MARKER_CHAR;
pub use log::TS_SIZE;
pub use log::VAL_SIZE;
pub use log::VAL_SIZE_OFFSET;
pub use log::byte_to_entry;
pub use log::byte_to_header;
pub use log::crc32_of;
pub use log::lemma_be32_at_spec;
pub use log::lemma_parsed_append_record;
pub use log::lemma_record_parses;
pub use log::lemma_record_prefix;
pub use log::parse_end;
pub use log::parsed_from;
pub use log::rec_at;
pub use log::rec_crc;
pub use log::rec_end;
pub use log::rec_key;
pub use log::rec_ksz;
pub use log::rec_ts;
pub use log::rec_val;
pub use log::rec_val_offset;
pub use log::rec_vsz;
pub use log::record_fits;
pub use log::record_valid;
pub use log::be32_at;
pub use log::spec_be32;
pub use log::spec_payload;
pub use log::spec_record;
pub use log_reader::LogReader;
pub use log_reader::read_range;
pub use log_writer::LogWriter;
pub use log_writer::StoreAction;
pub use log_writer::create_entry;
pub use log_writer::entry_locates;
pub use log_writer::file_data;
pub use log_writer::files_extend;
pub use log_writer::has_file;
pub use log_writer::is_record_append;
pub use log_writer::lemma_apply_files_locates;
pub use log_writer::lemma_file_idx_is;
pub use log_writer::lemma_located_preserved;
pub use log_writer::lemma_parsed_bounds;
pub use log_writer::lemma_recovery_faithful;
pub use log_writer::lemma_rollover_preservation;
pub use log_writer::located_val;
pub use log_writer::store_view;
pub use log_writer::total_file_bytes;
pub use rebuild::apply_file;
pub use rebuild::apply_files;
pub use rebuild::apply_rec;
pub use rebuild::apply_recs;
pub use rebuild::lemma_apply_files_last;
pub use rebuild::lemma_apply_recs_push;
pub use rebuild::file_ids_sorted;
pub use rebuild::header_of;
pub use rebuild::load_from_data_file;
pub use rebuild::rebuild_storage;
pub use rebuild::tombstone;
pub use utils::build_data_file_name;
pub use utils::check_expired;
pub use utils::dec_val;
pub use utils::expiry_time;
pub use utils::extract_data_file_ids;
pub use utils::ids_strictly_sorted;
pub use utils::is_expired;
pub use utils::name_file_id;
pub use utils::parse_data_file_name;
pub use utils::spec_dec_u64;
pub use utils::timestamp;
pub use utils::u64_to_dec;
