//! The engine façade: one handle that owns the key directory, the writer
//! and the file models, and exposes `get`, `put` and `delete`.
use vstd::prelude::*;

use crate::cask::FsBackend;
use crate::cask::FsReader;
use crate::cask::FsWriter;
use crate::cask::Reader;
use crate::cask::Writer;
use crate::config::Config;
use crate::error::BitcaskError;
use crate::keydir::Header;
use crate::log::DataFile;
use crate::log_writer::LogWriter;
use crate::log_writer::StoreAction;
use crate::log_writer::entry_locates;
use crate::log_writer::file_data;
use crate::log_writer::files_extend;
use crate::log_writer::has_file;
use crate::log_writer::lemma_apply_files_locates;
use crate::log_writer::lemma_view_is_store_view;
use crate::log_writer::located_val;
use crate::log_writer::store_view;
use crate::rebuild::apply_files;
use crate::rebuild::file_ids_sorted;
use crate::rebuild::rebuild_storage;
use crate::rebuild::tombstone;
use crate::utils::check_expired;
use crate::utils::epoch_secs;
use crate::utils::is_expired;
use crate::utils::timestamp;

verus! {

/// A handle on an open store.
///
/// The handle holds a byte-exact model of every data file; an I/O shell
/// mirrors the queued [`StoreAction`]s into the real data directory and, at
/// startup, hands the directory's recovered file contents to
/// [`open`](Handle::open).
pub struct Handle {
    writer: LogWriter,
}

impl View for Handle {
    type V = Map<Seq<u8>, Seq<u8>>;

    /// The store's contents: each live key mapped to its value bytes.
    closed spec fn view(&self) -> Map<Seq<u8>, Seq<u8>> {
        self.writer@
    }
}

impl Handle {
    /// Structural soundness, preserved by every operation.
    pub closed spec fn wf(self) -> bool {
        self.writer.wf()
    }

    /// Replay soundness: rebuilding the directory from the files yields the
    /// live directory. See [`LogWriter::replay_ok`].
    pub closed spec fn replay_ok(self) -> bool {
        self.writer.replay_ok()
    }

    /// The key directory: key bytes to the location of the newest write.
    pub closed spec fn key_dir_view(self) -> Map<Seq<u8>, Header> {
        self.writer.key_dir_view()
    }

    /// The data files, oldest first; the last one is active.
    pub closed spec fn files_view(self) -> Seq<DataFile> {
        self.writer.files_view()
    }

    /// The configuration the store was opened with.
    pub closed spec fn spec_conf(self) -> Config {
        self.writer.spec_conf()
    }

    /// The identifier of the active file.
    pub closed spec fn spec_file_id(self) -> u64 {
        self.writer.spec_file_id()
    }

    /// The write position within the active file.
    pub closed spec fn spec_position(self) -> u32 {
        self.writer.spec_position()
    }

    /// The queued file-system work not yet drained by the I/O shell.
    pub closed spec fn actions_view(self) -> Seq<StoreAction> {
        self.writer.actions_view()
    }

    /// How the handle changes when one record for `key` and `val`, stamped
    /// `ts_tamp`, is appended; the counterpart of
    /// [`LogWriter::appended_frame`] over the handle's own state: the
    /// active file gains exactly the encoded record, an `Append` action for
    /// it is queued after the untouched earlier ones, and the file rolls —
    /// position zero, a strictly greater identifier, a queued `Roll` —
    /// exactly when the record pushed it past the size threshold, the
    /// position otherwise advancing by the record's length under an
    /// unchanged identifier.
    pub open spec fn appended_frame(self, post: Handle, key: Seq<u8>, val: Seq<u8>, ts_tamp: u32) -> bool {
        let reclen = 16 + key.len() + val.len();
        let rolls = self.spec_position() + reclen > self.spec_conf().max_file_size;
        &&& post.spec_conf() == self.spec_conf()
        &&& self.files_view().len() <= post.files_view().len() <= self.files_view().len() + 1
        &&& ((post.files_view().len() == self.files_view().len() + 1) <==> rolls)
        &&& files_extend(self.files_view(), post.files_view())
        &&& file_data(post.files_view(), self.spec_file_id()) == file_data(
            self.files_view(),
            self.spec_file_id(),
        ) + crate::log::spec_record(key, val, ts_tamp)
        &&& post.spec_position() as int <= post.spec_conf().max_file_size as int
        &&& (!rolls ==> (post.spec_file_id() == self.spec_file_id() && post.spec_position() as int
            == self.spec_position() + reclen))
        &&& (rolls ==> (post.spec_position() == 0 && post.spec_file_id() > self.spec_file_id()))
        &&& post.actions_view().len() == self.actions_view().len() + (if rolls {
            2int
        } else {
            1int
        })
        &&& (forall|j: int|
            0 <= j < self.actions_view().len() ==> post.actions_view()[j]
                == self.actions_view()[j])
        &&& crate::log_writer::is_record_append(
            post.actions_view()[self.actions_view().len() as int],
            self.spec_file_id(),
            key,
            val,
            ts_tamp,
            self.spec_conf().sync_on_put,
        )
        &&& (rolls ==> post.actions_view().last() == (StoreAction::Roll {
            prev_file_id: self.spec_file_id(),
            new_file_id: post.spec_file_id(),
        }))
    }

    /// A record for `key` and `val` can be appended now; see
    /// [`LogWriter::can_append`].
    pub open spec fn can_append(self, key: Seq<u8>, val: Seq<u8>) -> bool {
        &&& key.len() <= u32::MAX
        &&& val.len() <= u32::MAX
        &&& self.spec_position() + 16 + key.len() + val.len() <= u32::MAX
        &&& (self.spec_position() + 16 + key.len() + val.len() > self.spec_conf().max_file_size
            as int ==> self.spec_file_id() < u64::MAX)
    }

    /// Opens a store: rebuilds the key directory by replaying the recovered
    /// data files (handed in ascending file-identifier order) and opens a
    /// fresh active file with a strictly greater identifier.
    ///
    /// Fails only when no greater identifier exists.
    pub fn open(conf: Config, files: Vec<DataFile>) -> (r: Result<Handle, BitcaskError>)
        requires
            file_ids_sorted(files@),
        ensures
            (r is Ok) <==> !(files@.len() > 0 && files@.last().file_id == u64::MAX),
            match r {
                Ok(h) => {
                    &&& h.wf()
                    &&& h.replay_ok()
                    &&& h.spec_conf() == conf
                    &&& h.spec_position() == 0
                    &&& h.key_dir_view() == apply_files(Map::<Seq<u8>, Header>::empty(), files@)
                    &&& h@ == store_view(files@, apply_files(Map::<Seq<u8>, Header>::empty(), files@))
                    &&& files_extend(files@, h.files_view())
                    &&& h.files_view().len() == files@.len() + 1
                    &&& h.files_view() == files@.push(h.files_view().last())
                    &&& h.files_view().last().file_id == h.spec_file_id()
                    &&& h.files_view().last().data@ == Seq::<u8>::empty()
                    &&& (forall|i: int|
                        0 <= i < files@.len() ==> (#[trigger] files@[i]).file_id
                            < h.spec_file_id())
                    &&& h.actions_view().len() == 0
                },
                Err(e) => e == BitcaskError::Overflow,
            },
    {
        let key_dir = rebuild_storage(&files);
        proof {
            lemma_apply_files_locates(files@);
        }
        match LogWriter::new(conf, key_dir, files) {
            Ok(writer) => Ok(Handle { writer }),
            Err(e) => Err(e),
        }
    }

    /// Looks up `key` as of time `now`: absent keys yield `None`; an entry
    /// older than the expiry window is deleted (a tombstone stamped `now`
    /// is appended, `roll_seed` seeding a possible rollover) and yields
    /// `None`; otherwise the stored value bytes are returned.
    ///
    /// Fails only when the expired entry's tombstone cannot be appended.
    pub fn get_at(&mut self, key: &[u8], now: u32, roll_seed: u64) -> (r: Result<
        Option<Vec<u8>>,
        BitcaskError,
    >)
        requires
            old(self).wf(),
        ensures
            final(self).wf(),
            final(self).spec_conf() == old(self).spec_conf(),
            match r {
                Ok(opt) => {
                    &&& (!old(self).key_dir_view().contains_key(key@) ==> (opt is None && *final(self) == *old(self)))
                    &&& ((old(self).key_dir_view().contains_key(key@) && !is_expired(
                        old(self).key_dir_view()[key@].ts_tamp,
                        now,
                        old(self).spec_conf().expiry_secs,
                    )) ==> (*final(self) == *old(self) && (opt matches Some(v) && v@ == old(self)@[key@])))
                    &&& ((old(self).key_dir_view().contains_key(key@) && is_expired(
                        old(self).key_dir_view()[key@].ts_tamp,
                        now,
                        old(self).spec_conf().expiry_secs,
                    )) ==> (opt is None && final(self)@ == old(self)@.remove(key@) && final(self).key_dir_view() == old(self).key_dir_view().remove(key@) && old(self).appended_frame(
                        *final(self),
                        key@,
                        tombstone(),
                        now,
                    ) && (old(self).replay_ok() ==> final(self).replay_ok())))
                },
                Err(e) => {
                    &&& e == BitcaskError::Overflow
                    &&& old(self).key_dir_view().contains_key(key@)
                    &&& is_expired(
                        old(self).key_dir_view()[key@].ts_tamp,
                        now,
                        old(self).spec_conf().expiry_secs,
                    )
                    &&& !old(self).can_append(key@, tombstone())
                    &&& *final(self) == *old(self)
                },
            },
    {
        let ghost o = *self;
        let expiry_secs = self.writer.conf().expiry_secs;
        match self.writer.lookup(key) {
            None => Ok(None),
            Some(h) => {
                if check_expired(h.ts_tamp, now, expiry_secs) {
                    match self.writer.delete_at(key, now, roll_seed) {
                        Ok(_) => {
                            proof {
                                assert(o.appended_frame(*self, key@, tombstone(), now));
                            }
                            Ok(None)
                        },
                        Err(e) => Err(e),
                    }
                } else {
                    let v = self.writer.read_located(h);
                    proof {
                        lemma_view_is_store_view(o.writer);
                        assert(o@[key@] == located_val(o.files_view(), o.key_dir_view()[key@]));
                    }
                    Ok(Some(v))
                }
            },
        }
    }

    /// Looks up the newest value for `key`, taking the current time from
    /// the clock. An entry older than the expiry window is deleted and
    /// reported absent.
    pub fn get(&mut self, key: &[u8]) -> (r: Result<Option<Vec<u8>>, BitcaskError>)
        requires
            old(self).wf(),
        ensures
            final(self).wf(),
            final(self).spec_conf() == old(self).spec_conf(),
            match r {
                Ok(opt) => {
                    &&& (!old(self).key_dir_view().contains_key(key@) ==> (opt is None && *final(self) == *old(self)))
                    &&& (opt matches Some(v) ==> (old(self).key_dir_view().contains_key(key@)
                        && v@ == old(self)@[key@] && *final(self) == *old(self)))
                    &&& ((opt is None && old(self).key_dir_view().contains_key(key@)) ==> (old(self).spec_conf().expiry_secs > 0 && final(self)@ == old(self)@.remove(key@)
                        && final(self).key_dir_view() == old(self).key_dir_view().remove(key@) && (
                    exists|t: u32| #![auto] old(self).appended_frame(*final(self), key@, tombstone(), t)) && (
                    old(self).replay_ok() ==> final(self).replay_ok())))
                    &&& (old(self).spec_conf().expiry_secs == 0 && old(self).key_dir_view().contains_key(key@) ==> opt is Some)
                },
                Err(e) => {
                    &&& e == BitcaskError::Overflow
                    &&& old(self).spec_conf().expiry_secs > 0
                    &&& old(self).key_dir_view().contains_key(key@)
                    &&& *final(self) == *old(self)
                },
            },
    {
        let now = timestamp();
        let seed = epoch_secs();
        let ghost o = *self;
        let r = self.get_at(key, now, seed);
        proof {
            if r is Ok && o.key_dir_view().contains_key(key@) && is_expired(
                o.key_dir_view()[key@].ts_tamp,
                now,
                o.spec_conf().expiry_secs,
            ) {
                assert(o.appended_frame(*self, key@, tombstone(), now));
            }
        }
        r
    }

    /// Records `val` as the newest value for `key`: appends one record and
    /// updates the key directory, rolling the active file if its length now
    /// exceeds the threshold.
    pub fn put(&mut self, key: &[u8], val: &[u8]) -> (r: Result<(), BitcaskError>)
        requires
            old(self).wf(),
        ensures
            final(self).wf(),
            final(self).spec_conf() == old(self).spec_conf(),
            (r is Ok) <==> old(self).can_append(key@, val@),
            match r {
                Ok(_) => {
                    &&& final(self)@ == old(self)@.insert(key@, val@)
                    &&& (exists|t: u32|
                        #![auto]
                        {
                            &&& old(self).appended_frame(*final(self), key@, val@, t)
                            &&& final(self).key_dir_view() == old(self).key_dir_view().insert(
                                key@,
                                Header {
                                    file_id: old(self).spec_file_id(),
                                    val_size: val@.len() as u32,
                                    val_offset: (old(self).spec_position() + 16
                                        + key@.len()) as u32,
                                    ts_tamp: t,
                                },
                            )
                        })
                    &&& ((old(self).replay_ok() && val@ != tombstone()) ==> final(self).replay_ok())
                },
                Err(e) => {
                    &&& e == BitcaskError::Overflow
                    &&& *final(self) == *old(self)
                },
            },
    {
        let ghost o = *self;
        let r = self.writer.put(key, val);
        proof {
            if r is Ok {
                let t = choose|t: u32|
                    #![auto]
                    {
                        &&& o.writer.appended_frame(self.writer, key@, val@, t)
                        &&& self.writer.key_dir_view() == o.writer.key_dir_view().insert(
                            key@,
                            Header {
                                file_id: o.writer.spec_file_id(),
                                val_size: val@.len() as u32,
                                val_offset: (o.writer.spec_position() + 16 + key@.len()) as u32,
                                ts_tamp: t,
                            },
                        )
                    };
                assert(o.appended_frame(*self, key@, val@, t));
            }
        }
        r
    }

    /// Removes `key`: appends a tombstone record and drops the key from
    /// the directory.
    pub fn delete(&mut self, key: &[u8]) -> (r: Result<(), BitcaskError>)
        requires
            old(self).wf(),
        ensures
            final(self).wf(),
            final(self).spec_conf() == old(self).spec_conf(),
            (r is Ok) <==> old(self).can_append(key@, tombstone()),
            match r {
                Ok(_) => {
                    &&& final(self)@ == old(self)@.remove(key@)
                    &&& final(self).key_dir_view() == old(self).key_dir_view().remove(key@)
                    &&& (exists|t: u32| #![auto] old(self).appended_frame(*final(self), key@, tombstone(), t))
                    &&& (old(self).replay_ok() ==> final(self).replay_ok())
                },
                Err(e) => {
                    &&& e == BitcaskError::Overflow
                    &&& *final(self) == *old(self)
                },
            },
    {
        let ghost o = *self;
        let r = self.writer.delete(key);
        proof {
            if r is Ok {
                let t = choose|t: u32|
                    #![auto]
                    o.writer.appended_frame(self.writer, key@, tombstone(), t);
                assert(o.appended_frame(*self, key@, tombstone(), t));
            }
        }
        r
    }

    /// Reads `size` bytes at `offset` from the file named by `file_id`.
    pub fn read(&self, file_id: u64, offset: u32, size: u32) -> (r: Result<Vec<u8>, BitcaskError>)
        requires
            self.wf(),
        ensures
            match r {
                Ok(v) => {
                    &&& has_file(self.files_view(), file_id)
                    &&& offset + size <= file_data(self.files_view(), file_id).len()
                    &&& v@ == file_data(self.files_view(), file_id).subrange(
                        offset as int,
                        offset + size,
                    )
                },
                Err(e) => {
                    &&& e == BitcaskError::IOError
                    &&& (!has_file(self.files_view(), file_id) || offset + size > file_data(
                        self.files_view(),
                        file_id,
                    ).len())
                },
            },
    {
        self.writer.read_from_file(file_id, offset, size)
    }

    /// The identifier of the active file.
    pub fn file_id(&self) -> (r: u64)
        ensures
            r == self.spec_file_id(),
    {
        self.writer.file_id()
    }

    /// Looks up the location of the most recent value for `key`.
    pub fn lookup(&self, key: &[u8]) -> (r: Option<Header>)
        requires
            self.wf(),
        ensures
            match r {
                Some(h) => {
                    &&& self.key_dir_view().contains_key(key@)
                    &&& h == self.key_dir_view()[key@]
                },
                None => !self.key_dir_view().contains_key(key@),
            },
    {
        self.writer.lookup(key)
    }

    /// Copies of the data files, oldest first — what the data directory
    /// holds once the I/O shell has mirrored every queued action.
    pub fn data_files(&self) -> (r: Vec<DataFile>)
        ensures
            r@.len() == self.files_view().len(),
            forall|i: int|
                0 <= i < r@.len() ==> (#[trigger] r@[i]).file_id == self.files_view()[i].file_id
                    && r@[i].data@ == self.files_view()[i].data@,
            self.wf() ==> file_ids_sorted(r@),
    {
        self.writer.data_files()
    }

    /// The write position within the active file.
    pub fn position(&self) -> (r: u32)
        ensures
            r == self.spec_position(),
    {
        self.writer.position()
    }

    /// Hands the queued file-system work to the I/O shell, leaving the
    /// queue empty.
    pub fn take_actions(&mut self) -> (r: Vec<StoreAction>)
        ensures
            r@ == old(self).actions_view(),
            final(self).actions_view() == Seq::<StoreAction>::empty(),
            final(self).wf() == old(self).wf(),
            final(self).replay_ok() == old(self).replay_ok(),
            final(self)@ == old(self)@,
            final(self).key_dir_view() == old(self).key_dir_view(),
            final(self).files_view() == old(self).files_view(),
            final(self).spec_conf() == old(self).spec_conf(),
            final(self).spec_file_id() == old(self).spec_file_id(),
            final(self).spec_position() == old(self).spec_position(),
    {
        self.writer.take_actions()
    }
}

/// A well-formed handle's file identifiers strictly increase, so the files
/// it exports can be handed back to [`Handle::open`], which demands its
/// input sorted.
pub proof fn lemma_handle_files_sorted(h: Handle)
    requires
        h.wf(),
    ensures
        file_ids_sorted(h.files_view()),
{
    h.writer.lemma_wf_files_sorted();
}

/// Recovery faithfulness at the handle level: in a replay-sound state — as
/// every state reached from [`Handle::open`] through `put`, `delete` and
/// `get` alone is — replaying the handle's data files from scratch rebuilds
/// exactly its live key directory, and the store view built from that
/// rebuilt directory equals the live contents: a reopened store answers
/// every `get` as the live one did.
pub proof fn lemma_handle_recovery_faithful(h: Handle)
    requires
        h.wf(),
        h.replay_ok(),
    ensures
        apply_files(Map::<Seq<u8>, Header>::empty(), h.files_view()) == h.key_dir_view(),
        store_view(h.files_view(), apply_files(Map::<Seq<u8>, Header>::empty(), h.files_view()))
            == h@,
{
    crate::log_writer::lemma_recovery_faithful(h.writer);
}

/// Rollover preservation at the handle level: once the files hold more
/// bytes than the size threshold while the active file is within it — as
/// it is after every successful `put` — at least two data files exist, and
/// every live key still locates its value bytes inside one of them.
pub proof fn lemma_handle_rollover_preservation(h: Handle)
    requires
        h.wf(),
        h.spec_position() <= h.spec_conf().max_file_size,
        crate::log_writer::total_file_bytes(h.files_view()) > h.spec_conf().max_file_size,
    ensures
        h.files_view().len() >= 2,
        forall|k: Seq<u8>|
            #[trigger] h.key_dir_view().contains_key(k) ==> entry_locates(
                h.files_view(),
                h.key_dir_view()[k],
            ) && h@[k] == located_val(h.files_view(), h.key_dir_view()[k]),
{
    crate::log_writer::lemma_rollover_preservation(h.writer);
}

impl Reader for Handle {
    open spec fn inv(&self) -> bool {
        self.wf()
    }

    fn get(&mut self, key: &[u8]) -> (r: Result<Option<Vec<u8>>, BitcaskError>) {
        self.get(key)
    }
}

impl Writer for Handle {
    open spec fn inv(&self) -> bool {
        self.wf()
    }

    fn put(&mut self, key: &[u8], val: &[u8]) -> (r: Result<(), BitcaskError>) {
        self.put(key, val)
    }

    fn delete(&mut self, key: &[u8]) -> (r: Result<(), BitcaskError>) {
        self.delete(key)
    }
}

impl FsBackend for Handle {
    open spec fn inv(&self) -> bool {
        self.wf()
    }

    fn open(conf: Config) -> (r: Result<Self, BitcaskError>) {
        let files: Vec<DataFile> = Vec::new();
        Handle::open(conf, files)
    }

    fn new_active_file(&mut self) -> (r: Result<(), BitcaskError>) {
        self.writer.new_active_file()
    }

    fn sync(&mut self) -> (r: Result<(), BitcaskError>) {
        self.writer.sync()
    }
}

impl FsReader for Handle {
    open spec fn inv(&self) -> bool {
        self.wf()
    }

    fn read_from_file(&mut self, file_id: u64, offset: u32, size: u32) -> (r: Result<
        Vec<u8>,
        BitcaskError,
    >) {
        self.writer.read_from_file(file_id, offset, size)
    }
}

impl FsWriter for Handle {
    open spec fn inv(&self) -> bool {
        self.wf()
    }

    fn write_to_file(&mut self, buf: &[u8]) -> (r: Result<(), BitcaskError>) {
        match self.writer.write_to_file(buf) {
            Ok(_) => Ok(()),
            Err(e) => Err(e),
        }
    }
}

} // verus!
