//! The write path: owns the active file, appends encoded records, maintains
//! the write position and the key directory, and rolls to a fresh active
//! file when the size threshold is exceeded.
//!
//! The writer keeps a byte-exact in-memory model of every data file. Each
//! mutation also queues a [`StoreAction`] describing the file-system work an
//! I/O shell must mirror: which bytes to append to which file, when to sync,
//! and when to roll to a new file.
use vstd::prelude::*;
use vstd::slice::slice_subrange;
use vstd::slice::slice_to_vec;

use crate::config::Config;
use crate::log::TOMBSTONE_MARKER_CHAR;
use crate::log_reader::read_range;
use crate::error::BitcaskError;
use crate::keydir::Header;
use crate::keydir::KeyDir;
use crate::log::DataFile;
use crate::log::ParsedRec;
use crate::log::lemma_parsed_append_record;
use crate::log::lemma_record_parses;
use crate::log::parse_end;
use crate::log::parsed_from;
use crate::log::push_be32;
use crate::log::rec_at;
use crate::log::rec_end;
use crate::log::rec_vsz;
use crate::log::record_valid;
use crate::log::spec_payload;
use crate::log::spec_record;
use crate::log::crc32;
use crate::rebuild::apply_file;
use crate::rebuild::apply_files;
use crate::rebuild::apply_rec;
use crate::rebuild::apply_recs;
use crate::rebuild::file_ids_sorted;
use crate::rebuild::header_of;
use crate::rebuild::lemma_apply_files_last;
use crate::rebuild::lemma_apply_recs_push;
use crate::rebuild::tombstone;
use crate::utils::epoch_secs;
use crate::utils::timestamp;

verus! {

/// One piece of file-system work the engine has decided on, for the I/O
/// shell to mirror against the real data directory.
#[derive(Debug)]
pub enum StoreAction {
    /// Append `bytes` to the file named by `file_id`; if `sync`, follow the
    /// append with a data sync.
    Append { file_id: u64, bytes: Vec<u8>, sync: bool },
    /// Sync the file named by `prev_file_id` and open a fresh active file
    /// named by `new_file_id`.
    Roll { prev_file_id: u64, new_file_id: u64 },
    /// Sync the file named by `file_id`.
    Sync { file_id: u64 },
}

/// Encodes one record: checksum, timestamp, key length, value length, key
/// bytes, value bytes.
///
/// Fails exactly when a length does not fit its 32-bit on-disk field.
pub fn create_entry(key: &[u8], val: &[u8], ts_tamp: u32) -> (r: Result<Vec<u8>, BitcaskError>)
    ensures
        (r is Ok) <==> (key@.len() <= u32::MAX && val@.len() <= u32::MAX),
        match r {
            Ok(v) => {
                &&& v@ == spec_record(key@, val@, ts_tamp)
                &&& v@.len() == 16 + key@.len() + val@.len()
            },
            Err(e) => e == BitcaskError::Overflow,
        },
{
    if key.len() > u32::MAX as usize {
        return Err(BitcaskError::Overflow);
    }
    if val.len() > u32::MAX as usize {
        return Err(BitcaskError::Overflow);
    }
    let mut payload: Vec<u8> = Vec::new();
    push_be32(&mut payload, ts_tamp);
    push_be32(&mut payload, key.len() as u32);
    push_be32(&mut payload, val.len() as u32);
    payload.extend_from_slice(key);
    payload.extend_from_slice(val);
    proof {
        assert(payload@ =~= spec_payload(key@, val@, ts_tamp));
    }
    let checksum = crc32(payload.as_slice());
    let mut out: Vec<u8> = Vec::new();
    push_be32(&mut out, checksum);
    out.append(&mut payload);
    proof {
        assert(out@ =~= spec_record(key@, val@, ts_tamp));
    }
    Ok(out)
}

/// Some file of the sequence carries the identifier `file_id`.
pub open spec fn has_file(files: Seq<DataFile>, file_id: u64) -> bool {
    exists|i: int| 0 <= i < files.len() && (#[trigger] files[i]).file_id == file_id
}

/// The index of the file carrying `file_id` (unique when identifiers are
/// sorted).
pub open spec fn file_idx(files: Seq<DataFile>, file_id: u64) -> int {
    choose|i: int| 0 <= i < files.len() && (#[trigger] files[i]).file_id == file_id
}

/// The contents of the file carrying `file_id`.
pub open spec fn file_data(files: Seq<DataFile>, file_id: u64) -> Seq<u8> {
    files[file_idx(files, file_id)].data@
}

/// The header points into an existing file, wholly within its bounds.
pub open spec fn entry_locates(files: Seq<DataFile>, h: Header) -> bool {
    &&& has_file(files, h.file_id)
    &&& h.val_offset + h.val_size <= file_data(files, h.file_id).len()
}

/// The value bytes a header points at.
pub open spec fn located_val(files: Seq<DataFile>, h: Header) -> Seq<u8> {
    file_data(files, h.file_id).subrange(h.val_offset as int, h.val_offset + h.val_size)
}

/// The store's contents as a map from key to value bytes: each key of the
/// directory mapped to the bytes its header locates in the files.
pub open spec fn store_view(files: Seq<DataFile>, kd: Map<Seq<u8>, Header>) -> Map<
    Seq<u8>,
    Seq<u8>,
> {
    Map::new(|k: Seq<u8>| kd.contains_key(k), |k: Seq<u8>| located_val(files, kd[k]))
}

/// The action is an append of exactly one encoded record for `key` and
/// `val`, stamped `ts_tamp`, destined for the file named by `file_id`, with
/// the given sync demand.
pub open spec fn is_record_append(
    a: StoreAction,
    file_id: u64,
    key: Seq<u8>,
    val: Seq<u8>,
    ts_tamp: u32,
    sync: bool,
) -> bool {
    a matches StoreAction::Append { file_id: f, bytes: b, sync: s } && f == file_id && b@
        == spec_record(key, val, ts_tamp) && s == sync
}

/// `f2` has the files of `f1` (same identifiers, in order, each grown only
/// by appending), possibly followed by new files.
pub open spec fn files_extend(f1: Seq<DataFile>, f2: Seq<DataFile>) -> bool {
    &&& f1.len() <= f2.len()
    &&& forall|i: int|
        0 <= i < f1.len() ==> {
            &&& (#[trigger] f2[i]).file_id == f1[i].file_id
            &&& f1[i].data@.len() <= f2[i].data@.len()
            &&& f2[i].data@.subrange(0, f1[i].data@.len() as int) == f1[i].data@
        }
}

/// With sorted identifiers, the file found for `files[i].file_id` is
/// `files[i]` itself.
pub proof fn lemma_file_idx_is(files: Seq<DataFile>, i: int)
    requires
        file_ids_sorted(files),
        0 <= i < files.len(),
    ensures
        has_file(files, files[i].file_id),
        file_idx(files, files[i].file_id) == i,
{
    let fid = files[i].file_id;
    assert(has_file(files, fid));
    let j = file_idx(files, fid);
    assert(0 <= j < files.len() && files[j].file_id == fid);
    if j < i {
        assert(files[j].file_id < files[i].file_id);
    }
    if i < j {
        assert(files[i].file_id < files[j].file_id);
    }
}

/// Extending the files preserves where every located value lives and what
/// it holds.
pub proof fn lemma_located_preserved(f1: Seq<DataFile>, f2: Seq<DataFile>, h: Header)
    requires
        file_ids_sorted(f1),
        file_ids_sorted(f2),
        files_extend(f1, f2),
        entry_locates(f1, h),
    ensures
        entry_locates(f2, h),
        located_val(f2, h) == located_val(f1, h),
{
    let i = file_idx(f1, h.file_id);
    assert(0 <= i < f1.len() && f1[i].file_id == h.file_id);
    lemma_file_idx_is(f1, i);
    assert(f2[i].file_id == h.file_id);
    lemma_file_idx_is(f2, i);
    let d1 = f1[i].data@;
    let d2 = f2[i].data@;
    assert forall|x: int| 0 <= x < d1.len() implies #[trigger] d2[x] == d1[x] by {
        assert(d2.subrange(0, d1.len() as int)[x] == d2[x]);
        assert(d2.subrange(0, d1.len() as int)[x] == d1[x]);
    }
    assert(located_val(f2, h) =~= located_val(f1, h));
}

/// Every record a scan decodes lies wholly within the data it was decoded
/// from.
pub proof fn lemma_parsed_bounds(data: Seq<u8>, pos: int)
    ensures
        forall|i: int|
            0 <= i < parsed_from(data, pos).len() ==> {
                &&& (#[trigger] parsed_from(data, pos)[i]).val_offset + parsed_from(
                    data,
                    pos,
                )[i].val.len() <= data.len()
                &&& parsed_from(data, pos)[i].val.len() <= u32::MAX
            },
    decreases data.len() - pos,
{
    if pos < 0 || pos >= data.len() {
    } else if record_valid(data, pos) {
        let e = rec_end(data, pos);
        lemma_parsed_bounds(data, e);
        let r0 = rec_at(data, pos);
        assert(r0.val.len() == rec_vsz(data, pos));
        assert(r0.val_offset + r0.val.len() <= data.len());
        assert forall|i: int| 0 <= i < parsed_from(data, pos).len() implies {
            &&& (#[trigger] parsed_from(data, pos)[i]).val_offset + parsed_from(
                data,
                pos,
            )[i].val.len() <= data.len()
            &&& parsed_from(data, pos)[i].val.len() <= u32::MAX
        } by {
            if i == 0 {
                assert(parsed_from(data, pos)[0] == r0);
            } else {
                assert(parsed_from(data, pos)[i] == parsed_from(data, e)[i - 1]);
            }
        }
    }
}

/// Replaying records whose values lie within the file they came from keeps
/// every directory entry locating bytes inside an existing file.
proof fn lemma_apply_recs_locates(
    m0: Map<Seq<u8>, Header>,
    files: Seq<DataFile>,
    fid: u64,
    rs: Seq<ParsedRec>,
)
    requires
        has_file(files, fid),
        forall|k: Seq<u8>| #[trigger] m0.contains_key(k) ==> entry_locates(files, m0[k]),
        forall|i: int|
            0 <= i < rs.len() ==> {
                &&& (#[trigger] rs[i]).val_offset + rs[i].val.len() <= file_data(
                    files,
                    fid,
                ).len()
                &&& rs[i].val.len() <= u32::MAX
            },
    ensures
        forall|k: Seq<u8>|
            #[trigger] apply_recs(m0, fid, rs).contains_key(k) ==> entry_locates(
                files,
                apply_recs(m0, fid, rs)[k],
            ),
    decreases rs.len(),
{
    if rs.len() > 0 {
        let m1 = apply_rec(m0, fid, rs[0]);
        assert forall|k: Seq<u8>| #[trigger] m1.contains_key(k) implies entry_locates(
            files,
            m1[k],
        ) by {
            if rs[0].val != tombstone() && k == rs[0].key {
                assert(m1[k] == header_of(fid, rs[0]));
            } else {
                assert(m0.contains_key(k) && m1[k] == m0[k]);
            }
        }
        assert forall|i: int| 0 <= i < rs.drop_first().len() implies {
            &&& (#[trigger] rs.drop_first()[i]).val_offset + rs.drop_first()[i].val.len()
                <= file_data(files, fid).len()
            &&& rs.drop_first()[i].val.len() <= u32::MAX
        } by {
            assert(rs.drop_first()[i] == rs[i + 1]);
        }
        lemma_apply_recs_locates(m1, files, fid, rs.drop_first());
        assert(apply_recs(m0, fid, rs) == apply_recs(m1, fid, rs.drop_first()));
        assert forall|k: Seq<u8>| #[trigger] apply_recs(m0, fid, rs).contains_key(k) implies
        entry_locates(files, apply_recs(m0, fid, rs)[k]) by {
            assert(apply_recs(m1, fid, rs.drop_first()).contains_key(k));
        }
    } else {
        assert(apply_recs(m0, fid, rs) == m0);
        assert forall|k: Seq<u8>| #[trigger] apply_recs(m0, fid, rs).contains_key(k) implies
        entry_locates(files, apply_recs(m0, fid, rs)[k]) by {
            assert(m0.contains_key(k));
        }
    }
}

/// Every entry of the directory that replaying a sorted file sequence
/// produces locates bytes inside one of those files.
pub proof fn lemma_apply_files_locates(files: Seq<DataFile>)
    requires
        file_ids_sorted(files),
    ensures
        forall|k: Seq<u8>|
            #[trigger] apply_files(Map::<Seq<u8>, Header>::empty(), files).contains_key(k)
                ==> entry_locates(files, apply_files(Map::<Seq<u8>, Header>::empty(), files)[k]),
    decreases files.len(),
{
    let m_empty = Map::<Seq<u8>, Header>::empty();
    if files.len() > 0 {
        let pre = files.drop_last();
        let f = files.last();
        lemma_apply_files_locates(pre);
        lemma_apply_files_last(m_empty, files);
        let m_pre = apply_files(m_empty, pre);
        assert forall|i: int| 0 <= i < pre.len() implies {
            &&& (#[trigger] files[i]).file_id == pre[i].file_id
            &&& pre[i].data@.len() <= files[i].data@.len()
            &&& files[i].data@.subrange(0, pre[i].data@.len() as int) == pre[i].data@
        } by {
            assert(files[i] == pre[i]);
            assert(files[i].data@.subrange(0, pre[i].data@.len() as int) =~= pre[i].data@);
        }
        assert(files_extend(pre, files));
        assert forall|k: Seq<u8>| #[trigger] m_pre.contains_key(k) implies entry_locates(
            files,
            m_pre[k],
        ) by {
            lemma_located_preserved(pre, files, m_pre[k]);
        }
        lemma_file_idx_is(files, files.len() - 1);
        assert(file_data(files, f.file_id) == f.data@);
        lemma_parsed_bounds(f.data@, 0);
        lemma_apply_recs_locates(m_pre, files, f.file_id, parsed_from(f.data@, 0));
        assert(apply_files(m_empty, files) == apply_recs(m_pre, f.file_id, parsed_from(f.data@, 0)));
    }
}

/// The writer: the in-memory model of every data file (the last one
/// active), the write position, the key directory, and the queue of
/// file-system work for the I/O shell.
pub struct LogWriter {
    file_id: u64,
    position: u32,
    conf: Config,
    key_dir: KeyDir,
    files: Vec<DataFile>,
    actions: Vec<StoreAction>,
}

impl View for LogWriter {
    type V = Map<Seq<u8>, Seq<u8>>;

    /// The store's contents: each live key mapped to its value bytes.
    closed spec fn view(&self) -> Map<Seq<u8>, Seq<u8>> {
        store_view(self.files@, self.key_dir@)
    }
}

impl LogWriter {
    /// The identifier of the active file.
    pub closed spec fn spec_file_id(self) -> u64 {
        self.file_id
    }

    /// The write position: the length of the active file.
    pub closed spec fn spec_position(self) -> u32 {
        self.position
    }

    /// The configuration the writer was built with.
    pub closed spec fn spec_conf(self) -> Config {
        self.conf
    }

    /// The key directory: key bytes to the location of the newest write.
    pub closed spec fn key_dir_view(self) -> Map<Seq<u8>, Header> {
        self.key_dir@
    }

    /// The data files, oldest first; the last one is active.
    pub closed spec fn files_view(self) -> Seq<DataFile> {
        self.files@
    }

    /// The queued file-system work not yet drained by the I/O shell.
    pub closed spec fn actions_view(self) -> Seq<StoreAction> {
        self.actions@
    }

    /// Structural soundness: at least one file, identifiers strictly
    /// ascending, the active file last with the position at its end, and
    /// every directory entry locating bytes inside an existing file.
    pub closed spec fn wf(self) -> bool {
        &&& self.files@.len() >= 1
        &&& file_ids_sorted(self.files@)
        &&& self.file_id == self.files@.last().file_id
        &&& self.position as int == self.files@.last().data@.len()
        &&& self.key_dir.wf()
        &&& forall|k: Seq<u8>|
            #[trigger] self.key_dir@.contains_key(k) ==> entry_locates(
                self.files@,
                self.key_dir@[k],
            )
    }

    /// Replay soundness: rebuilding the directory from the files yields
    /// exactly the live directory, and the active file parses cleanly. It
    /// holds from startup on and is preserved by every operation except a
    /// `put` whose value equals the tombstone marker byte and a raw
    /// [`write_to_file`](Self::write_to_file).
    pub closed spec fn replay_ok(self) -> bool {
        &&& apply_files(Map::empty(), self.files@) == self.key_dir@
        &&& parse_end(self.files@.last().data@, 0) == self.files@.last().data@.len()
    }

    /// A record for `key` and `val` can be appended now: both lengths fit
    /// their 32-bit fields, the record ends within the 32-bit file offset
    /// range, and a rollover, if one would follow, can derive a fresh file
    /// identifier.
    pub open spec fn can_append(self, key: Seq<u8>, val: Seq<u8>) -> bool {
        &&& key.len() <= u32::MAX
        &&& val.len() <= u32::MAX
        &&& self.spec_position() + 16 + key.len() + val.len() <= u32::MAX
        &&& (self.spec_position() + 16 + key.len() + val.len()
            > self.spec_conf().max_file_size as int ==> self.spec_file_id() < u64::MAX)
    }

    /// How a writer changes when one record for `key` and `val`, stamped
    /// `ts_tamp`, is appended (as by `put` and `delete`): the then-active
    /// file gains exactly the encoded record and an `Append` action for it
    /// is queued after the existing ones; other keys' located values, all
    /// earlier file bytes and earlier actions are untouched; and the active
    /// file rolls — position zero, a strictly greater identifier, a queued
    /// `Roll` action — exactly when the record pushed it past the size
    /// threshold, the position otherwise advancing by the record's length
    /// under an unchanged identifier.
    pub open spec fn appended_frame(self, post: LogWriter, key: Seq<u8>, val: Seq<u8>, ts_tamp: u32) -> bool {
        let reclen = 16 + key.len() + val.len();
        let rolls = self.spec_position() + reclen > self.spec_conf().max_file_size;
        &&& post.spec_conf() == self.spec_conf()
        &&& self.files_view().len() <= post.files_view().len() <= self.files_view().len() + 1
        &&& ((post.files_view().len() == self.files_view().len() + 1) <==> rolls)
        &&& files_extend(self.files_view(), post.files_view())
        &&& file_data(post.files_view(), self.spec_file_id()) == file_data(
            self.files_view(),
            self.spec_file_id(),
        ) + spec_record(key, val, ts_tamp)
        &&& post.spec_position() as int <= post.spec_conf().max_file_size as int
        &&& (!rolls ==> (post.spec_file_id() == self.spec_file_id() && post.spec_position() as int
            == self.spec_position() + reclen))
        &&& (rolls ==> (post.spec_position() == 0 && post.spec_file_id() > self.spec_file_id()))
        &&& post.actions_view().len() == self.actions_view().len() + (if rolls {
            2int
        } else {
            1int
        })
        &&& (forall|j: int|
            0 <= j < self.actions_view().len() ==> post.actions_view()[j]
                == self.actions_view()[j])
        &&& is_record_append(
            post.actions_view()[self.actions_view().len() as int],
            self.spec_file_id(),
            key,
            val,
            ts_tamp,
            self.spec_conf().sync_on_put,
        )
        &&& (rolls ==> post.actions_view().last() == (StoreAction::Roll {
            prev_file_id: self.spec_file_id(),
            new_file_id: post.spec_file_id(),
        }))
    }

    /// Builds a writer over recovered files, opening a fresh active file
    /// whose identifier is `seed` or, if that does not exceed every
    /// recovered identifier, the greatest recovered identifier plus one.
    ///
    /// Fails only when no greater identifier exists.
    pub fn new_at(conf: Config, key_dir: KeyDir, files: Vec<DataFile>, seed: u64) -> (r: Result<
        LogWriter,
        BitcaskError,
    >)
        requires
            key_dir.wf(),
            file_ids_sorted(files@),
            key_dir@ == apply_files(Map::<Seq<u8>, Header>::empty(), files@),
            forall|k: Seq<u8>|
                #[trigger] key_dir@.contains_key(k) ==> entry_locates(files@, key_dir@[k]),
        ensures
            match r {
                Ok(w) => {
                    &&& w.wf()
                    &&& w.replay_ok()
                    &&& w.spec_conf() == conf
                    &&& w.spec_position() == 0
                    &&& w.key_dir_view() == key_dir@
                    &&& w.files_view().len() == files@.len() + 1
                    &&& files_extend(files@, w.files_view())
                    &&& w.actions_view().len() == 0
                    &&& (files@.len() == 0 ==> w.spec_file_id() == seed)
                    &&& (files@.len() > 0 ==> w.spec_file_id() == (if seed > files@.last().file_id {
                        seed as int
                    } else {
                        files@.last().file_id + 1
                    }))
                    &&& w.files_view() == files@.push(w.files_view().last())
                    &&& w.files_view().last().file_id == w.spec_file_id()
                    &&& w.files_view().last().data@ == Seq::<u8>::empty()
                    &&& (forall|i: int|
                        0 <= i < files@.len() ==> (#[trigger] files@[i]).file_id
                            < w.spec_file_id())
                    &&& w@ == store_view(files@, key_dir@)
                },
                Err(e) => {
                    &&& e == BitcaskError::Overflow
                    &&& files@.len() > 0
                    &&& files@.last().file_id == u64::MAX
                },
            },
    {
        let ghost old_files = files@;
        let mut files = files;
        let n = files.len();
        let file_id: u64 = if n == 0 {
            seed
        } else {
            let last_id = files[n - 1].file_id;
            if seed > last_id {
                seed
            } else {
                if last_id == u64::MAX {
                    return Err(BitcaskError::Overflow);
                }
                last_id + 1
            }
        };
        files.push(DataFile { file_id, data: Vec::new() });
        proof {
            assert(files@.last().file_id == file_id);
            assert(files@.last().data@.len() == 0);
            assert forall|i: int, j: int| 0 <= i < j < files@.len() implies (
            #[trigger] files@[i]).file_id < (#[trigger] files@[j]).file_id by {
                if j < files@.len() - 1 {
                    assert(old_files[i].file_id < old_files[j].file_id);
                } else {
                    assert(files@[i] == old_files[i]);
                    if i < old_files.len() - 1 {
                        assert(old_files[i].file_id < old_files[old_files.len() - 1].file_id);
                    }
                }
            }
            lemma_apply_files_last(Map::<Seq<u8>, Header>::empty(), files@);
            assert(files@.drop_last() =~= old_files);
            assert(parsed_from(files@.last().data@, 0) =~= Seq::<ParsedRec>::empty());
            assert(apply_file(apply_files(Map::<Seq<u8>, Header>::empty(), old_files), files@.last())
                == apply_files(Map::<Seq<u8>, Header>::empty(), old_files));
            assert(parse_end(files@.last().data@, 0) == 0);
            assert forall|i: int| 0 <= i < old_files.len() implies {
                &&& (#[trigger] files@[i]).file_id == old_files[i].file_id
                &&& old_files[i].data@.len() <= files@[i].data@.len()
                &&& files@[i].data@.subrange(0, old_files[i].data@.len() as int)
                    == old_files[i].data@
            } by {
                assert(files@[i] == old_files[i]);
                assert(files@[i].data@.subrange(0, old_files[i].data@.len() as int) =~= old_files[i].data@);
            }
            assert forall|k: Seq<u8>| #[trigger] key_dir@.contains_key(k) implies entry_locates(
                files@,
                key_dir@[k],
            ) by {
                lemma_located_preserved(old_files, files@, key_dir@[k]);
            }
        }
        let w = LogWriter { file_id, position: 0, conf, key_dir, files, actions: Vec::new() };
        proof {
            assert forall|k: Seq<u8>| #[trigger] key_dir@.contains_key(k) implies located_val(
                w.files@,
                key_dir@[k],
            ) == located_val(old_files, key_dir@[k]) by {
                lemma_located_preserved(old_files, w.files@, key_dir@[k]);
            }
            assert(w@ =~= store_view(old_files, key_dir@));
            assert(w.files@ == old_files.push(w.files@.last()));
            assert(w.files@.last().data@ =~= Seq::<u8>::empty());
            assert forall|i: int| 0 <= i < old_files.len() implies (
            #[trigger] old_files[i]).file_id < file_id by {
                assert(w.files@[i].file_id == old_files[i].file_id);
                assert(w.files@[i].file_id < w.files@[w.files@.len() - 1].file_id);
            }
        }
        Ok(w)
    }

    /// Builds a writer over recovered files, deriving the fresh active file
    /// identifier from the clock.
    ///
    /// Fails exactly when the greatest recovered identifier leaves no
    /// greater one to assign.
    pub fn new(conf: Config, key_dir: KeyDir, files: Vec<DataFile>) -> (r: Result<
        LogWriter,
        BitcaskError,
    >)
        requires
            key_dir.wf(),
            file_ids_sorted(files@),
            key_dir@ == apply_files(Map::<Seq<u8>, Header>::empty(), files@),
            forall|k: Seq<u8>|
                #[trigger] key_dir@.contains_key(k) ==> entry_locates(files@, key_dir@[k]),
        ensures
            (r is Ok) <==> !(files@.len() > 0 && files@.last().file_id == u64::MAX),
            match r {
                Ok(w) => {
                    &&& w.wf()
                    &&& w.replay_ok()
                    &&& w.spec_conf() == conf
                    &&& w.spec_position() == 0
                    &&& w.key_dir_view() == key_dir@
                    &&& w.files_view().len() == files@.len() + 1
                    &&& files_extend(files@, w.files_view())
                    &&& w.actions_view().len() == 0
                    &&& w.files_view() == files@.push(w.files_view().last())
                    &&& w.files_view().last().file_id == w.spec_file_id()
                    &&& w.files_view().last().data@ == Seq::<u8>::empty()
                    &&& (forall|i: int|
                        0 <= i < files@.len() ==> (#[trigger] files@[i]).file_id
                            < w.spec_file_id())
                    &&& w@ == store_view(files@, key_dir@)
                },
                Err(e) => e == BitcaskError::Overflow,
            },
    {
        let seed = epoch_secs();
        Self::new_at(conf, key_dir, files, seed)
    }

    /// The identifier of the active file.
    pub fn file_id(&self) -> (r: u64)
        ensures
            r == self.spec_file_id(),
    {
        self.file_id
    }

    /// The configuration the writer was built with.
    pub fn conf(&self) -> (r: &Config)
        ensures
            *r == self.spec_conf(),
    {
        &self.conf
    }

    /// The write position within the active file.
    pub fn position(&self) -> (r: u32)
        ensures
            r == self.spec_position(),
    {
        self.position
    }

    /// Hands the queued file-system work to the I/O shell, leaving the
    /// queue empty.
    pub fn take_actions(&mut self) -> (r: Vec<StoreAction>)
        ensures
            r@ == old(self).actions_view(),
            final(self).actions_view() == Seq::<StoreAction>::empty(),
            final(self).wf() == old(self).wf(),
            final(self).replay_ok() == old(self).replay_ok(),
            final(self)@ == old(self)@,
            final(self).key_dir_view() == old(self).key_dir_view(),
            final(self).files_view() == old(self).files_view(),
            final(self).spec_file_id() == old(self).spec_file_id(),
            final(self).spec_position() == old(self).spec_position(),
            final(self).spec_conf() == old(self).spec_conf(),
    {
        let mut out: Vec<StoreAction> = Vec::new();
        core::mem::swap(&mut out, &mut self.actions);
        out
    }

    /// Seals the active file and opens a fresh, empty one whose identifier
    /// is `seed` or, if `seed` is not greater, the old identifier plus one.
    fn roll_active(&mut self, seed: u64)
        requires
            old(self).wf(),
            old(self).file_id < u64::MAX,
        ensures
            final(self).wf(),
            final(self).conf == old(self).conf,
            final(self).key_dir == old(self).key_dir,
            final(self).file_id as int == (if seed > old(self).file_id {
                seed as int
            } else {
                old(self).file_id + 1
            }),
            final(self).position == 0,
            final(self).files@ == old(self).files@.push(final(self).files@.last()),
            final(self).files@.last().file_id == final(self).file_id,
            final(self).files@.last().data@ == Seq::<u8>::empty(),
            files_extend(old(self).files@, final(self).files@),
            parse_end(final(self).files@.last().data@, 0) == 0,
            apply_files(Map::empty(), final(self).files@) == apply_files(
                Map::empty(),
                old(self).files@,
            ),
            final(self).actions@ == old(self).actions@.push(
                StoreAction::Roll {
                    prev_file_id: old(self).file_id,
                    new_file_id: final(self).file_id,
                },
            ),
            forall|h2: Header|
                #[trigger] entry_locates(old(self).files@, h2) ==> entry_locates(
                    final(self).files@,
                    h2,
                ) && located_val(final(self).files@, h2) == located_val(old(self).files@, h2),
    {
        let ghost o = *self;
        let new_id: u64 = if seed > self.file_id {
            seed
        } else {
            self.file_id + 1
        };
        self.actions.push(StoreAction::Roll { prev_file_id: self.file_id, new_file_id: new_id });
        self.files.push(DataFile { file_id: new_id, data: Vec::new() });
        self.file_id = new_id;
        self.position = 0;
        proof {
            let f2 = self.files@;
            let f1 = o.files@;
            assert(f2.last().file_id == new_id);
            assert(f2.last().data@ =~= Seq::<u8>::empty());
            assert forall|i: int, j: int| 0 <= i < j < f2.len() implies (
            #[trigger] f2[i]).file_id < (#[trigger] f2[j]).file_id by {
                if j < f2.len() - 1 {
                    assert(f1[i].file_id < f1[j].file_id);
                } else {
                    assert(f2[i] == f1[i]);
                    if i < f1.len() - 1 {
                        assert(f1[i].file_id < f1[f1.len() - 1].file_id);
                    }
                }
            }
            assert forall|i: int| 0 <= i < f1.len() implies {
                &&& (#[trigger] f2[i]).file_id == f1[i].file_id
                &&& f1[i].data@.len() <= f2[i].data@.len()
                &&& f2[i].data@.subrange(0, f1[i].data@.len() as int) == f1[i].data@
            } by {
                assert(f2[i] == f1[i]);
                assert(f2[i].data@.subrange(0, f1[i].data@.len() as int) =~= f1[i].data@);
            }
            assert forall|h2: Header| #[trigger] entry_locates(f1, h2) implies entry_locates(
                f2,
                h2,
            ) && located_val(f2, h2) == located_val(f1, h2) by {
                lemma_located_preserved(f1, f2, h2);
            }
            assert forall|k: Seq<u8>| #[trigger] self.key_dir@.contains_key(k) implies
            entry_locates(f2, self.key_dir@[k]) by {
                assert(entry_locates(f1, self.key_dir@[k]));
            }
            lemma_apply_files_last(Map::<Seq<u8>, Header>::empty(), f2);
            assert(f2.drop_last() =~= f1);
            assert(parsed_from(f2.last().data@, 0) =~= Seq::<ParsedRec>::empty());
            assert(apply_file(apply_files(Map::<Seq<u8>, Header>::empty(), f1), f2.last())
                == apply_files(Map::<Seq<u8>, Header>::empty(), f1));
            assert(parse_end(f2.last().data@, 0) == 0);
        }
    }

    /// Seals the active file and opens a fresh, empty one whose identifier
    /// is `seed` or, if `seed` is not greater, the old identifier plus one.
    ///
    /// Fails only when no greater identifier exists.
    pub fn new_active_file_at(&mut self, seed: u64) -> (r: Result<(), BitcaskError>)
        requires
            old(self).wf(),
        ensures
            final(self).wf(),
            final(self).spec_conf() == old(self).spec_conf(),
            final(self).key_dir_view() == old(self).key_dir_view(),
            (r is Ok) <==> old(self).spec_file_id() < u64::MAX,
            match r {
                Ok(_) => {
                    &&& final(self).spec_file_id() as int == (if seed > old(self).spec_file_id() {
                        seed as int
                    } else {
                        old(self).spec_file_id() + 1
                    })
                    &&& final(self).spec_position() == 0
                    &&& final(self).files_view() == old(self).files_view().push(
                        final(self).files_view().last(),
                    )
                    &&& final(self).files_view().last().file_id == final(self).spec_file_id()
                    &&& final(self).files_view().last().data@ == Seq::<u8>::empty()
                    &&& files_extend(old(self).files_view(), final(self).files_view())
                    &&& final(self)@ == old(self)@
                    &&& (old(self).replay_ok() ==> final(self).replay_ok())
                    &&& apply_files(Map::empty(), final(self).files_view()) == apply_files(
                        Map::empty(),
                        old(self).files_view(),
                    )
                    &&& final(self).actions_view() == old(self).actions_view().push(
                        StoreAction::Roll {
                            prev_file_id: old(self).spec_file_id(),
                            new_file_id: final(self).spec_file_id(),
                        },
                    )
                },
                Err(e) => {
                    &&& e == BitcaskError::Overflow
                    &&& *final(self) == *old(self)
                },
            },
    {
        if self.file_id == u64::MAX {
            return Err(BitcaskError::Overflow);
        }
        let ghost o = *self;
        self.roll_active(seed);
        proof {
            assert forall|k: Seq<u8>| #[trigger] self.key_dir@.contains_key(k) implies located_val(
                self.files@,
                self.key_dir@[k],
            ) == located_val(o.files@, self.key_dir@[k]) by {
                assert(entry_locates(o.files@, self.key_dir@[k]));
            }
            assert(store_view(self.files@, self.key_dir@) =~= store_view(o.files@, o.key_dir@));
        }
        Ok(())
    }

    /// Seals the active file and opens a fresh one, deriving the new
    /// identifier from the clock.
    pub fn new_active_file(&mut self) -> (r: Result<(), BitcaskError>)
        requires
            old(self).wf(),
        ensures
            final(self).wf(),
            final(self).spec_conf() == old(self).spec_conf(),
            final(self).key_dir_view() == old(self).key_dir_view(),
            (r is Ok) <==> old(self).spec_file_id() < u64::MAX,
            match r {
                Ok(_) => {
                    &&& final(self).spec_position() == 0
                    &&& final(self).spec_file_id() > old(self).spec_file_id()
                    &&& final(self).files_view().len() == old(self).files_view().len() + 1
                    &&& files_extend(old(self).files_view(), final(self).files_view())
                    &&& final(self)@ == old(self)@
                    &&& (old(self).replay_ok() ==> final(self).replay_ok())
                },
                Err(e) => {
                    &&& e == BitcaskError::Overflow
                    &&& *final(self) == *old(self)
                },
            },
    {
        let seed = epoch_secs();
        self.new_active_file_at(seed)
    }

    /// Appends one encoded record to the active file, queues the matching
    /// append action, and rolls the active file if its length now exceeds
    /// the threshold. The key directory is left untouched.
    #[verifier::rlimit(60)]
    #[verifier::spinoff_prover]
    fn append_record(&mut self, key: &[u8], val: &[u8], ts_tamp: u32, roll_seed: u64) -> (r: Result<
        Header,
        BitcaskError,
    >)
        requires
            old(self).wf(),
        ensures
            final(self).wf(),
            final(self).conf == old(self).conf,
            final(self).key_dir == old(self).key_dir,
            (r is Ok) <==> old(self).can_append(key@, val@),
            match r {
                Ok(h) => {
                    let reclen = 16 + key@.len() + val@.len();
                    let rolls = old(self).position + reclen > old(self).conf.max_file_size;
                    let rec = ParsedRec {
                        key: key@,
                        val: val@,
                        ts_tamp,
                        val_offset: (old(self).position + 16 + key@.len()) as u32,
                    };
                    &&& h == (Header {
                        file_id: old(self).file_id,
                        val_size: val@.len() as u32,
                        val_offset: (old(self).position + 16 + key@.len()) as u32,
                        ts_tamp,
                    })
                    &&& files_extend(old(self).files@, final(self).files@)
                    &&& final(self).files@.len() == old(self).files@.len() + (if rolls {
                        1int
                    } else {
                        0int
                    })
                    &&& final(self).position as int <= final(self).conf.max_file_size as int
                    &&& final(self).files@[old(self).files@.len() - 1].file_id == old(self).file_id
                    &&& final(self).files@[old(self).files@.len() - 1].data@ == old(self).files@.last().data@ + spec_record(key@, val@, ts_tamp)
                    &&& (!rolls ==> (final(self).file_id == old(self).file_id && final(self).position
                        == old(self).position + reclen))
                    &&& (rolls ==> (final(self).position == 0 && final(self).file_id > old(self).file_id))
                    &&& final(self).actions@.len() == old(self).actions@.len() + (if rolls {
                        2int
                    } else {
                        1int
                    })
                    &&& (forall|j: int|
                        0 <= j < old(self).actions@.len() ==> final(self).actions@[j] == old(self).actions@[j])
                    &&& is_record_append(
                        final(self).actions@[old(self).actions@.len() as int],
                        old(self).file_id,
                        key@,
                        val@,
                        ts_tamp,
                        old(self).conf.sync_on_put,
                    )
                    &&& (rolls ==> final(self).actions@.last() == (StoreAction::Roll {
                        prev_file_id: old(self).file_id,
                        new_file_id: final(self).file_id,
                    }))
                    &&& entry_locates(final(self).files@, h)
                    &&& located_val(final(self).files@, h) == val@
                    &&& (forall|h2: Header|
                        #[trigger] entry_locates(old(self).files@, h2) ==> entry_locates(
                            final(self).files@,
                            h2,
                        ) && located_val(final(self).files@, h2) == located_val(
                            old(self).files@,
                            h2,
                        ))
                    &&& (old(self).replay_ok() ==> {
                        &&& apply_files(Map::empty(), final(self).files@) == apply_rec(
                            apply_files(Map::empty(), old(self).files@),
                            old(self).file_id,
                            rec,
                        )
                        &&& parse_end(final(self).files@.last().data@, 0) == final(self).files@.last().data@.len()
                    })
                },
                Err(e) => {
                    &&& e == BitcaskError::Overflow
                    &&& *final(self) == *old(self)
                },
            },
    {
        let entry = match create_entry(key, val, ts_tamp) {
            Ok(v) => v,
            Err(e) => { return Err(e) },
        };
        let elen = entry.len();
        if (self.position as u64) + (elen as u64) > (u32::MAX as u64) {
            return Err(BitcaskError::Overflow);
        }
        let new_pos = self.position + elen as u32;
        let rolls = new_pos > self.conf.max_file_size;
        if rolls && self.file_id == u64::MAX {
            return Err(BitcaskError::Overflow);
        }
        let ghost o = *self;
        let ghost old_active = self.files@.last().data@;
        let ghost rec = ParsedRec {
            key: key@,
            val: val@,
            ts_tamp,
            val_offset: (self.position + 16 + key@.len()) as u32,
        };
        let h = Header {
            file_id: self.file_id,
            val_size: val.len() as u32,
            val_offset: self.position + 16 + key.len() as u32,
            ts_tamp,
        };
        let last = self.files.len() - 1;
        let f = vstd::std_specs::vec::vec_index_mut(&mut self.files, last);
        f.data.extend_from_slice(entry.as_slice());
        self.position = new_pos;
        let sync = self.conf.sync_on_put;
        self.actions.push(StoreAction::Append { file_id: self.file_id, bytes: entry, sync });
        proof {
            let f1 = o.files@;
            let f2 = self.files@;
            let d2 = old_active + spec_record(key@, val@, ts_tamp);
            assert(f2 =~= f1.update(last as int, DataFile { file_id: o.file_id, data: f2.last().data }));
            assert(f2.last().file_id == o.file_id);
            assert(f2.last().data@ == d2);
            assert forall|i: int, j: int| 0 <= i < j < f2.len() implies (
            #[trigger] f2[i]).file_id < (#[trigger] f2[j]).file_id by {
                assert(f2[i].file_id == f1[i].file_id);
                assert(f2[j].file_id == f1[j].file_id);
            }
            assert forall|i: int| 0 <= i < f1.len() implies {
                &&& (#[trigger] f2[i]).file_id == f1[i].file_id
                &&& f1[i].data@.len() <= f2[i].data@.len()
                &&& f2[i].data@.subrange(0, f1[i].data@.len() as int) == f1[i].data@
            } by {
                if i < last as int {
                    assert(f2[i] == f1[i]);
                    assert(f2[i].data@.subrange(0, f1[i].data@.len() as int) =~= f1[i].data@);
                } else {
                    assert(f2[i].data@ == old_active + spec_record(key@, val@, ts_tamp));
                    assert(f2[i].data@.subrange(0, f1[i].data@.len() as int) =~= f1[i].data@);
                }
            }
            assert(files_extend(f1, f2));
            assert(self.position as int == f2.last().data@.len());
            assert forall|k: Seq<u8>| #[trigger] self.key_dir@.contains_key(k) implies
            entry_locates(f2, self.key_dir@[k]) by {
                lemma_located_preserved(f1, f2, self.key_dir@[k]);
            }
            assert(self.wf());
        }
        let ghost f_mid = self.files@;
        if rolls {
            self.roll_active(roll_seed);
        }
        proof {
            let f1 = o.files@;
            let f2 = self.files@;
            let d2 = old_active + spec_record(key@, val@, ts_tamp);
            assert(file_ids_sorted(f2));
            if rolls {
                assert(f2 == f_mid.push(f2.last()));
            } else {
                assert(f2 == f_mid);
            }
            assert forall|i: int| 0 <= i < f1.len() implies {
                &&& (#[trigger] f2[i]).file_id == f1[i].file_id
                &&& f1[i].data@.len() <= f2[i].data@.len()
                &&& f2[i].data@.subrange(0, f1[i].data@.len() as int) == f1[i].data@
            } by {
                assert(f2[i] == f_mid[i]);
                assert((#[trigger] f_mid[i]).file_id == f1[i].file_id);
            }
            assert(files_extend(f1, f2));
            // the appended record decodes back to its fields
            assert(f2[last as int] == f_mid[last as int]);
            assert(f2[last as int].data@ == d2);
            let p0 = old_active.len() as int;
            let sr = spec_record(key@, val@, ts_tamp);
            assert(sr.len() == 16 + key@.len() + val@.len());
            let s = d2.subrange(p0, p0 + 16 + key@.len() + val@.len());
            assert forall|x: int| 0 <= x < sr.len() implies #[trigger] s[x] == sr[x] by {
                assert(s[x] == d2[p0 + x]);
                assert(d2[p0 + x] == sr[x]);
            }
            assert(s =~= sr);
            lemma_record_parses(d2, p0, key@, val@, ts_tamp);
            // the new entry locates its value bytes
            lemma_file_idx_is(f2, last as int);
            assert(file_data(f2, o.file_id) == d2);
            assert(h.val_offset as int == p0 + 16 + key@.len());
            assert(h.val_offset + h.val_size <= d2.len());
            assert(entry_locates(f2, h));
            assert(located_val(f2, h) == d2.subrange(
                p0 + 16 + key@.len(),
                p0 + 16 + key@.len() + val@.len(),
            ));
            assert(located_val(f2, h) == val@);
            // every previously located entry still locates the same bytes
            assert forall|h2: Header| #[trigger] entry_locates(f1, h2) implies entry_locates(f2, h2)
                && located_val(f2, h2) == located_val(f1, h2) by {
                lemma_located_preserved(f1, f2, h2);
            }
            assert forall|k: Seq<u8>| #[trigger] self.key_dir@.contains_key(k) implies
            entry_locates(f2, self.key_dir@[k]) by {
                assert(entry_locates(f1, self.key_dir@[k]));
            }
            // replay: the fold over the files gains exactly this record
            if o.replay_ok() {
                let m_empty = Map::<Seq<u8>, Header>::empty();
                lemma_parsed_append_record(old_active, key@, val@, ts_tamp, 0);
                assert(parsed_from(d2, 0) == parsed_from(old_active, 0).push(rec));
                assert(parse_end(d2, 0) == d2.len());
                if rolls {
                    assert(f2.last().data@ =~= Seq::<u8>::empty());
                    assert(parse_end(f2.last().data@, 0) == 0);
                    let f_mid = f2.drop_last();
                    lemma_apply_files_last(m_empty, f2);
                    assert(parsed_from(f2.last().data@, 0) =~= Seq::<ParsedRec>::empty());
                    assert(apply_files(m_empty, f2) == apply_files(m_empty, f_mid));
                    lemma_apply_files_last(m_empty, f_mid);
                    assert(f_mid.drop_last() =~= f1.drop_last());
                    assert(f_mid.last().data@ == d2);
                    assert(f_mid.last().file_id == o.file_id);
                    let m_pre = apply_files(m_empty, f1.drop_last());
                    lemma_apply_recs_push(m_pre, o.file_id, parsed_from(old_active, 0), rec);
                    lemma_apply_files_last(m_empty, f1);
                    assert(apply_files(m_empty, f2) == apply_rec(
                        apply_files(m_empty, f1),
                        o.file_id,
                        rec,
                    ));
                } else {
                    assert(parse_end(f2.last().data@, 0) == f2.last().data@.len());
                    lemma_apply_files_last(m_empty, f2);
                    assert(f2.drop_last() =~= f1.drop_last());
                    let m_pre = apply_files(m_empty, f1.drop_last());
                    lemma_apply_recs_push(m_pre, o.file_id, parsed_from(old_active, 0), rec);
                    lemma_apply_files_last(m_empty, f1);
                    assert(apply_files(m_empty, f2) == apply_rec(
                        apply_files(m_empty, f1),
                        o.file_id,
                        rec,
                    ));
                }
            }
        }
        Ok(h)
    }

    /// Writes one record for `key` and `val` and records its location in
    /// the key directory, using `ts_tamp` as the record's write time and
    /// `roll_seed` as the candidate identifier should the active file roll.
    ///
    /// Succeeds exactly when the record can be appended
    /// ([`can_append`](Self::can_append)); on failure nothing changes.
    pub fn put_at(&mut self, key: &[u8], val: &[u8], ts_tamp: u32, roll_seed: u64) -> (r: Result<
        (),
        BitcaskError,
    >)
        requires
            old(self).wf(),
        ensures
            final(self).wf(),
            final(self).spec_conf() == old(self).spec_conf(),
            (r is Ok) <==> old(self).can_append(key@, val@),
            match r {
                Ok(_) => {
                    &&& old(self).appended_frame(*final(self), key@, val@, ts_tamp)
                    &&& final(self)@ == old(self)@.insert(key@, val@)
                    &&& final(self).key_dir_view() == old(self).key_dir_view().insert(
                        key@,
                        Header {
                            file_id: old(self).spec_file_id(),
                            val_size: val@.len() as u32,
                            val_offset: (old(self).spec_position() + 16 + key@.len()) as u32,
                            ts_tamp,
                        },
                    )
                    &&& ((old(self).replay_ok() && val@ != tombstone()) ==> final(self).replay_ok())
                },
                Err(e) => {
                    &&& e == BitcaskError::Overflow
                    &&& *final(self) == *old(self)
                },
            },
    {
        let ghost o = *self;
        let h = match self.append_record(key, val, ts_tamp, roll_seed) {
            Ok(h) => h,
            Err(e) => { return Err(e) },
        };
        let kv = slice_to_vec(key);
        self.key_dir.insert(kv, h);
        proof {
            lemma_file_idx_is(o.files@, o.files@.len() - 1);
            assert(file_data(o.files@, o.file_id) == o.files@.last().data@);
            lemma_file_idx_is(self.files@, o.files@.len() - 1);
            assert(self.files@[o.files@.len() - 1].file_id == o.file_id);
            assert(file_data(self.files@, o.file_id) == self.files@[o.files@.len() - 1].data@);
            assert(file_data(self.files@, o.file_id) == file_data(o.files@, o.file_id)
                + spec_record(key@, val@, ts_tamp));
            let rec = ParsedRec {
                key: key@,
                val: val@,
                ts_tamp,
                val_offset: (o.position + 16 + key@.len()) as u32,
            };
            assert(self.key_dir@ == o.key_dir@.insert(key@, h));
            assert forall|k: Seq<u8>| #[trigger] self.key_dir@.contains_key(k) implies
            entry_locates(self.files@, self.key_dir@[k]) by {
                if k == key@ {
                    assert(self.key_dir@[k] == h);
                } else {
                    assert(o.key_dir@.contains_key(k));
                    assert(self.key_dir@[k] == o.key_dir@[k]);
                    assert(entry_locates(o.files@, o.key_dir@[k]));
                }
            }
            assert(self.wf());
            let v2 = store_view(self.files@, self.key_dir@);
            let tgt = store_view(o.files@, o.key_dir@).insert(key@, val@);
            assert forall|k: Seq<u8>| #[trigger] self.key_dir@.contains_key(k) implies v2[k]
                == tgt[k] by {
                if k == key@ {
                    assert(v2[k] == located_val(self.files@, h));
                } else {
                    assert(o.key_dir@.contains_key(k));
                    assert(entry_locates(o.files@, o.key_dir@[k]));
                    assert(located_val(self.files@, o.key_dir@[k]) == located_val(
                        o.files@,
                        o.key_dir@[k],
                    ));
                    assert(tgt[k] == store_view(o.files@, o.key_dir@)[k]);
                }
            }
            assert(v2 =~= tgt);
            if o.replay_ok() && val@ != tombstone() {
                assert(apply_files(Map::empty(), self.files@) == apply_rec(
                    apply_files(Map::empty(), o.files@),
                    o.file_id,
                    rec,
                ));
                assert(rec.val == val@);
                assert(header_of(o.file_id, rec) == h);
                assert(apply_rec(o.key_dir@, o.file_id, rec) == o.key_dir@.insert(key@, h));
                assert(self.replay_ok());
            }
        }
        Ok(())
    }

    /// Writes one record for `key` and `val`, stamping it with the clock,
    /// and records its location in the key directory. Rolls the active file
    /// afterwards if its length exceeds the configured threshold.
    pub fn put(&mut self, key: &[u8], val: &[u8]) -> (r: Result<(), BitcaskError>)
        requires
            old(self).wf(),
        ensures
            final(self).wf(),
            final(self).spec_conf() == old(self).spec_conf(),
            (r is Ok) <==> old(self).can_append(key@, val@),
            match r {
                Ok(_) => {
                    &&& final(self)@ == old(self)@.insert(key@, val@)
                    &&& (exists|t: u32|
                        #![auto]
                        {
                            &&& old(self).appended_frame(*final(self), key@, val@, t)
                            &&& final(self).key_dir_view() == old(self).key_dir_view().insert(
                                key@,
                                Header {
                                    file_id: old(self).spec_file_id(),
                                    val_size: val@.len() as u32,
                                    val_offset: (old(self).spec_position() + 16
                                        + key@.len()) as u32,
                                    ts_tamp: t,
                                },
                            )
                        })
                    &&& ((old(self).replay_ok() && val@ != tombstone()) ==> final(self).replay_ok())
                },
                Err(e) => {
                    &&& e == BitcaskError::Overflow
                    &&& *final(self) == *old(self)
                },
            },
    {
        let ts_tamp = timestamp();
        let seed = epoch_secs();
        let ghost o = *self;
        let r = self.put_at(key, val, ts_tamp, seed);
        proof {
            if r is Ok {
                assert(o.appended_frame(*self, key@, val@, ts_tamp));
            }
        }
        r
    }

    /// Appends a tombstone record for `key`, using `ts_tamp` as its write
    /// time and `roll_seed` for a possible rollover, and removes `key` from
    /// the key directory.
    pub fn delete_at(&mut self, key: &[u8], ts_tamp: u32, roll_seed: u64) -> (r: Result<
        (),
        BitcaskError,
    >)
        requires
            old(self).wf(),
        ensures
            final(self).wf(),
            final(self).spec_conf() == old(self).spec_conf(),
            (r is Ok) <==> old(self).can_append(key@, tombstone()),
            match r {
                Ok(_) => {
                    &&& old(self).appended_frame(*final(self), key@, tombstone(), ts_tamp)
                    &&& final(self)@ == old(self)@.remove(key@)
                    &&& final(self).key_dir_view() == old(self).key_dir_view().remove(key@)
                    &&& (old(self).replay_ok() ==> final(self).replay_ok())
                },
                Err(e) => {
                    &&& e == BitcaskError::Overflow
                    &&& *final(self) == *old(self)
                },
            },
    {
        let ghost o = *self;
        let mut tomb: Vec<u8> = Vec::new();
        tomb.push(TOMBSTONE_MARKER_CHAR);
        proof {
            assert(tomb@ =~= tombstone());
        }
        let h = match self.append_record(key, tomb.as_slice(), ts_tamp, roll_seed) {
            Ok(h) => h,
            Err(e) => { return Err(e) },
        };
        self.key_dir.remove(key);
        proof {
            lemma_file_idx_is(o.files@, o.files@.len() - 1);
            assert(file_data(o.files@, o.file_id) == o.files@.last().data@);
            lemma_file_idx_is(self.files@, o.files@.len() - 1);
            assert(self.files@[o.files@.len() - 1].file_id == o.file_id);
            assert(file_data(self.files@, o.file_id) == self.files@[o.files@.len() - 1].data@);
            let rec = ParsedRec {
                key: key@,
                val: tombstone(),
                ts_tamp,
                val_offset: (o.position + 16 + key@.len()) as u32,
            };
            assert(self.key_dir@ == o.key_dir@.remove(key@));
            assert forall|k: Seq<u8>| #[trigger] self.key_dir@.contains_key(k) implies
            entry_locates(self.files@, self.key_dir@[k]) by {
                assert(o.key_dir@.contains_key(k));
                assert(self.key_dir@[k] == o.key_dir@[k]);
                assert(entry_locates(o.files@, o.key_dir@[k]));
            }
            assert(self.wf());
            let v2 = store_view(self.files@, self.key_dir@);
            let tgt = store_view(o.files@, o.key_dir@).remove(key@);
            assert forall|k: Seq<u8>| #[trigger] self.key_dir@.contains_key(k) implies v2[k]
                == tgt[k] by {
                assert(o.key_dir@.contains_key(k));
                assert(entry_locates(o.files@, o.key_dir@[k]));
                assert(located_val(self.files@, o.key_dir@[k]) == located_val(
                    o.files@,
                    o.key_dir@[k],
                ));
            }
            assert(v2 =~= tgt);
            if o.replay_ok() {
                assert(apply_files(Map::empty(), self.files@) == apply_rec(
                    apply_files(Map::empty(), o.files@),
                    o.file_id,
                    rec,
                ));
                assert(rec.val == tombstone());
                assert(apply_rec(o.key_dir@, o.file_id, rec) == o.key_dir@.remove(key@));
                assert(self.replay_ok());
            }
        }
        Ok(())
    }

    /// Appends a tombstone record for `key`, stamped with the clock, and
    /// removes `key` from the key directory.
    pub fn delete(&mut self, key: &[u8]) -> (r: Result<(), BitcaskError>)
        requires
            old(self).wf(),
        ensures
            final(self).wf(),
            final(self).spec_conf() == old(self).spec_conf(),
            (r is Ok) <==> old(self).can_append(key@, tombstone()),
            match r {
                Ok(_) => {
                    &&& final(self)@ == old(self)@.remove(key@)
                    &&& final(self).key_dir_view() == old(self).key_dir_view().remove(key@)
                    &&& (exists|t: u32| #![auto] old(self).appended_frame(*final(self), key@, tombstone(), t))
                    &&& (old(self).replay_ok() ==> final(self).replay_ok())
                },
                Err(e) => {
                    &&& e == BitcaskError::Overflow
                    &&& *final(self) == *old(self)
                },
            },
    {
        let ts_tamp = timestamp();
        let seed = epoch_secs();
        let ghost o = *self;
        let r = self.delete_at(key, ts_tamp, seed);
        proof {
            if r is Ok {
                assert(o.appended_frame(*self, key@, tombstone(), ts_tamp));
            }
        }
        r
    }

    /// Looks up the location of the most recent value for `key`.
    pub fn lookup(&self, key: &[u8]) -> (r: Option<Header>)
        requires
            self.wf(),
        ensures
            match r {
                Some(h) => {
                    &&& self.key_dir_view().contains_key(key@)
                    &&& h == self.key_dir_view()[key@]
                    &&& entry_locates(self.files_view(), h)
                },
                None => !self.key_dir_view().contains_key(key@),
            },
    {
        match self.key_dir.get(key) {
            Some(h) => Some(*h),
            None => None,
        }
    }

    /// Copies of the data files, oldest first — what the data directory
    /// holds once the I/O shell has mirrored every queued action.
    pub fn data_files(&self) -> (r: Vec<DataFile>)
        ensures
            r@.len() == self.files_view().len(),
            forall|i: int|
                0 <= i < r@.len() ==> (#[trigger] r@[i]).file_id == self.files_view()[i].file_id
                    && r@[i].data@ == self.files_view()[i].data@,
            self.wf() ==> file_ids_sorted(r@),
    {
        let mut out: Vec<DataFile> = Vec::new();
        let n = self.files.len();
        let mut i: usize = 0;
        while i < n
            invariant
                n == self.files@.len(),
                0 <= i <= n,
                out@.len() == i,
                forall|j: int|
                    0 <= j < i ==> (#[trigger] out@[j]).file_id == self.files@[j].file_id
                        && out@[j].data@ == self.files@[j].data@,
            decreases n - i,
        {
            let f = &self.files[i];
            let data = slice_to_vec(f.data.as_slice());
            out.push(DataFile { file_id: f.file_id, data });
            i += 1;
        }
        proof {
            if self.wf() {
                assert forall|a: int, b: int| 0 <= a < b < out@.len() implies (
                #[trigger] out@[a]).file_id < (#[trigger] out@[b]).file_id by {
                    assert(self.files@[a].file_id < self.files@[b].file_id);
                }
            }
        }
        out
    }

    /// A well-formed writer's file identifiers strictly increase, so the
    /// files it exports satisfy what [`Self::new`] and recovery demand of
    /// their input.
    pub proof fn lemma_wf_files_sorted(self)
        requires
            self.wf(),
        ensures
            file_ids_sorted(self.files_view()),
    {
    }

    /// Reads the value bytes a directory entry points at.
    pub fn read_located(&self, h: Header) -> (r: Vec<u8>)
        requires
            self.wf(),
            entry_locates(self.files_view(), h),
        ensures
            r@ == located_val(self.files_view(), h),
    {
        let n = self.files.len();
        let mut i: usize = 0;
        while i < n
            invariant
                self.wf(),
                entry_locates(self.files@, h),
                n == self.files@.len(),
                0 <= i <= n,
                forall|j: int| 0 <= j < i ==> (#[trigger] self.files@[j]).file_id != h.file_id,
            decreases n - i,
        {
            let f = &self.files[i];
            if f.file_id == h.file_id {
                proof {
                    lemma_file_idx_is(self.files@, i as int);
                    assert(file_data(self.files@, h.file_id) == self.files@[i as int].data@);
                }
                let dlen = f.data.len();
                let start = h.val_offset as usize;
                let end = start + h.val_size as usize;
                return slice_to_vec(slice_subrange(f.data.as_slice(), start, end));
            }
            i += 1;
        }
        proof {
            let j = file_idx(self.files@, h.file_id);
            assert(0 <= j < self.files@.len() && self.files@[j].file_id == h.file_id);
            assert(false);
        }
        Vec::new()
    }

    /// Reads `size` bytes at `offset` from the file named by `file_id`.
    ///
    /// Fails exactly when no such file exists or the range reaches past its
    /// end.
    pub fn read_from_file(&self, file_id: u64, offset: u32, size: u32) -> (r: Result<
        Vec<u8>,
        BitcaskError,
    >)
        requires
            self.wf(),
        ensures
            match r {
                Ok(v) => {
                    &&& has_file(self.files_view(), file_id)
                    &&& offset + size <= file_data(self.files_view(), file_id).len()
                    &&& v@ == file_data(self.files_view(), file_id).subrange(
                        offset as int,
                        offset + size,
                    )
                },
                Err(e) => {
                    &&& e == BitcaskError::IOError
                    &&& (!has_file(self.files_view(), file_id) || offset + size > file_data(
                        self.files_view(),
                        file_id,
                    ).len())
                },
            },
    {
        let n = self.files.len();
        let mut i: usize = 0;
        while i < n
            invariant
                self.wf(),
                n == self.files@.len(),
                0 <= i <= n,
                forall|j: int| 0 <= j < i ==> (#[trigger] self.files@[j]).file_id != file_id,
            decreases n - i,
        {
            let f = &self.files[i];
            if f.file_id == file_id {
                proof {
                    lemma_file_idx_is(self.files@, i as int);
                    assert(file_data(self.files@, file_id) == self.files@[i as int].data@);
                }
                return read_range(f.data.as_slice(), offset, size);
            }
            i += 1;
        }
        proof {
            assert(!has_file(self.files@, file_id));
        }
        Err(BitcaskError::IOError)
    }

    /// Queues a sync of the active file for the I/O shell.
    pub fn sync(&mut self) -> (r: Result<(), BitcaskError>)
        ensures
            r is Ok,
            final(self).wf() == old(self).wf(),
            final(self).replay_ok() == old(self).replay_ok(),
            final(self)@ == old(self)@,
            final(self).key_dir_view() == old(self).key_dir_view(),
            final(self).files_view() == old(self).files_view(),
            final(self).spec_file_id() == old(self).spec_file_id(),
            final(self).spec_position() == old(self).spec_position(),
            final(self).spec_conf() == old(self).spec_conf(),
            final(self).actions_view() == old(self).actions_view().push(
                StoreAction::Sync { file_id: old(self).spec_file_id() },
            ),
    {
        let fid = self.file_id;
        self.actions.push(StoreAction::Sync { file_id: fid });
        Ok(())
    }

    /// Appends raw bytes to the active file and queues the matching append
    /// action. The key directory and the rollover threshold are not
    /// consulted; live values keep their locations and contents.
    pub fn write_to_file(&mut self, buf: &[u8]) -> (r: Result<(), BitcaskError>)
        requires
            old(self).wf(),
        ensures
            final(self).wf(),
            final(self).spec_conf() == old(self).spec_conf(),
            final(self).key_dir_view() == old(self).key_dir_view(),
            final(self).spec_file_id() == old(self).spec_file_id(),
            (r is Ok) <==> old(self).spec_position() + buf@.len() <= u32::MAX,
            match r {
                Ok(_) => {
                    &&& final(self).spec_position() == old(self).spec_position() + buf@.len()
                    &&& final(self).files_view().len() == old(self).files_view().len()
                    &&& files_extend(old(self).files_view(), final(self).files_view())
                    &&& final(self).files_view().last().data@ == old(self).files_view().last().data@ + buf@
                    &&& final(self)@ == old(self)@
                },
                Err(e) => {
                    &&& e == BitcaskError::Overflow
                    &&& *final(self) == *old(self)
                },
            },
    {
        let blen = buf.len();
        if blen > u32::MAX as usize {
            return Err(BitcaskError::Overflow);
        }
        if (self.position as u64) + (blen as u64) > u32::MAX as u64 {
            return Err(BitcaskError::Overflow);
        }
        let ghost o = *self;
        let new_pos = self.position + blen as u32;
        let last = self.files.len() - 1;
        let f = vstd::std_specs::vec::vec_index_mut(&mut self.files, last);
        f.data.extend_from_slice(buf);
        self.position = new_pos;
        let fid = self.file_id;
        self.actions.push(StoreAction::Append { file_id: fid, bytes: slice_to_vec(buf), sync: false });
        proof {
            let f1 = o.files@;
            let f2 = self.files@;
            assert(f2.last().file_id == o.file_id);
            assert(f2.last().data@ == o.files@.last().data@ + buf@);
            assert forall|i: int, j: int| 0 <= i < j < f2.len() implies (
            #[trigger] f2[i]).file_id < (#[trigger] f2[j]).file_id by {
                assert(f2[i].file_id == f1[i].file_id);
                assert(f2[j].file_id == f1[j].file_id);
            }
            assert forall|i: int| 0 <= i < f1.len() implies {
                &&& (#[trigger] f2[i]).file_id == f1[i].file_id
                &&& f1[i].data@.len() <= f2[i].data@.len()
                &&& f2[i].data@.subrange(0, f1[i].data@.len() as int) == f1[i].data@
            } by {
                if i < last as int {
                    assert(f2[i] == f1[i]);
                    assert(f2[i].data@.subrange(0, f1[i].data@.len() as int) =~= f1[i].data@);
                } else {
                    assert(f2[i].data@ == f1[i].data@ + buf@);
                    assert(f2[i].data@.subrange(0, f1[i].data@.len() as int) =~= f1[i].data@);
                }
            }
            assert(files_extend(f1, f2));
            assert forall|k: Seq<u8>| #[trigger] self.key_dir@.contains_key(k) implies
            entry_locates(f2, self.key_dir@[k]) && located_val(f2, self.key_dir@[k]) == located_val(
                f1,
                self.key_dir@[k],
            ) by {
                lemma_located_preserved(f1, f2, self.key_dir@[k]);
            }
            assert(self.wf());
            assert(store_view(f2, self.key_dir@) =~= store_view(f1, o.key_dir@));
        }
        Ok(())
    }
}

/// The total number of bytes held across a sequence of data files.
pub open spec fn total_file_bytes(files: Seq<DataFile>) -> int
    decreases files.len(),
{
    if files.len() == 0 {
        0
    } else {
        total_file_bytes(files.drop_last()) + files.last().data@.len()
    }
}

/// A writer's contents are the store view built from its files and its key
/// directory.
pub proof fn lemma_view_is_store_view(w: LogWriter)
    ensures
        w@ == store_view(w.files_view(), w.key_dir_view()),
{
}

/// Recovery faithfulness: for a writer in a replay-sound state — as every
/// state reached from startup through `put`, `delete` and `get` alone is —
/// replaying its data files from scratch rebuilds exactly its live key
/// directory, so a reopened store locates every key's newest value just as
/// the live store did.
pub proof fn lemma_recovery_faithful(w: LogWriter)
    requires
        w.wf(),
        w.replay_ok(),
    ensures
        apply_files(Map::<Seq<u8>, Header>::empty(), w.files_view()) == w.key_dir_view(),
        store_view(w.files_view(), apply_files(Map::<Seq<u8>, Header>::empty(), w.files_view()))
            == w@,
{
}

/// Rollover preservation: once the files hold more bytes than the size
/// threshold while the active file is within it — as it is after every
/// successful `put` — at least two data files exist, and every live key
/// still locates its value bytes inside one of them.
pub proof fn lemma_rollover_preservation(w: LogWriter)
    requires
        w.wf(),
        w.spec_position() <= w.spec_conf().max_file_size,
        total_file_bytes(w.files_view()) > w.spec_conf().max_file_size,
    ensures
        w.files_view().len() >= 2,
        forall|k: Seq<u8>|
            #[trigger] w.key_dir_view().contains_key(k) ==> entry_locates(
                w.files_view(),
                w.key_dir_view()[k],
            ) && w@[k] == located_val(w.files_view(), w.key_dir_view()[k]),
{
    let files = w.files_view();
    assert(files.last().data@.len() == w.spec_position());
    if files.len() == 1 {
        assert(total_file_bytes(files.drop_last()) == 0) by {
            assert(files.drop_last().len() == 0);
        }
        assert(total_file_bytes(files) == files.last().data@.len());
        assert(false);
    }
}

} // verus!
