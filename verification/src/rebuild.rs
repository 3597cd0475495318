//! Startup recovery: rebuilding the key directory from the data files.
//!
//! Every data file is replayed oldest-first; within a file, records are
//! replayed in append order, so the final entry for any key is the newest
//! write observed. A record whose value is the tombstone marker removes its
//! key. Replay of a file stops at the first record that fails to decode;
//! entries decoded before the failure are kept, and later files are still
//! processed.
use vstd::prelude::*;

use crate::keydir::Header;
use crate::keydir::KeyDir;
use crate::log::DataFile;
use crate::log::DecodeResult;
use crate::log::ParsedRec;
use crate::log::TOMBSTONE_MARKER_CHAR;
use crate::log::byte_to_entry;
use crate::log::parse_end;
use crate::log::parsed_from;
use crate::log::rec_at;
use crate::log::rec_end;

verus! {

/// The value bytes that mark a deletion.
pub open spec fn tombstone() -> Seq<u8> {
    seq![TOMBSTONE_MARKER_CHAR]
}

/// The index entry a decoded record gives rise to, once the file it came
/// from is known.
pub open spec fn header_of(file_id: u64, r: ParsedRec) -> Header {
    Header {
        file_id,
        val_size: r.val.len() as u32,
        val_offset: r.val_offset,
        ts_tamp: r.ts_tamp,
    }
}

/// Replaying one decoded record into the directory: a tombstone removes its
/// key, any other record records its location.
pub open spec fn apply_rec(m: Map<Seq<u8>, Header>, file_id: u64, r: ParsedRec) -> Map<
    Seq<u8>,
    Header,
> {
    if r.val == tombstone() {
        m.remove(r.key)
    } else {
        m.insert(r.key, header_of(file_id, r))
    }
}

/// Replaying a sequence of decoded records, in order.
pub open spec fn apply_recs(m: Map<Seq<u8>, Header>, file_id: u64, rs: Seq<ParsedRec>) -> Map<
    Seq<u8>,
    Header,
>
    decreases rs.len(),
{
    if rs.len() == 0 {
        m
    } else {
        apply_recs(apply_rec(m, file_id, rs[0]), file_id, rs.drop_first())
    }
}

/// Replaying every record a scan of one file decodes.
pub open spec fn apply_file(m: Map<Seq<u8>, Header>, f: DataFile) -> Map<Seq<u8>, Header> {
    apply_recs(m, f.file_id, parsed_from(f.data@, 0))
}

/// Replaying a sequence of files, in order.
pub open spec fn apply_files(m: Map<Seq<u8>, Header>, files: Seq<DataFile>) -> Map<Seq<u8>, Header>
    decreases files.len(),
{
    if files.len() == 0 {
        m
    } else {
        apply_files(apply_file(m, files[0]), files.drop_first())
    }
}

/// File identifiers strictly increase along the sequence.
pub open spec fn file_ids_sorted(files: Seq<DataFile>) -> bool {
    forall|i: int, j: int|
        0 <= i < j < files.len() ==> (#[trigger] files[i]).file_id < (#[trigger] files[j]).file_id
}

/// Replaying records one more record extends the fold by one step.
pub proof fn lemma_apply_recs_push(
    m: Map<Seq<u8>, Header>,
    file_id: u64,
    rs: Seq<ParsedRec>,
    r: ParsedRec,
)
    ensures
        apply_recs(m, file_id, rs.push(r)) == apply_rec(apply_recs(m, file_id, rs), file_id, r),
    decreases rs.len(),
{
    if rs.len() == 0 {
        assert(rs.push(r)[0] == r);
        assert(rs.push(r).drop_first() =~= Seq::<ParsedRec>::empty());
        assert(apply_recs(apply_rec(m, file_id, r), file_id, Seq::empty()) == apply_rec(
            m,
            file_id,
            r,
        ));
        assert(apply_recs(m, file_id, rs.push(r)) == apply_rec(m, file_id, r));
        assert(apply_recs(m, file_id, rs) == m);
    } else {
        let m1 = apply_rec(m, file_id, rs[0]);
        assert(rs.push(r)[0] == rs[0]);
        assert(rs.push(r).drop_first() =~= rs.drop_first().push(r));
        lemma_apply_recs_push(m1, file_id, rs.drop_first(), r);
        assert(apply_recs(m, file_id, rs.push(r)) == apply_recs(
            m1,
            file_id,
            rs.drop_first().push(r),
        ));
        assert(apply_recs(m, file_id, rs) == apply_recs(m1, file_id, rs.drop_first()));
    }
}

/// A left fold over files can be peeled at the end.
pub proof fn lemma_apply_files_last(m: Map<Seq<u8>, Header>, files: Seq<DataFile>)
    requires
        files.len() > 0,
    ensures
        apply_files(m, files) == apply_file(apply_files(m, files.drop_last()), files.last()),
    decreases files.len(),
{
    if files.len() == 1 {
        assert(files.drop_first() =~= Seq::<DataFile>::empty());
        assert(files.drop_last() =~= Seq::<DataFile>::empty());
        assert(files.last() == files[0]);
        assert(apply_files(apply_file(m, files[0]), Seq::empty()) == apply_file(m, files[0]));
        assert(apply_files(m, files.drop_last()) == m);
    } else {
        let m1 = apply_file(m, files[0]);
        lemma_apply_files_last(m1, files.drop_first());
        assert(files.drop_first().last() == files.last());
        assert(files.drop_first().drop_last() =~= files.drop_last().drop_first());
        assert(files.drop_last()[0] == files[0]);
        assert(apply_files(m, files) == apply_files(m1, files.drop_first()));
        assert(apply_files(m, files.drop_last()) == apply_files(m1, files.drop_last().drop_first()));
    }
}

/// Replays the records of one data file into the key directory.
///
/// Returns whether the whole file decoded cleanly; on a decode failure the
/// entries already replayed are kept.
pub fn load_from_data_file(file_id: u64, data: &[u8], key_dir: &mut KeyDir) -> (clean: bool)
    requires
        old(key_dir).wf(),
    ensures
        final(key_dir).wf(),
        final(key_dir)@ == apply_recs(old(key_dir)@, file_id, parsed_from(data@, 0)),
        clean == (parse_end(data@, 0) == data@.len()),
{
    let ghost kd0 = key_dir@;
    let mut pos: usize = 0;
    let ghost mut done: Seq<ParsedRec> = Seq::empty();
    proof {
        assert(done + parsed_from(data@, 0) =~= parsed_from(data@, 0));
    }
    loop
        invariant
            pos <= data@.len(),
            key_dir.wf(),
            kd0 == old(key_dir)@,
            key_dir@ == apply_recs(kd0, file_id, done),
            parsed_from(data@, 0) == done + parsed_from(data@, pos as int),
            parse_end(data@, 0) == parse_end(data@, pos as int),
        decreases data@.len() - pos,
    {
        match byte_to_entry(data, pos) {
            DecodeResult::End => {
                proof {
                    assert(parsed_from(data@, pos as int) =~= Seq::<ParsedRec>::empty());
                    assert(parsed_from(data@, 0) =~= done);
                    assert(parse_end(data@, pos as int) == pos as int);
                }
                return true;
            },
            DecodeResult::Corrupt => {
                proof {
                    assert(parsed_from(data@, pos as int) =~= Seq::<ParsedRec>::empty());
                    assert(parsed_from(data@, 0) =~= done);
                    assert(parse_end(data@, pos as int) == pos as int);
                }
                return false;
            },
            DecodeResult::Entry(e, next) => {
                let ghost r = rec_at(data@, pos as int);
                proof {
                    assert(parsed_from(data@, pos as int) == seq![r] + parsed_from(
                        data@,
                        next as int,
                    ));
                    assert(parse_end(data@, pos as int) == parse_end(data@, next as int));
                    assert(r.val.len() == e.val_size);
                }
                let is_tombstone = e.val.len() == 1 && *vstd::slice::slice_index_get(
                    e.val.as_slice(),
                    0,
                ) == TOMBSTONE_MARKER_CHAR;
                if is_tombstone {
                    proof {
                        assert(e.val@ =~= tombstone());
                    }
                    key_dir.remove(e.key.as_slice());
                } else {
                    proof {
                        assert(e.val@ != tombstone());
                    }
                    key_dir.insert(
                        e.key,
                        Header {
                            file_id,
                            val_size: e.val_size,
                            val_offset: e.val_offset,
                            ts_tamp: e.ts_tamp,
                        },
                    );
                }
                proof {
                    assert(key_dir@ == apply_rec(apply_recs(kd0, file_id, done), file_id, r));
                    lemma_apply_recs_push(kd0, file_id, done, r);
                    assert(done + (seq![r] + parsed_from(data@, next as int)) =~= done.push(r)
                        + parsed_from(data@, next as int));
                    done = done.push(r);
                }
                pos = next;
            },
        }
    }
}

/// Rebuilds the key directory by replaying the given data files in order.
///
/// The caller supplies the files oldest-first (ascending file identifier),
/// as startup recovery enumerates them.
pub fn rebuild_storage(files: &Vec<DataFile>) -> (r: KeyDir)
    ensures
        r.wf(),
        r@ == apply_files(Map::<Seq<u8>, Header>::empty(), files@),
{
    let mut key_dir = KeyDir::new();
    let n = files.len();
    let mut i: usize = 0;
    while i < n
        invariant
            n == files@.len(),
            0 <= i <= n,
            key_dir.wf(),
            key_dir@ == apply_files(Map::<Seq<u8>, Header>::empty(), files@.take(i as int)),
        decreases n - i,
    {
        let f = &files[i];
        load_from_data_file(f.file_id, f.data.as_slice(), &mut key_dir);
        proof {
            let taken = files@.take(i + 1);
            lemma_apply_files_last(Map::<Seq<u8>, Header>::empty(), taken);
            assert(taken.drop_last() =~= files@.take(i as int));
            assert(taken.last() == files@[i as int]);
        }
        i += 1;
    }
    proof {
        assert(files@.take(n as int) =~= files@);
    }
    key_dir
}

} // verus!
