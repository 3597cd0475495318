//! On-disk record codec.
//!
//! Every record is laid out as `[crc | ts_tamp | ksz | vsz | key | val]`,
//! with the four integer fields big-endian unsigned 32-bit values. The
//! checksum covers every byte of the record after the `crc` field itself.
use vstd::prelude::*;
use vstd::slice::slice_index_get;
use vstd::slice::slice_subrange;
use vstd::slice::slice_to_vec;

verus! {

/// Width of the checksum field.
pub const CRC_SIZE: usize = 4;

/// Width of the timestamp field.
pub const TS_SIZE: usize = 4;

/// Width of the key-length field.
pub const KEY_SIZE: usize = 4;

/// Width of the value-length field.
pub const VAL_SIZE: usize = 4;

/// Byte offset of the checksum within a record.
pub const CRC_OFFSET: usize = 0;

/// Byte offset of the key-length field within a record.
pub const KEY_SIZE_OFFSET: usize = CRC_SIZE + TS_SIZE;

/// Byte offset of the value-length field within a record.
pub const VAL_SIZE_OFFSET: usize = KEY_SIZE_OFFSET + KEY_SIZE;

/// Byte offset of the key bytes within a record; also the header width.
pub const KEY_OFFSET: usize = VAL_SIZE_OFFSET + VAL_SIZE;

/// A deletion is recorded as an ordinary record whose value is this single
/// byte (the backspace character).
pub const TOMBSTONE_MARKER_CHAR: u8 = 8;

/// The checksum of a byte sequence as computed by the CRC32 (IEEE)
/// algorithm. The algorithm itself is not modelled; the executable wrapper
/// [`crc32`] ties this name to the real computation.
pub uninterp spec fn crc32_of(bytes: Seq<u8>) -> u32;

/// Relies on `crc32fast::hash`: the CRC32 (IEEE) checksum of `bytes`, a
/// function of the input bytes alone.
#[verifier::external_body]
pub fn crc32(bytes: &[u8]) -> (r: u32)
    ensures
        r == crc32_of(bytes@),
{
    crc32fast::hash(bytes)
}

/// The big-endian four-byte encoding of a 32-bit integer.
pub open spec fn spec_be32(x: u32) -> Seq<u8> {
    seq![
        ((x >> 24) & 0xff) as u8,
        ((x >> 16) & 0xff) as u8,
        ((x >> 8) & 0xff) as u8,
        (x & 0xff) as u8,
    ]
}

/// The 32-bit integer stored big-endian at position `pos` of `data`.
pub open spec fn be32_at(data: Seq<u8>, pos: int) -> u32
    recommends
        0 <= pos,
        pos + 4 <= data.len(),
{
    ((data[pos] as u32) << 24) | ((data[pos + 1] as u32) << 16) | ((data[pos + 2] as u32) << 8)
        | (data[pos + 3] as u32)
}

/// Decoding the four bytes that encode `x` yields `x` again.
pub proof fn lemma_be32_at_spec(data: Seq<u8>, pos: int, x: u32)
    requires
        0 <= pos,
        pos + 4 <= data.len(),
        data.subrange(pos, pos + 4) == spec_be32(x),
    ensures
        be32_at(data, pos) == x,
{
    let s = data.subrange(pos, pos + 4);
    assert(data[pos] == s[0]);
    assert(data[pos + 1] == s[1]);
    assert(data[pos + 2] == s[2]);
    assert(data[pos + 3] == s[3]);
    let b0 = ((x >> 24) & 0xff) as u8;
    let b1 = ((x >> 16) & 0xff) as u8;
    let b2 = ((x >> 8) & 0xff) as u8;
    let b3 = (x & 0xff) as u8;
    assert(((b0 as u32) << 24) | ((b1 as u32) << 16) | ((b2 as u32) << 8) | (b3 as u32) == x)
        by (bit_vector)
        requires
            b0 == ((x >> 24) & 0xff) as u8,
            b1 == ((x >> 16) & 0xff) as u8,
            b2 == ((x >> 8) & 0xff) as u8,
            b3 == (x & 0xff) as u8,
    ;
}

/// The bytes of a record after the checksum field: timestamp, key length,
/// value length, key, value.
pub open spec fn spec_payload(key: Seq<u8>, val: Seq<u8>, ts_tamp: u32) -> Seq<u8>
    recommends
        key.len() <= u32::MAX,
        val.len() <= u32::MAX,
{
    spec_be32(ts_tamp) + spec_be32(key.len() as u32) + spec_be32(val.len() as u32) + key + val
}

/// The complete on-disk encoding of one record.
pub open spec fn spec_record(key: Seq<u8>, val: Seq<u8>, ts_tamp: u32) -> Seq<u8>
    recommends
        key.len() <= u32::MAX,
        val.len() <= u32::MAX,
{
    spec_be32(crc32_of(spec_payload(key, val, ts_tamp))) + spec_payload(key, val, ts_tamp)
}

/// The stored checksum of the record starting at `pos`.
pub open spec fn rec_crc(data: Seq<u8>, pos: int) -> u32 {
    be32_at(data, pos)
}

/// The timestamp of the record starting at `pos`.
pub open spec fn rec_ts(data: Seq<u8>, pos: int) -> u32 {
    be32_at(data, pos + 4)
}

/// The key length of the record starting at `pos`.
pub open spec fn rec_ksz(data: Seq<u8>, pos: int) -> u32 {
    be32_at(data, pos + 8)
}

/// The value length of the record starting at `pos`.
pub open spec fn rec_vsz(data: Seq<u8>, pos: int) -> u32 {
    be32_at(data, pos + 12)
}

/// The position of the first value byte of the record starting at `pos`.
pub open spec fn rec_val_offset(data: Seq<u8>, pos: int) -> int {
    pos + 16 + rec_ksz(data, pos)
}

/// The position one past the last byte of the record starting at `pos`.
pub open spec fn rec_end(data: Seq<u8>, pos: int) -> int {
    pos + 16 + rec_ksz(data, pos) + rec_vsz(data, pos)
}

/// Whether a whole record fits between `pos` and the end of `data`.
pub open spec fn record_fits(data: Seq<u8>, pos: int) -> bool {
    &&& 0 <= pos
    &&& pos + 16 <= data.len()
    &&& rec_end(data, pos) <= data.len()
}

/// The key bytes of the record starting at `pos`.
pub open spec fn rec_key(data: Seq<u8>, pos: int) -> Seq<u8> {
    data.subrange(pos + 16, rec_val_offset(data, pos))
}

/// The value bytes of the record starting at `pos`.
pub open spec fn rec_val(data: Seq<u8>, pos: int) -> Seq<u8> {
    data.subrange(rec_val_offset(data, pos), rec_end(data, pos))
}

/// A record at `pos` decodes successfully: it fits, its value offset fits in
/// 32 bits, and its stored checksum matches the checksum of its remaining
/// bytes.
pub open spec fn record_valid(data: Seq<u8>, pos: int) -> bool {
    &&& record_fits(data, pos)
    &&& rec_val_offset(data, pos) <= u32::MAX
    &&& rec_crc(data, pos) == crc32_of(data.subrange(pos + 4, rec_end(data, pos)))
}

/// One decoded record, as recovery sees it.
pub ghost struct ParsedRec {
    pub key: Seq<u8>,
    pub val: Seq<u8>,
    pub ts_tamp: u32,
    pub val_offset: u32,
}

/// The decoded record starting at `pos`.
pub open spec fn rec_at(data: Seq<u8>, pos: int) -> ParsedRec {
    ParsedRec {
        key: rec_key(data, pos),
        val: rec_val(data, pos),
        ts_tamp: rec_ts(data, pos),
        val_offset: rec_val_offset(data, pos) as u32,
    }
}

/// All records decoded by a scan of `data` that starts at `pos`: the scan
/// stops at the end of the data or at the first record that fails to decode.
pub open spec fn parsed_from(data: Seq<u8>, pos: int) -> Seq<ParsedRec>
    decreases data.len() - pos,
{
    if pos < 0 || pos >= data.len() {
        Seq::empty()
    } else if record_valid(data, pos) {
        seq![rec_at(data, pos)] + parsed_from(data, rec_end(data, pos))
    } else {
        Seq::empty()
    }
}

/// The position at which a scan of `data` starting at `pos` stops.
pub open spec fn parse_end(data: Seq<u8>, pos: int) -> int
    decreases data.len() - pos,
{
    if pos < 0 || pos >= data.len() {
        pos
    } else if record_valid(data, pos) {
        parse_end(data, rec_end(data, pos))
    } else {
        pos
    }
}

/// A record freshly encoded into `data` at `pos` decodes to exactly the
/// fields it was encoded from.
pub proof fn lemma_record_parses(data: Seq<u8>, pos: int, key: Seq<u8>, val: Seq<u8>, ts_tamp: u32)
    requires
        0 <= pos,
        key.len() <= u32::MAX,
        val.len() <= u32::MAX,
        pos + 16 + key.len() <= u32::MAX,
        pos + 16 + key.len() + val.len() <= data.len(),
        data.subrange(pos, pos + 16 + key.len() + val.len()) == spec_record(key, val, ts_tamp),
    ensures
        record_valid(data, pos),
        rec_ksz(data, pos) == key.len(),
        rec_vsz(data, pos) == val.len(),
        rec_ts(data, pos) == ts_tamp,
        rec_key(data, pos) == key,
        rec_val(data, pos) == val,
        rec_val_offset(data, pos) == pos + 16 + key.len(),
        rec_end(data, pos) == pos + 16 + key.len() + val.len(),
{
    let p = spec_payload(key, val, ts_tamp);
    let r = spec_record(key, val, ts_tamp);
    let crc = crc32_of(p);
    let k = key.len() as int;
    let v = val.len() as int;
    assert(spec_be32(crc).len() == 4);
    assert(spec_be32(ts_tamp).len() == 4);
    assert(spec_be32(key.len() as u32).len() == 4);
    assert(spec_be32(val.len() as u32).len() == 4);
    assert(p.len() == 12 + k + v);
    assert(r.len() == 16 + k + v);
    let sub = data.subrange(pos, pos + 16 + k + v);
    assert forall|i: int| 0 <= i < 16 + k + v implies data[pos + i] == #[trigger] r[i] by {
        assert(sub[i] == data[pos + i]);
        assert(sub[i] == r[i]);
    }
    let s0 = data.subrange(pos, pos + 4);
    assert forall|i: int| 0 <= i < 4 implies #[trigger] s0[i] == spec_be32(crc)[i] by {
        assert(s0[i] == data[pos + i]);
        assert(r[i] == spec_be32(crc)[i]);
    }
    assert(s0 =~= spec_be32(crc));
    let s1 = data.subrange(pos + 4, pos + 8);
    assert forall|i: int| 0 <= i < 4 implies #[trigger] s1[i] == spec_be32(ts_tamp)[i] by {
        assert(s1[i] == data[pos + 4 + i]);
        assert(r[4 + i] == p[i]);
        assert(p[i] == spec_be32(ts_tamp)[i]);
    }
    assert(s1 =~= spec_be32(ts_tamp));
    let s2 = data.subrange(pos + 8, pos + 12);
    assert forall|i: int| 0 <= i < 4 implies #[trigger] s2[i] == spec_be32(key.len() as u32)[i] by {
        assert(s2[i] == data[pos + 8 + i]);
        assert(r[8 + i] == p[4 + i]);
        assert(p[4 + i] == spec_be32(key.len() as u32)[i]);
    }
    assert(s2 =~= spec_be32(key.len() as u32));
    let s3 = data.subrange(pos + 12, pos + 16);
    assert forall|i: int| 0 <= i < 4 implies #[trigger] s3[i] == spec_be32(val.len() as u32)[i] by {
        assert(s3[i] == data[pos + 12 + i]);
        assert(r[12 + i] == p[8 + i]);
        assert(p[8 + i] == spec_be32(val.len() as u32)[i]);
    }
    assert(s3 =~= spec_be32(val.len() as u32));
    lemma_be32_at_spec(data, pos, crc);
    lemma_be32_at_spec(data, pos + 4, ts_tamp);
    lemma_be32_at_spec(data, pos + 8, key.len() as u32);
    lemma_be32_at_spec(data, pos + 12, val.len() as u32);
    assert(rec_ksz(data, pos) == k);
    assert(rec_vsz(data, pos) == v);
    assert(rec_end(data, pos) == pos + 16 + k + v);
    let e = rec_end(data, pos);
    let body = data.subrange(pos + 4, e);
    assert forall|i: int| 0 <= i < 12 + k + v implies #[trigger] body[i] == p[i] by {
        assert(body[i] == data[pos + 4 + i]);
        assert(r[4 + i] == p[i]);
    }
    assert(body =~= p);
    assert(rec_crc(data, pos) == crc32_of(data.subrange(pos + 4, e)));
    let sk = rec_key(data, pos);
    assert forall|i: int| 0 <= i < k implies #[trigger] sk[i] == key[i] by {
        assert(sk[i] == data[pos + 16 + i]);
        assert(r[16 + i] == p[12 + i]);
        assert(p[12 + i] == key[i]);
    }
    assert(sk =~= key);
    let sv = rec_val(data, pos);
    assert forall|i: int| 0 <= i < v implies #[trigger] sv[i] == val[i] by {
        assert(sv[i] == data[pos + 16 + k + i]);
        assert(r[16 + k + i] == p[12 + k + i]);
        assert(p[12 + k + i] == val[i]);
    }
    assert(sv =~= val);
}

/// Extending the data beyond a record leaves that record's decoding
/// untouched.
pub proof fn lemma_record_prefix(d1: Seq<u8>, d2: Seq<u8>, pos: int)
    requires
        d1.len() <= d2.len(),
        d2.subrange(0, d1.len() as int) == d1,
        record_valid(d1, pos),
    ensures
        record_valid(d2, pos),
        rec_at(d2, pos) == rec_at(d1, pos),
        rec_end(d2, pos) == rec_end(d1, pos),
{
    assert forall|i: int| 0 <= i < d1.len() implies #[trigger] d2[i] == d1[i] by {
        assert(d2.subrange(0, d1.len() as int)[i] == d2[i]);
        assert(d2.subrange(0, d1.len() as int)[i] == d1[i]);
    }
    assert(rec_crc(d2, pos) == rec_crc(d1, pos));
    assert(rec_ts(d2, pos) == rec_ts(d1, pos));
    assert(rec_ksz(d2, pos) == rec_ksz(d1, pos));
    assert(rec_vsz(d2, pos) == rec_vsz(d1, pos));
    let e = rec_end(d1, pos);
    assert(rec_end(d2, pos) == e);
    let b2 = d2.subrange(pos + 4, e);
    let b1 = d1.subrange(pos + 4, e);
    assert forall|i: int| 0 <= i < e - (pos + 4) implies #[trigger] b2[i] == b1[i] by {
        assert(b2[i] == d2[pos + 4 + i]);
        assert(b1[i] == d1[pos + 4 + i]);
    }
    assert(b2 =~= b1);
    assert(d2.subrange(pos + 4, rec_end(d2, pos)) == b1);
    let vo = rec_val_offset(d1, pos);
    let k2 = rec_key(d2, pos);
    let k1 = rec_key(d1, pos);
    assert forall|i: int| 0 <= i < vo - (pos + 16) implies #[trigger] k2[i] == k1[i] by {
        assert(k2[i] == d2[pos + 16 + i]);
        assert(k1[i] == d1[pos + 16 + i]);
    }
    assert(k2 =~= k1);
    let v2 = rec_val(d2, pos);
    let v1 = rec_val(d1, pos);
    assert forall|i: int| 0 <= i < e - vo implies #[trigger] v2[i] == v1[i] by {
        assert(v2[i] == d2[vo + i]);
        assert(v1[i] == d1[vo + i]);
    }
    assert(v2 =~= v1);
}

/// Appending one encoded record to cleanly parsed data extends the scan's
/// result by exactly that record.
pub proof fn lemma_parsed_append_record(
    data: Seq<u8>,
    key: Seq<u8>,
    val: Seq<u8>,
    ts_tamp: u32,
    pos: int,
)
    requires
        0 <= pos <= data.len(),
        parse_end(data, pos) == data.len(),
        key.len() <= u32::MAX,
        val.len() <= u32::MAX,
        data.len() + 16 + key.len() <= u32::MAX,
    ensures
        ({
            let d2 = data + spec_record(key, val, ts_tamp);
            let rec = ParsedRec {
                key,
                val,
                ts_tamp,
                val_offset: (data.len() + 16 + key.len()) as u32,
            };
            &&& parse_end(d2, pos) == d2.len()
            &&& parsed_from(d2, pos) == parsed_from(data, pos).push(rec)
        }),
    decreases data.len() - pos,
{
    let d2 = data + spec_record(key, val, ts_tamp);
    let rec = ParsedRec { key, val, ts_tamp, val_offset: (data.len() + 16 + key.len()) as u32 };
    assert(d2.subrange(0, data.len() as int) =~= data);
    if pos == data.len() {
        let r = spec_record(key, val, ts_tamp);
        let e = pos + 16 + key.len() + val.len();
        assert(r.len() == 16 + key.len() + val.len());
        let s = d2.subrange(pos, e);
        assert forall|i: int| 0 <= i < r.len() implies #[trigger] s[i] == r[i] by {
            assert(s[i] == d2[pos + i]);
            assert(d2[pos + i] == r[i]);
        }
        assert(d2.subrange(pos, e) =~= spec_record(key, val, ts_tamp));
        lemma_record_parses(d2, pos, key, val, ts_tamp);
        assert(rec_end(d2, pos) == d2.len());
        assert(rec_at(d2, pos) == rec);
        assert(parsed_from(d2, rec_end(d2, pos)) =~= Seq::<ParsedRec>::empty());
        assert(parsed_from(d2, pos) =~= Seq::empty().push(rec_at(d2, pos)));
        assert(parsed_from(data, pos) =~= Seq::<ParsedRec>::empty());
        assert(parsed_from(d2, pos) =~= parsed_from(data, pos).push(rec));
        assert(parse_end(d2, rec_end(d2, pos)) == d2.len());
        assert(parse_end(d2, pos) == d2.len());
    } else {
        assert(record_valid(data, pos));
        lemma_record_prefix(data, d2, pos);
        let e = rec_end(data, pos);
        assert(parse_end(data, e) == data.len());
        lemma_parsed_append_record(data, key, val, ts_tamp, e);
        assert(parsed_from(d2, pos) == seq![rec_at(d2, pos)] + parsed_from(d2, e));
        assert(parsed_from(data, pos) == seq![rec_at(data, pos)] + parsed_from(data, e));
        assert(parsed_from(d2, e) == parsed_from(data, e).push(rec));
        assert(rec_at(d2, pos) == rec_at(data, pos));
        assert(seq![rec_at(data, pos)] + parsed_from(data, e).push(rec) =~= (
        seq![rec_at(data, pos)] + parsed_from(data, e)).push(rec));
        assert(parsed_from(d2, pos) == parsed_from(data, pos).push(rec));
        assert(parse_end(d2, pos) == parse_end(d2, e));
        assert(parse_end(d2, pos) == d2.len());
    }
}

/// One data file of the store: its identifier and its full contents.
///
/// The identifier is the number of seconds since the Unix epoch at the
/// moment the file was created; the file is named `<file_id>.bitcask.data`.
#[derive(Debug)]
pub struct DataFile {
    /// The file identifier.
    pub file_id: u64,
    /// The file's bytes: a sequence of encoded records.
    pub data: Vec<u8>,
}

/// One record, decoded from a data file.
#[derive(Debug)]
pub struct LogEntry {
    /// The four stored checksum bytes.
    pub crc: Vec<u8>,
    /// Write time, in seconds since the Unix epoch.
    pub ts_tamp: u32,
    /// Length of the value in bytes.
    pub val_size: u32,
    /// Byte offset of the first value byte within the data file.
    pub val_offset: u32,
    /// The key bytes.
    pub key: Vec<u8>,
    /// The value bytes.
    pub val: Vec<u8>,
}

/// The outcome of decoding one record.
pub enum DecodeResult {
    /// A record decoded successfully; the second field is the position just
    /// past its end.
    Entry(LogEntry, usize),
    /// The scan reached the end of the data cleanly.
    End,
    /// The bytes at the scan position do not form a whole, checksummed
    /// record.
    Corrupt,
}

/// Reads the big-endian 32-bit integer stored at `pos`.
pub fn read_be32(data: &[u8], pos: usize) -> (r: u32)
    requires
        pos + 4 <= data@.len(),
    ensures
        r == be32_at(data@, pos as int),
{
    let len = data.len();
    proof {
        assert(pos + 4 <= len);
    }
    let b0 = *slice_index_get(data, pos);
    let b1 = *slice_index_get(data, pos + 1);
    let b2 = *slice_index_get(data, pos + 2);
    let b3 = *slice_index_get(data, pos + 3);
    ((b0 as u32) << 24) | ((b1 as u32) << 16) | ((b2 as u32) << 8) | (b3 as u32)
}

/// Appends the big-endian four-byte encoding of `x`.
pub fn push_be32(out: &mut Vec<u8>, x: u32)
    ensures
        final(out)@ == old(out)@ + spec_be32(x),
{
    out.push(((x >> 24) & 0xff) as u8);
    out.push(((x >> 16) & 0xff) as u8);
    out.push(((x >> 8) & 0xff) as u8);
    out.push((x & 0xff) as u8);
    proof {
        assert(out@ =~= old(out)@ + spec_be32(x));
    }
}

/// Parses the record at the head of `buf` into the index entry it gives
/// rise to within the file named by `file_id`.
///
/// Returns `None` exactly when no whole, valid record starts there.
pub fn byte_to_header(buf: &[u8], file_id: u64) -> (r: Option<crate::keydir::Header>)
    ensures
        (r is Some) <==> (0 < buf@.len() && record_valid(buf@, 0)),
        r matches Some(h) ==> h == (crate::keydir::Header {
            file_id,
            val_size: rec_vsz(buf@, 0),
            val_offset: rec_val_offset(buf@, 0) as u32,
            ts_tamp: rec_ts(buf@, 0),
        }),
{
    match byte_to_entry(buf, 0) {
        DecodeResult::Entry(e, _) => Some(
            crate::keydir::Header {
                file_id,
                val_size: e.val_size,
                val_offset: e.val_offset,
                ts_tamp: e.ts_tamp,
            },
        ),
        _ => None,
    }
}

/// A sequential decoder over one data file's bytes, yielding records in
/// append order; recovery drives it until the data ends or a record fails
/// to decode.
pub struct LogIterator {
    data: Vec<u8>,
    pos: usize,
}

impl LogIterator {
    /// The file bytes being scanned.
    pub closed spec fn spec_data(self) -> Seq<u8> {
        self.data@
    }

    /// The scan position.
    pub closed spec fn spec_pos(self) -> int {
        self.pos as int
    }

    /// The scan position lies within the data.
    pub open spec fn wf(self) -> bool {
        0 <= self.spec_pos() <= self.spec_data().len()
    }

    /// A scanner positioned at the start of the given file contents.
    pub fn new(data: Vec<u8>) -> (r: Self)
        ensures
            r.spec_data() == data@,
            r.spec_pos() == 0,
            r.wf(),
    {
        LogIterator { data, pos: 0 }
    }

    /// Decodes the record at the scan position and advances past it.
    pub fn next_entry(&mut self) -> (r: DecodeResult)
        requires
            old(self).wf(),
        ensures
            final(self).wf(),
            final(self).spec_data() == old(self).spec_data(),
            (r is End) <==> old(self).spec_pos() == old(self).spec_data().len(),
            (r is Entry) <==> (old(self).spec_pos() < old(self).spec_data().len()
                && record_valid(old(self).spec_data(), old(self).spec_pos())),
            match r {
                DecodeResult::Entry(e, next) => {
                    &&& e.key@ == rec_key(old(self).spec_data(), old(self).spec_pos())
                    &&& e.val@ == rec_val(old(self).spec_data(), old(self).spec_pos())
                    &&& e.ts_tamp == rec_ts(old(self).spec_data(), old(self).spec_pos())
                    &&& e.val_size == rec_vsz(old(self).spec_data(), old(self).spec_pos())
                    &&& e.val_offset == rec_val_offset(old(self).spec_data(), old(self).spec_pos())
                    &&& next == rec_end(old(self).spec_data(), old(self).spec_pos())
                    &&& final(self).spec_pos() == next
                },
                _ => final(self).spec_pos() == old(self).spec_pos(),
            },
    {
        match byte_to_entry(self.data.as_slice(), self.pos) {
            DecodeResult::Entry(e, next) => {
                self.pos = next;
                DecodeResult::Entry(e, next)
            },
            DecodeResult::End => DecodeResult::End,
            DecodeResult::Corrupt => DecodeResult::Corrupt,
        }
    }
}

/// Decodes the record stored at `pos`, checking its checksum.
///
/// Returns `End` exactly at the end of the data, `Corrupt` if no whole,
/// valid record starts at `pos`, and otherwise the record together with the
/// position of the next one.
pub fn byte_to_entry(data: &[u8], pos: usize) -> (r: DecodeResult)
    requires
        pos <= data@.len(),
    ensures
        (r is End) <==> pos == data@.len(),
        (r is Entry) <==> (pos < data@.len() && record_valid(data@, pos as int)),
        match r {
            DecodeResult::Entry(e, next) => {
                &&& e.key@ == rec_key(data@, pos as int)
                &&& e.val@ == rec_val(data@, pos as int)
                &&& e.ts_tamp == rec_ts(data@, pos as int)
                &&& e.val_size == rec_vsz(data@, pos as int)
                &&& e.val_offset == rec_val_offset(data@, pos as int)
                &&& e.crc@ == data@.subrange(pos as int, pos + 4)
                &&& next == rec_end(data@, pos as int)
                &&& pos < next <= data@.len()
            },
            _ => true,
        },
{
    let len = data.len();
    if pos == len {
        return DecodeResult::End;
    }
    if len - pos < 16 {
        return DecodeResult::Corrupt;
    }
    let crc_stored = read_be32(data, pos);
    let ts_tamp = read_be32(data, pos + 4);
    let ksz = read_be32(data, pos + 8);
    let vsz = read_be32(data, pos + 12);
    let remaining = len - (pos + 16);
    if ksz as usize > remaining {
        return DecodeResult::Corrupt;
    }
    if vsz as usize > remaining - ksz as usize {
        return DecodeResult::Corrupt;
    }
    let val_offset = pos + 16 + ksz as usize;
    let end = val_offset + vsz as usize;
    if val_offset > u32::MAX as usize {
        return DecodeResult::Corrupt;
    }
    let crc_calc = crc32(slice_subrange(data, pos + 4, end));
    if crc_calc != crc_stored {
        return DecodeResult::Corrupt;
    }
    let key = slice_to_vec(slice_subrange(data, pos + 16, val_offset));
    let val = slice_to_vec(slice_subrange(data, val_offset, end));
    let crc = slice_to_vec(slice_subrange(data, pos, pos + 4));
    DecodeResult::Entry(
        LogEntry { crc, ts_tamp, val_size: vsz, val_offset: val_offset as u32, key, val },
        end,
    )
}

} // verus!
