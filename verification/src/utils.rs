//! Clock access, expiry arithmetic, and data-file names: building
//! `<file_id>.bitcask.data` from an identifier and recognising such names
//! when recovery enumerates a directory.
use vstd::prelude::*;
use vstd::slice::slice_index_get;

verus! {

/// Relies on `std::time::SystemTime::now` and
/// `SystemTime::duration_since(UNIX_EPOCH)`: the number of whole seconds
/// between the Unix epoch and the moment of the call, or 0 if the clock
/// reads earlier than the epoch. The value depends on the clock, so nothing
/// is promised of it.
#[verifier::external_body]
pub fn epoch_secs() -> u64 {
    match std::time::SystemTime::now().duration_since(std::time::UNIX_EPOCH) {
        Ok(d) => d.as_secs(),
        Err(_) => 0,
    }
}

/// The current time as a 32-bit count of seconds since the Unix epoch,
/// truncated to the low 32 bits as record timestamps store it.
pub fn timestamp() -> (r: u32) {
    let now = epoch_secs();
    let low = now & 0xFFFF_FFFF;
    proof {
        assert(now & 0xFFFF_FFFFu64 <= 0xFFFF_FFFFu64) by (bit_vector);
    }
    low as u32
}

/// A stored timestamp `ts_tamp` has expired by time `now` under an expiry
/// window of `expiry_secs`: expiry is enabled and the entry was written
/// more than `expiry_secs` seconds before `now`.
pub open spec fn is_expired(ts_tamp: u32, now: u32, expiry_secs: u32) -> bool {
    expiry_secs > 0 && ts_tamp + expiry_secs < now
}

/// Decides [`is_expired`] on concrete values.
pub fn check_expired(ts_tamp: u32, now: u32, expiry_secs: u32) -> (r: bool)
    ensures
        r == is_expired(ts_tamp, now, expiry_secs),
{
    expiry_secs > 0 && (ts_tamp as u64) + (expiry_secs as u64) < (now as u64)
}

/// The oldest write time still visible under an expiry window of
/// `expire_secs`, measured from the clock now; 0 when expiry is disabled,
/// so that no stored timestamp counts as expired.
pub fn expiry_time(expire_secs: u32) -> (r: u32)
    ensures
        expire_secs == 0 ==> r == 0,
{
    if expire_secs > 0 {
        timestamp().saturating_sub(expire_secs)
    } else {
        0
    }
}

/// The number the ASCII decimal digits spell.
pub open spec fn dec_val(s: Seq<u8>) -> int
    decreases s.len(),
{
    if s.len() == 0 {
        0
    } else {
        dec_val(s.drop_last()) * 10 + (s.last() - 48)
    }
}

/// A longer prefix of a digit run never spells a smaller number.
pub proof fn lemma_dec_val_monotone(s: Seq<u8>, i: int, m: int)
    requires
        0 <= i <= m <= s.len(),
        forall|j: int| 0 <= j < m ==> 48 <= #[trigger] s[j] <= 57,
        dec_val(s.take(i)) >= 0,
    ensures
        dec_val(s.take(m)) >= dec_val(s.take(i)),
        dec_val(s.take(m)) >= 0,
    decreases m - i,
{
    if i < m {
        let t = s.take(i + 1);
        assert(t.drop_last() =~= s.take(i));
        assert(t.last() == s[i]);
        assert(dec_val(t) == dec_val(s.take(i)) * 10 + (s[i] - 48));
        lemma_dec_val_monotone(s, i + 1, m);
    }
}

/// The decimal digit character for a value below ten.
pub open spec fn digit_char(d: int) -> char {
    if d == 0 {
        '0'
    } else if d == 1 {
        '1'
    } else if d == 2 {
        '2'
    } else if d == 3 {
        '3'
    } else if d == 4 {
        '4'
    } else if d == 5 {
        '5'
    } else if d == 6 {
        '6'
    } else if d == 7 {
        '7'
    } else if d == 8 {
        '8'
    } else {
        '9'
    }
}

/// The decimal digit characters of a 64-bit integer, most significant
/// first, with no leading zeros (a single zero for zero).
pub open spec fn spec_dec_u64(n: u64) -> Seq<char>
    decreases n,
{
    if n < 10 {
        seq![digit_char(n as int)]
    } else {
        spec_dec_u64(n / 10).push(digit_char((n % 10) as int))
    }
}

fn digit_str(d: u64) -> (r: &'static str)
    requires
        d < 10,
    ensures
        r@ == seq![digit_char(d as int)],
{
    proof {
        reveal_strlit("0");
        reveal_strlit("1");
        reveal_strlit("2");
        reveal_strlit("3");
        reveal_strlit("4");
        reveal_strlit("5");
        reveal_strlit("6");
        reveal_strlit("7");
        reveal_strlit("8");
        reveal_strlit("9");
    }
    if d == 0 {
        "0"
    } else if d == 1 {
        "1"
    } else if d == 2 {
        "2"
    } else if d == 3 {
        "3"
    } else if d == 4 {
        "4"
    } else if d == 5 {
        "5"
    } else if d == 6 {
        "6"
    } else if d == 7 {
        "7"
    } else if d == 8 {
        "8"
    } else {
        "9"
    }
}

/// The decimal representation of a 64-bit integer.
pub fn u64_to_dec(n: u64) -> (r: String)
    ensures
        r@ == spec_dec_u64(n),
    decreases n,
{
    if n < 10 {
        String::from_str(digit_str(n))
    } else {
        let mut s = u64_to_dec(n / 10);
        s.append(digit_str(n % 10));
        proof {
            assert(s@ =~= spec_dec_u64(n));
        }
        s
    }
}

/// The canonical name of the data file with the given identifier:
/// the identifier in decimal followed by `.bitcask.data`.
pub fn build_data_file_name(file_id: u64) -> (r: String)
    ensures
        r@ == spec_dec_u64(file_id) + ".bitcask.data"@,
{
    let mut s = u64_to_dec(file_id);
    s.append(".bitcask.data");
    s
}

/// The position of the first non-digit byte at or after `i` (the length if
/// all remaining bytes are digits).
pub open spec fn digit_run(s: Seq<u8>, i: int) -> int
    decreases s.len() - i,
{
    if i < 0 || i >= s.len() {
        i
    } else if 48 <= s[i] <= 57 {
        digit_run(s, i + 1)
    } else {
        i
    }
}

/// The name ends in `.data`.
pub open spec fn ends_with_data_ext(s: Seq<u8>) -> bool {
    &&& s.len() >= 5
    &&& s.subrange(s.len() - 5, s.len() as int) == seq![46u8, 100u8, 97u8, 116u8, 97u8]
}

/// The file identifier a directory entry's name denotes, if any: the name
/// must start with one or more decimal digits spelling a 64-bit value,
/// followed directly by a dot, and end in `.data`.
pub open spec fn name_file_id(s: Seq<u8>) -> Option<u64> {
    let k = digit_run(s, 0);
    if 1 <= k < s.len() && s[k] == 46 && ends_with_data_ext(s) && dec_val(s.take(k)) <= u64::MAX {
        Some(dec_val(s.take(k)) as u64)
    } else {
        None
    }
}

fn has_data_ext(name: &[u8]) -> (r: bool)
    ensures
        r == ends_with_data_ext(name@),
{
    let n = name.len();
    if n < 5 {
        return false;
    }
    let r = *slice_index_get(name, n - 5) == 46 && *slice_index_get(name, n - 4) == 100
        && *slice_index_get(name, n - 3) == 97 && *slice_index_get(name, n - 2) == 116
        && *slice_index_get(name, n - 1) == 97;
    proof {
        let sub = name@.subrange(n - 5, n as int);
        let pat = seq![46u8, 100u8, 97u8, 116u8, 97u8];
        assert(sub[0] == name@[n - 5]);
        assert(sub[1] == name@[n - 4]);
        assert(sub[2] == name@[n - 3]);
        assert(sub[3] == name@[n - 2]);
        assert(sub[4] == name@[n - 1]);
        if r {
            assert(sub =~= pat);
        } else {
            assert(sub != pat);
        }
    }
    r
}

fn digit_at(name: &[u8], i: usize) -> (r: bool)
    requires
        i < name@.len(),
    ensures
        r == (48 <= name@[i as int] <= 57),
{
    let b = *slice_index_get(name, i);
    48 <= b && b <= 57
}

/// Parses a directory entry's name as a data-file name.
pub fn parse_data_file_name(name: &[u8]) -> (r: Option<u64>)
    ensures
        r == name_file_id(name@),
{
    let n = name.len();
    let mut i: usize = 0;
    let mut acc: u128 = 0;
    let mut overflow: bool = false;
    while i < n && digit_at(name, i)
        invariant
            n == name@.len(),
            0 <= i <= n,
            forall|j: int| 0 <= j < i ==> 48 <= #[trigger] name@[j] <= 57,
            digit_run(name@, 0) == digit_run(name@, i as int),
            !overflow ==> acc == dec_val(name@.take(i as int)) && acc <= u64::MAX,
            overflow ==> dec_val(name@.take(i as int)) > u64::MAX,
        decreases n - i,
    {
        let b = *slice_index_get(name, i);
        proof {
            assert(name@.take(i + 1).drop_last() =~= name@.take(i as int));
            assert(name@.take(i + 1).last() == name@[i as int]);
        }
        if !overflow {
            let next: u128 = acc * 10 + ((b - 48) as u128);
            if next > u64::MAX as u128 {
                overflow = true;
            } else {
                acc = next;
            }
        } else {
            proof {
                lemma_dec_val_monotone(name@, i as int, i + 1);
            }
        }
        i += 1;
    }
    let k = i;
    proof {
        assert(digit_run(name@, k as int) == k);
        assert(digit_run(name@, 0) == k);
    }
    if overflow {
        return None;
    }
    if k == 0 || k >= n {
        return None;
    }
    if *slice_index_get(name, k) != 46 {
        return None;
    }
    if !has_data_ext(name) {
        return None;
    }
    Some(acc as u64)
}

/// The identifiers strictly increase along the sequence.
pub open spec fn ids_strictly_sorted(ids: Seq<u64>) -> bool {
    forall|i: int, j: int| 0 <= i < j < ids.len() ==> ids[i] < ids[j]
}

fn insert_sorted_unique(ids: &mut Vec<u64>, x: u64)
    requires
        ids_strictly_sorted(old(ids)@),
    ensures
        ids_strictly_sorted(final(ids)@),
        forall|y: u64| final(ids)@.contains(y) <==> (old(ids)@.contains(y) || y == x),
{
    let ghost s1 = ids@;
    let n = ids.len();
    let mut i: usize = 0;
    while i < n && *vstd::std_specs::vec::vec_index(ids, i) < x
        invariant
            ids@ == s1,
            ids_strictly_sorted(s1),
            n == s1.len(),
            0 <= i <= n,
            forall|j: int| 0 <= j < i ==> s1[j] < x,
        decreases n - i,
    {
        i += 1;
    }
    if i < n {
        let cur = *vstd::std_specs::vec::vec_index(ids, i);
        if cur == x {
            proof {
                assert(s1.contains(x)) by {
                    assert(s1[i as int] == x);
                }
                assert(forall|y: u64| ids@.contains(y) <==> (s1.contains(y) || y == x));
            }
            return ;
        }
        proof {
            assert(s1[i as int] > x);
        }
    }
    ids.insert(i, x);
    proof {
        let s2 = ids@;
        assert(s2 == s1.insert(i as int, x));
        assert(forall|j: int| 0 <= j < i ==> s2[j] == s1[j]);
        assert(s2[i as int] == x);
        assert(forall|j: int| i < j < s2.len() ==> s2[j] == s1[j - 1]);
        assert forall|a: int, b: int| 0 <= a < b < s2.len() implies s2[a] < s2[b] by {
            if b < i {
                assert(s1[a] < s1[b]);
            } else if b == i {
                assert(s1[a] < x);
            } else if a == i {
                assert(i as int <= b - 1 < s1.len());
                if i < s1.len() {
                    assert(s1[i as int] > x);
                    if b - 1 > i {
                        assert(s1[i as int] < s1[b - 1]);
                    }
                }
            } else if a < i {
                assert(s1[a] < x);
                if b - 1 == i as int {
                    if i < s1.len() {
                        assert(x < s1[i as int]);
                    }
                } else {
                    assert(s1[a] < s1[b - 1]);
                }
            } else {
                assert(s1[a - 1] < s1[b - 1]);
            }
        }
        assert forall|y: u64| s2.contains(y) implies (s1.contains(y) || y == x) by {
            let idx = choose|idx: int| 0 <= idx < s2.len() && s2[idx] == y;
            if idx < i {
                assert(s1[idx] == y);
            } else if idx == i {
            } else {
                assert(s1[idx - 1] == y);
            }
        }
        assert forall|y: u64| (s1.contains(y) || y == x) implies s2.contains(y) by {
            if y == x {
                assert(s2[i as int] == y);
            } else {
                let idx = choose|idx: int| 0 <= idx < s1.len() && s1[idx] == y;
                if idx < i {
                    assert(s2[idx] == y);
                } else {
                    assert(s2[idx + 1] == y);
                }
            }
        }
    }
}

/// Collects the file identifiers that the given directory entry names
/// denote, each once, in ascending order — the order in which recovery
/// replays the files.
pub fn extract_data_file_ids(names: &Vec<Vec<u8>>) -> (ids: Vec<u64>)
    ensures
        ids_strictly_sorted(ids@),
        forall|y: u64|
            ids@.contains(y) <==> exists|n: int|
                0 <= n < names@.len() && name_file_id((#[trigger] names@[n])@) == Some(y),
{
    let mut ids: Vec<u64> = Vec::new();
    let count = names.len();
    let mut i: usize = 0;
    while i < count
        invariant
            count == names@.len(),
            0 <= i <= count,
            ids_strictly_sorted(ids@),
            forall|y: u64|
                ids@.contains(y) <==> exists|n: int|
                    0 <= n < i && name_file_id((#[trigger] names@[n])@) == Some(y),
        decreases count - i,
    {
        let name = &names[i];
        match parse_data_file_name(name.as_slice()) {
            Some(id) => {
                insert_sorted_unique(&mut ids, id);
                proof {
                    assert(name_file_id(names@[i as int]@) == Some(id));
                }
            },
            None => {},
        }
        proof {
            assert forall|y: u64| ids@.contains(y) implies exists|n: int|
                0 <= n < i + 1 && name_file_id((#[trigger] names@[n])@) == Some(y) by {}
            assert forall|y: u64|
                exists|n: int|
                    0 <= n < i + 1 && name_file_id((#[trigger] names@[n])@) == Some(
                        y,
                    ) implies ids@.contains(y) by {
                let n = choose|n: int|
                    0 <= n < i + 1 && name_file_id((#[trigger] names@[n])@) == Some(y);
            }
        }
        i += 1;
    }
    ids
}

} // verus!
