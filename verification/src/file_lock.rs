//! The decision logic guarding a data directory against a second process.
//!
//! The lock file `pid.lock` holds the ASCII decimal PID of the process
//! holding the directory. The I/O shell creates, locks, reads and rewrites
//! the file; the functions here decide what its contents mean: an empty or
//! unreadable PID refuses startup, a readable PID is probed for liveness,
//! and a live owner refuses startup while a dead one may be replaced.
use vstd::prelude::*;
use vstd::slice::slice_index_get;

use crate::error::BitcaskError;
use crate::utils::dec_val;
use crate::utils::lemma_dec_val_monotone;

verus! {

/// The bytes are one or more ASCII decimal digits.
pub open spec fn is_dec_digits(s: Seq<u8>) -> bool {
    &&& s.len() > 0
    &&& forall|i: int| 0 <= i < s.len() ==> 48 <= #[trigger] s[i] <= 57
}

/// Parses an ASCII decimal PID.
///
/// Returns the value exactly when the bytes are all digits, at least one,
/// and the value fits an `i32` (the kernel's process identifier type).
pub fn parse_pid(bytes: &[u8]) -> (r: Option<i32>)
    ensures
        (r is Some) <==> (is_dec_digits(bytes@) && dec_val(bytes@) <= i32::MAX),
        r matches Some(p) ==> p == dec_val(bytes@),
{
    let n = bytes.len();
    if n == 0 {
        return None;
    }
    let mut acc: i64 = 0;
    let mut i: usize = 0;
    while i < n
        invariant
            n == bytes@.len(),
            0 <= i <= n,
            forall|j: int| 0 <= j < i ==> 48 <= #[trigger] bytes@[j] <= 57,
            acc == dec_val(bytes@.take(i as int)),
            0 <= acc <= i32::MAX,
        decreases n - i,
    {
        let b = *slice_index_get(bytes, i);
        if b < 48 || b > 57 {
            proof {
                assert(!(48 <= bytes@[i as int] <= 57));
            }
            return None;
        }
        let next: i64 = acc * 10 + ((b - 48) as i64);
        proof {
            assert(bytes@.take(i + 1).drop_last() =~= bytes@.take(i as int));
            assert(bytes@.take(i + 1).last() == bytes@[i as int]);
        }
        if next > i32::MAX as i64 {
            proof {
                if is_dec_digits(bytes@) {
                    lemma_dec_val_monotone(bytes@, i + 1, n as int);
                    assert(bytes@.take(n as int) =~= bytes@);
                }
            }
            return None;
        }
        acc = next;
        i += 1;
    }
    proof {
        assert(bytes@.take(n as int) =~= bytes@);
    }
    Some(acc as i32)
}

/// Judges the contents of an existing lock file, once the I/O shell has
/// taken the advisory lock on it.
///
/// An empty or unreadable PID means the lock is unrecoverable without an
/// operator; a readable PID is returned for the shell to probe.
pub fn evaluate_lock_file(contents: &[u8]) -> (r: Result<i32, BitcaskError>)
    ensures
        (r is Ok) <==> (is_dec_digits(contents@) && dec_val(contents@) <= i32::MAX),
        match r {
            Ok(p) => p == dec_val(contents@),
            Err(e) => e == BitcaskError::StaleLock,
        },
{
    match parse_pid(contents) {
        Some(p) => Ok(p),
        None => Err(BitcaskError::StaleLock),
    }
}

/// Decides what a liveness probe of the lock file's owner means: a live
/// owner refuses startup with lock contention; a dead owner's lock is
/// stale and may be taken over.
pub fn lock_verdict(owner_alive: bool) -> (r: Result<(), BitcaskError>)
    ensures
        (r is Ok) <==> !owner_alive,
        r matches Err(e) ==> e == BitcaskError::LockContention,
{
    if owner_alive {
        Err(BitcaskError::LockContention)
    } else {
        Ok(())
    }
}

} // verus!
