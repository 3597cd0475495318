//! The store's quantified guarantees, stated over the abstractions its
//! contracts use.
//!
//! [`Handle::put`](crate::Handle::put) promises that the store's contents —
//! the map [`Handle`](crate::Handle) views as — become `old.insert(key,
//! val)`; [`Handle::delete`](crate::Handle::delete) promises
//! `old.remove(key)`; and [`Handle::get`](crate::Handle::get) promises to
//! return exactly the map's entry for the key. The laws here are therefore
//! stated over those maps: together with the operations' own contracts they
//! say what any sequence of calls observes.
use vstd::prelude::*;

use crate::log::parse_end;
use crate::log::record_valid;
use crate::log::rec_end;
use crate::utils::is_expired;

verus! {

/// The contents of the store after a sequence of `put` calls applied to
/// contents `m`, each call inserting its pair as `put`'s contract states.
pub open spec fn apply_puts(
    m: Map<Seq<u8>, Seq<u8>>,
    pairs: Seq<(Seq<u8>, Seq<u8>)>,
) -> Map<Seq<u8>, Seq<u8>>
    decreases pairs.len(),
{
    if pairs.len() == 0 {
        m
    } else {
        apply_puts(m, pairs.drop_last()).insert(pairs.last().0, pairs.last().1)
    }
}

/// No two of the pairs carry the same key.
pub open spec fn put_keys_distinct(pairs: Seq<(Seq<u8>, Seq<u8>)>) -> bool {
    forall|i: int, j: int| 0 <= i < j < pairs.len() ==> (#[trigger] pairs[i]).0 != (
    #[trigger] pairs[j]).0
}

/// Round trip: after any finite sequence of `put(k_i, v_i)` with distinct
/// keys, the store's contents map each `k_i` to `v_i`, so `get(k_i)`
/// returns `some(v_i)`.
pub proof fn lemma_round_trip(m: Map<Seq<u8>, Seq<u8>>, pairs: Seq<(Seq<u8>, Seq<u8>)>, i: int)
    requires
        put_keys_distinct(pairs),
        0 <= i < pairs.len(),
    ensures
        apply_puts(m, pairs).contains_key(pairs[i].0),
        apply_puts(m, pairs)[pairs[i].0] == pairs[i].1,
    decreases pairs.len(),
{
    if i < pairs.len() - 1 {
        lemma_round_trip(m, pairs.drop_last(), i);
        assert(pairs.drop_last()[i] == pairs[i]);
        assert(pairs.last().0 != pairs[i].0);
    }
}

/// Last writer wins: after any sequence of writes ending in `put(k, v)`,
/// the store's contents map `k` to `v`, so `get(k)` returns `some(v)`.
pub proof fn lemma_last_writer_wins(m: Map<Seq<u8>, Seq<u8>>, pairs: Seq<(Seq<u8>, Seq<u8>)>)
    requires
        pairs.len() > 0,
    ensures
        apply_puts(m, pairs).contains_key(pairs.last().0),
        apply_puts(m, pairs)[pairs.last().0] == pairs.last().1,
{
}

/// Delete visibility: after `delete(k)` — whose contract removes `k` from
/// the store's contents — `get(k)` returns `none`, however often `k` was
/// written before.
pub proof fn lemma_delete_visibility(m: Map<Seq<u8>, Seq<u8>>, key: Seq<u8>)
    ensures
        !m.remove(key).contains_key(key),
{
}

/// A scan of a data file never runs past its first undecodable record: the
/// stop position is within the data, and if it is not the very end, no
/// valid record starts there. Records replayed into the index all lie
/// before the stop position, so a record whose stored checksum does not
/// match its bytes — as after any bit flip the checksum detects — and
/// everything after it contribute nothing.
pub proof fn lemma_scan_stops(data: Seq<u8>, pos: int)
    requires
        0 <= pos <= data.len(),
    ensures
        pos <= parse_end(data, pos) <= data.len(),
        parse_end(data, pos) < data.len() ==> !record_valid(data, parse_end(data, pos)),
    decreases data.len() - pos,
{
    if pos < data.len() && record_valid(data, pos) {
        lemma_scan_stops(data, rec_end(data, pos));
    }
}

/// Expiry: with an expiry window of `expiry_secs > 0`, an entry written at
/// `ts_tamp` and queried strictly after `ts_tamp + expiry_secs` counts as
/// expired, and [`Handle::get_at`](crate::Handle::get_at) then returns
/// `none` and deletes the key.
pub proof fn lemma_expiry(ts_tamp: u32, now: u32, expiry_secs: u32)
    requires
        expiry_secs > 0,
        ts_tamp + expiry_secs < now,
    ensures
        is_expired(ts_tamp, now, expiry_secs),
{
}

} // verus!
