//! Route expiry: which entries of an index space have gone stale.

use vstd::prelude::*;

verus! {

/// An entry last updated at `last_update` is stale at `now` once the
/// expiry window (saturating) lies before `now`.
pub open spec fn spec_is_stale(last_update: u64, expiry_ms: u64, now: u64) -> bool {
    let deadline = if last_update + expiry_ms > u64::MAX { u64::MAX as int } else { last_update + expiry_ms };
    deadline < now
}

/// Whether an entry last updated at `last_update` is stale at `now`.
pub fn is_stale(last_update: u64, expiry_ms: u64, now: u64) -> (r: bool)
    ensures
        r == spec_is_stale(last_update, expiry_ms, now),
{
    last_update.saturating_add(expiry_ms) < now
}

/// The indexes, ascending, among `slots[0..i]` whose entry is stale.
pub open spec fn stale_indexes(slots: Seq<Option<u64>>, expiry_ms: u64, now: u64, i: int) -> Seq<u16>
    decreases i,
{
    if i <= 0 {
        seq![]
    } else {
        let rest = stale_indexes(slots, expiry_ms, now, i - 1);
        match slots[i - 1] {
            Some(t) => if spec_is_stale(t, expiry_ms, now) {
                rest.push((i - 1) as u16)
            } else {
                rest
            },
            None => rest,
        }
    }
}

/// The indexes of an index space whose entry has not been refreshed
/// within the expiry window; `slots[i]` is the last update of the entry
/// at index `i`, if there is one.
pub fn collect_expired(slots: &Vec<Option<u64>>, expiry_ms: u64, now: u64) -> (r: Vec<u16>)
    requires
        slots@.len() <= 65536,
    ensures
        r@ == stale_indexes(slots@, expiry_ms, now, slots@.len() as int),
{
    let mut out: Vec<u16> = Vec::new();
    let n = slots.len();
    let mut i = 0usize;
    while i < n
        invariant
            n == slots@.len(),
            n <= 65536,
            i <= n,
            out@ == stale_indexes(slots@, expiry_ms, now, i as int),
        decreases n - i,
    {
        match slots[i] {
            Some(t) => {
                if is_stale(t, expiry_ms, now) {
                    out.push(i as u16);
                }
            },
            None => {},
        }
        i += 1;
    }
    out
}

} // verus!
