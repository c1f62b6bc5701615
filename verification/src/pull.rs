//! Manifest pulls: when to ask a neighbour for an origin's manifest, what
//! the request says, and the per-neighbour rate limits.

use vstd::prelude::*;

use std::collections::VecDeque;

use crate::codec::messages::{ManifestRequest, ManifestRequestItem};
use crate::seq::{is_fresher_u32, spec_is_fresher_u32};

verus! {

/// The length of the rate-limit window in milliseconds.
pub const RATE_WINDOW_MS: u64 = 1000;

/// The most items a MANIFEST_REQUEST carries: its count is one byte.
pub const MAX_REQUEST_ITEMS: usize = 255;

/// `now_ms - t`, or zero where `t` lies later.
pub open spec fn elapsed_ms(now_ms: u64, t: u64) -> int {
    if now_ms >= t {
        now_ms - t
    } else {
        0
    }
}

/// How many samples at the front of the window have left it.
pub open spec fn stale_prefix(samples: Seq<u64>, now_ms: u64) -> nat
    decreases samples.len(),
{
    if samples.len() == 0 {
        0
    } else if elapsed_ms(now_ms, samples[0]) >= RATE_WINDOW_MS {
        1 + stale_prefix(samples.skip(1), now_ms)
    } else {
        0
    }
}

/// A sliding one-second window: the samples that left the window at the
/// front are dropped; then an event is allowed, and recorded, while fewer
/// than `limit` remain.
pub fn allow_in_window(samples: &mut VecDeque<u64>, now_ms: u64, limit: u32) -> (allowed: bool)
    ensures
        ({
            let kept = old(samples)@.skip(stale_prefix(old(samples)@, now_ms) as int);
            &&& allowed == (kept.len() < limit)
            &&& allowed ==> final(samples)@ == kept.push(now_ms)
            &&& !allowed ==> final(samples)@ == kept
        }),
{
    let ghost d: int = 0;
    loop
        invariant
            0 <= d <= old(samples)@.len(),
            samples@ == old(samples)@.skip(d),
            stale_prefix(old(samples)@, now_ms) == d + stale_prefix(samples@, now_ms),
        ensures
            0 <= d <= old(samples)@.len(),
            samples@ == old(samples)@.skip(d),
            stale_prefix(old(samples)@, now_ms) == d,
        decreases samples@.len(),
    {
        if samples.len() == 0 {
            break;
        }
        let oldest = samples[0];
        if now_ms.saturating_sub(oldest) < RATE_WINDOW_MS {
            break;
        }
        let _ = samples.pop_front();
        proof {
            assert(old(samples)@.skip(d).subrange(1, old(samples)@.skip(d).len() as int) =~= old(
                samples,
            )@.skip(d + 1));
            d = d + 1;
        }
    }
    if samples.len() >= limit as usize {
        return false;
    }
    samples.push_back(now_ms);
    true
}

/// No window ever holds more events than its limit once it held at most
/// that many.
pub proof fn lemma_window_bounded(samples: Seq<u64>, now_ms: u64, limit: u32)
    requires
        samples.len() <= limit,
    ensures
        ({
            let kept = samples.skip(stale_prefix(samples, now_ms) as int);
            &&& kept.len() <= limit
            &&& kept.len() < limit ==> kept.push(now_ms).len() <= limit
        }),
{
    lemma_stale_prefix_bound(samples, now_ms);
}

proof fn lemma_stale_prefix_bound(samples: Seq<u64>, now_ms: u64)
    ensures
        stale_prefix(samples, now_ms) <= samples.len(),
    decreases samples.len(),
{
    if samples.len() > 0 {
        lemma_stale_prefix_bound(samples.skip(1), now_ms);
    }
}

/// A pull is worth queueing: the origin is not this node, the advertised
/// version is fresher than the committed one, and no request for the
/// origin is in flight.
pub open spec fn spec_should_request_manifest(
    is_own_origin: bool,
    committed: u32,
    advertised_version: u32,
    already_outstanding: bool,
) -> bool {
    !is_own_origin && spec_is_fresher_u32(advertised_version, committed) && !already_outstanding
}

/// Whether a fresher advertisement should queue a manifest pull.
pub fn should_request_manifest(
    is_own_origin: bool,
    committed: u32,
    advertised_version: u32,
    already_outstanding: bool,
) -> (r: bool)
    ensures
        r == spec_should_request_manifest(is_own_origin, committed, advertised_version, already_outstanding),
{
    if is_own_origin {
        return false;
    }
    if !is_fresher_u32(advertised_version, committed) {
        return false;
    }
    !already_outstanding
}

/// What we hold of an origin when asking for its manifest: its committed
/// version, and whether its record holds any entry.
#[derive(Debug, Clone, Copy)]
pub struct HeldManifest {
    pub manifest_version: u32,
    pub has_entries: bool,
}

/// The request item for an origin: "have none" when we hold no record,
/// or only a stub at version 0 without entries; else the version held.
pub open spec fn spec_request_item(origin_node_id: [u8; 8], held: Option<HeldManifest>) -> ManifestRequestItem {
    match held {
        Some(h) => if h.manifest_version == 0 && !h.has_entries {
            ManifestRequestItem { origin_node_id, have_version: 0, item_flags: 1 }
        } else {
            ManifestRequestItem { origin_node_id, have_version: h.manifest_version, item_flags: 0 }
        },
        None => ManifestRequestItem { origin_node_id, have_version: 0, item_flags: 1 },
    }
}

/// The request item for one origin.
pub fn request_item(origin_node_id: [u8; 8], held: Option<HeldManifest>) -> (r: ManifestRequestItem)
    ensures
        r == spec_request_item(origin_node_id, held),
{
    match held {
        Some(h) => if h.manifest_version == 0 && !h.has_entries {
            ManifestRequestItem { origin_node_id, have_version: 0, item_flags: 1 }
        } else {
            ManifestRequestItem { origin_node_id, have_version: h.manifest_version, item_flags: 0 }
        },
        None => ManifestRequestItem { origin_node_id, have_version: 0, item_flags: 1 },
    }
}

/// One MANIFEST_REQUEST for the queued origins, in the given order, with
/// what we hold of each; at most 255 items, the rest stay unasked.
pub fn build_manifest_request(origins: &Vec<[u8; 8]>, held: &Vec<Option<HeldManifest>>) -> (r:
    ManifestRequest)
    requires
        origins@.len() == held@.len(),
    ensures
        r.items@.len() == if origins@.len() < MAX_REQUEST_ITEMS {
            origins@.len() as int
        } else {
            MAX_REQUEST_ITEMS as int
        },
        forall|i: int|
            0 <= i < r.items@.len() ==> #[trigger] r.items@[i] == spec_request_item(origins@[i], held@[i]),
{
    let mut items: Vec<ManifestRequestItem> = Vec::new();
    let n = origins.len();
    let mut i = 0usize;
    while i < n && i < MAX_REQUEST_ITEMS
        invariant
            n == origins@.len(),
            n == held@.len(),
            i <= n,
            i <= MAX_REQUEST_ITEMS,
            items@.len() == i,
            forall|j: int| 0 <= j < i ==> #[trigger] items@[j] == spec_request_item(origins@[j], held@[j]),
        decreases n - i,
    {
        items.push(request_item(origins[i], held[i]));
        i += 1;
    }
    ManifestRequest { items }
}

/// A request sent at `sent_at_ms` is still waited for until its timeout
/// (in seconds) has passed.
pub open spec fn spec_request_live(now_ms: u64, sent_at_ms: u64, timeout_secs: u64) -> bool {
    let timeout_ms = if timeout_secs * 1000 > u64::MAX { u64::MAX as int } else { timeout_secs * 1000 };
    let deadline = if sent_at_ms + timeout_ms > u64::MAX { u64::MAX as int } else { sent_at_ms + timeout_ms };
    now_ms < deadline
}

/// Whether an outstanding request is still waited for.
pub fn request_live(now_ms: u64, sent_at_ms: u64, timeout_secs: u64) -> (r: bool)
    ensures
        r == spec_request_live(now_ms, sent_at_ms, timeout_secs),
{
    let timeout_ms = if timeout_secs > u64::MAX / 1000 { u64::MAX } else { timeout_secs * 1000 };
    now_ms < sent_at_ms.saturating_add(timeout_ms)
}

} // verus!
