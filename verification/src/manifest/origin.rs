//! This origin's own manifest: folding changed delegations into the
//! delta log when the version is bumped, and re-signing.

use vstd::prelude::*;


use crate::codec::messages::{ManifestEntry, NodeManifest};
use crate::keyed::{id_key, same_id, spec_id_key};
use crate::manifest::log::{record_key, LogRecord, ManifestLog};
use crate::manifest::{entry_key, Manifest};
use crate::identity::{signature_verifies, SigningKeys};
use crate::seq::spec_is_fresher_u32;
use crate::sphere::BumpTrigger;

verus! {

/// The first entry of user `id`, if any.
pub open spec fn first_entry_of(entries: Seq<ManifestEntry>, id: [u8; 8]) -> Option<ManifestEntry>
    decreases entries.len(),
{
    if entries.len() == 0 {
        None
    } else if entry_key(entries[0]) == spec_id_key(id) {
        Some(entries[0])
    } else {
        first_entry_of(entries.skip(1), id)
    }
}

/// The log record a bump to `version` writes for a changed user: its
/// entry as an add, or a tombstone where it has none any more.
pub open spec fn bump_record(entries: Seq<ManifestEntry>, id: [u8; 8], version: u32, now_ms: u64) -> LogRecord {
    match first_entry_of(entries, id) {
        Some(e) => LogRecord::Add { record_version: version, entry: e },
        None => LogRecord::Tombstone { user_id: id, record_version: version, created_ms: now_ms },
    }
}

/// The log after the changed users are folded in, one after the other.
pub open spec fn fold_dirty(
    log: Map<u64, LogRecord>,
    entries: Seq<ManifestEntry>,
    dirty: Seq<[u8; 8]>,
    version: u32,
    now_ms: u64,
) -> Map<u64, LogRecord>
    decreases dirty.len(),
{
    if dirty.len() == 0 {
        log
    } else {
        fold_dirty(log, entries, dirty.drop_last(), version, now_ms).insert(
            spec_id_key(dirty.last()),
            bump_record(entries, dirty.last(), version, now_ms),
        )
    }
}

/// Folding the changed users into the log leaves the record of every
/// other user as it was, and adds none for it.
pub proof fn lemma_fold_dirty_keeps_others(
    log: Map<u64, LogRecord>,
    entries: Seq<ManifestEntry>,
    dirty: Seq<[u8; 8]>,
    version: u32,
    now_ms: u64,
)
    ensures
        ({
            let f = fold_dirty(log, entries, dirty, version, now_ms);
            forall|k: u64|
                (forall|i: int| 0 <= i < dirty.len() ==> spec_id_key(#[trigger] dirty[i]) != k) ==> (
                #[trigger] f.dom().contains(k) <==> log.dom().contains(k)) && f[k] == log[k]
        }),
    decreases dirty.len(),
{
    if dirty.len() > 0 {
        let d = dirty.drop_last();
        let x = dirty.last();
        lemma_fold_dirty_keeps_others(log, entries, d, version, now_ms);
        let f0 = fold_dirty(log, entries, d, version, now_ms);
        let f = fold_dirty(log, entries, dirty, version, now_ms);
        assert(f == f0.insert(spec_id_key(x), bump_record(entries, x, version, now_ms)));
        assert forall|k: u64|
            (forall|i: int| 0 <= i < dirty.len() ==> spec_id_key(#[trigger] dirty[i]) != k) implies (
            #[trigger] f.dom().contains(k) <==> log.dom().contains(k)) && f[k] == log[k] by {
            assert(spec_id_key(dirty[dirty.len() - 1]) != k);
            assert forall|i: int| 0 <= i < d.len() implies spec_id_key(#[trigger] d[i]) != k by {
                assert(d[i] == dirty[i]);
            }
        }
    }
}

/// The first entry of user `id` in the manifest, if any.
pub(crate) fn find_entry(entries: &[ManifestEntry], id: &[u8; 8]) -> (r: Option<ManifestEntry>)
    ensures
        r == first_entry_of(entries@, *id),
        r matches Some(e) ==> spec_id_key(e.user_id) == spec_id_key(*id),
{
    let k = id_key(id);
    assert(entries@.skip(0) =~= entries@);
    let n = entries.len();
    let mut i = 0usize;
    while i < n
        invariant
            n == entries@.len(),
            i <= n,
            k == spec_id_key(*id),
            first_entry_of(entries@, *id) == first_entry_of(entries@.skip(i as int), *id),
        decreases n - i,
    {
        if id_key(&entries[i].user_id) == k {
            return Some(entries[i]);
        }
        proof {
            assert(entries@.skip(i as int).skip(1) =~= entries@.skip(i as int + 1));
        }
        i += 1;
    }
    None
}

/// Folds the changed users into the log at the next manifest version,
/// then moves the manifest to that version; returns it.
pub fn fold_dirty_and_bump(
    manifest: &mut Manifest,
    log: &mut ManifestLog,
    dirty: &Vec<[u8; 8]>,
    now_ms: u64,
) -> (v: u32)
    requires
        old(log).wf(),
    ensures
        v == old(manifest).spec_manifest_version().wrapping_add(1),
        final(manifest).spec_manifest_version() == v,
        final(manifest).spec_entries() == old(manifest).spec_entries(),
        final(manifest).spec_is_gateway() == old(manifest).spec_is_gateway(),
        final(manifest).spec_manifest_signature() == old(manifest).spec_manifest_signature(),
        final(manifest).spec_retained_chunks() == old(manifest).spec_retained_chunks(),
        final(manifest).wf() == old(manifest).wf(),
        final(log).wf(),
        final(log).spec_log_base() == old(log).spec_log_base(),
        final(log).record_map() == fold_dirty(
            old(log).record_map(),
            old(manifest).spec_entries(),
            dirty@,
            v,
            now_ms,
        ),
{
    let new_version = manifest.manifest_version().wrapping_add(1);
    let ghost entries = manifest.spec_entries();
    let n = dirty.len();
    let mut i = 0usize;
    while i < n
        invariant
            n == dirty@.len(),
            i <= n,
            log.wf(),
            log.spec_log_base() == old(log).spec_log_base(),
            manifest == old(manifest),
            entries == manifest.spec_entries(),
            new_version == old(manifest).spec_manifest_version().wrapping_add(1),
            log.record_map() == fold_dirty(
                old(log).record_map(),
                entries,
                dirty@.take(i as int),
                new_version,
                now_ms,
            ),
        decreases n - i,
    {
        let user_id = dirty[i];
        proof {
            let next = dirty@.take(i as int + 1);
            assert(next.drop_last() =~= dirty@.take(i as int));
            assert(next.last() == user_id);
        }
        match find_entry(manifest.entries(), &user_id) {
            Some(entry) => {
                log.insert_add(new_version, entry);
            },
            None => log.insert_remove(user_id, new_version, now_ms),
        }
        i += 1;
    }
    proof {
        assert(dirty@.take(n as int) =~= dirty@);
    }
    manifest.bump_version();
    new_version
}

/// Each changed user ends up with the record of the bump: its entry as
/// an add at the new version, or a tombstone at it; and that version is
/// fresher than the one bumped from, so a delta from there carries it.
pub proof fn lemma_bump_records_every_dirty_user(
    log: Map<u64, LogRecord>,
    entries: Seq<ManifestEntry>,
    dirty: Seq<[u8; 8]>,
    old_version: u32,
    now_ms: u64,
    j: int,
)
    requires
        0 <= j < dirty.len(),
    ensures
        ({
            let v = old_version.wrapping_add(1);
            let m = fold_dirty(log, entries, dirty, v, now_ms);
            &&& m.dom().contains(spec_id_key(dirty[j]))
            &&& m[spec_id_key(dirty[j])] == bump_record(entries, dirty[j], v, now_ms)
            &&& spec_is_fresher_u32(m[spec_id_key(dirty[j])].spec_record_version(), old_version)
        }),
    decreases dirty.len(),
{
    let v = old_version.wrapping_add(1);
    crate::seq::lemma_fresher_u32_successor(old_version);
    assert(v == (if old_version == 0xffff_ffff { 0 } else { (old_version + 1) as u32 }));
    if j < dirty.len() - 1 {
        lemma_bump_records_every_dirty_user(log, entries, dirty.drop_last(), old_version, now_ms, j);
        assert(dirty.drop_last()[j] == dirty[j]);
        let last = dirty.last();
        if spec_id_key(last) == spec_id_key(dirty[j]) {
            crate::keyed::lemma_id_key_injective(last, dirty[j]);
        }
    }
}

/// When a bump may happen: a forced one always; an accumulated one only
/// with changes pending and once the rate limit (in seconds, saturating)
/// has passed since the last bump.
pub open spec fn spec_bump_allowed(
    trigger: BumpTrigger,
    has_dirty: bool,
    now_ms: u64,
    last_bump_ms: u64,
    rate_limit_secs: u64,
) -> bool {
    if trigger == BumpTrigger::Accumulated {
        let window = if rate_limit_secs * 1000 > u64::MAX { u64::MAX as int } else { rate_limit_secs * 1000 };
        let open_at = if last_bump_ms + window > u64::MAX { u64::MAX as int } else { last_bump_ms + window };
        has_dirty && now_ms >= open_at
    } else {
        true
    }
}

/// Whether a manifest version bump may happen now.
pub fn bump_allowed(
    trigger: BumpTrigger,
    has_dirty: bool,
    now_ms: u64,
    last_bump_ms: u64,
    rate_limit_secs: u64,
) -> (r: bool)
    ensures
        r == spec_bump_allowed(trigger, has_dirty, now_ms, last_bump_ms, rate_limit_secs),
{
    match trigger {
        BumpTrigger::Accumulated => {
            if !has_dirty {
                return false;
            }
            let window = if rate_limit_secs > u64::MAX / 1000 { u64::MAX } else { rate_limit_secs * 1000 };
            !(now_ms < last_bump_ms.saturating_add(window))
        },
        BumpTrigger::FormTransition => true,
        BumpTrigger::ForcedRemoval => true,
    }
}

/// Signs the manifest's current state again: the whole-state signature,
/// and the chunks, which are left empty where the entries need more than
/// 256 chunks. Both signatures verify under the host's public key.
pub fn resign_manifest(
    manifest: &mut Manifest,
    host_keys: &SigningKeys,
    origin_node_id: [u8; 8],
    origin_multikey: &[u8],
)
    requires
        old(manifest).wf(),
    ensures
        final(manifest).wf(),
        final(manifest).spec_manifest_version() == old(manifest).spec_manifest_version(),
        final(manifest).spec_is_gateway() == old(manifest).spec_is_gateway(),
        final(manifest).spec_entries() == old(manifest).spec_entries(),
        final(manifest).spec_manifest_signature() matches Some(sig) && signature_verifies(
            host_keys.spec_public(),
            old(manifest).spec_state_input(origin_multikey@),
            sig@,
        ),
        crate::manifest::spec_chunk_count(old(manifest).spec_entries().len()) <= 256 ==> (
        final(manifest).spec_retained_chunks() matches Some(cs) && old(manifest).signed_chunks(
            origin_node_id,
            host_keys.spec_public(),
            origin_multikey@,
            cs@,
        )),
        crate::manifest::spec_chunk_count(old(manifest).spec_entries().len()) > 256
            ==> final(manifest).spec_retained_chunks() is None,
{
    let signature = match manifest.sign_state(host_keys, origin_multikey) {
        Ok(sig) => Some(sig),
        Err(_) => None,
    };
    let chunks = match manifest.build_chunks(origin_node_id, host_keys, origin_multikey) {
        Ok(cs) => Some(cs),
        Err(_) => None,
    };
    manifest.set_signed(signature, chunks);
}

/// The delegations whose timeout falls within the refresh window (in
/// seconds, saturating) from now, with their users' profile versions.
pub open spec fn due_for_refresh(entries: Seq<ManifestEntry>, now_ms: u64, window_secs: u64) -> Seq<([u8; 8], u32)>
    decreases entries.len(),
{
    if entries.len() == 0 {
        seq![]
    } else {
        let rest = due_for_refresh(entries.drop_last(), now_ms, window_secs);
        let window = if window_secs * 1000 > u64::MAX { u64::MAX as int } else { window_secs * 1000 };
        let deadline = if now_ms + window > u64::MAX { u64::MAX as int } else { now_ms + window };
        if entries.last().timeout <= deadline {
            rest.push((entries.last().user_id, entries.last().profile_version))
        } else {
            rest
        }
    }
}

/// The delegations of the manifest that are due for refresh.
pub fn delegations_due_for_refresh(manifest: &Manifest, now_ms: u64, window_secs: u64) -> (r: Vec<([u8; 8], u32)>)
    ensures
        r@ == due_for_refresh(manifest.spec_entries(), now_ms, window_secs),
{
    let window = if window_secs > u64::MAX / 1000 { u64::MAX } else { window_secs * 1000 };
    let deadline = now_ms.saturating_add(window);
    let entries = manifest.entries();
    let mut out: Vec<([u8; 8], u32)> = Vec::new();
    let n = entries.len();
    let mut i = 0usize;
    while i < n
        invariant
            n == entries@.len(),
            entries@ == manifest.spec_entries(),
            i <= n,
            deadline == (if now_ms + (if window_secs * 1000 > u64::MAX { u64::MAX as int } else { window_secs * 1000 }) > u64::MAX { u64::MAX as int } else { now_ms + (if window_secs * 1000 > u64::MAX { u64::MAX as int } else { window_secs * 1000 }) }),
            out@ == due_for_refresh(entries@.take(i as int), now_ms, window_secs),
        decreases n - i,
    {
        proof {
            let next = entries@.take(i as int + 1);
            assert(next.drop_last() =~= entries@.take(i as int));
        }
        if entries[i].timeout <= deadline {
            out.push((entries[i].user_id, entries[i].profile_version));
        }
        i += 1;
    }
    proof {
        assert(entries@.take(n as int) =~= entries@);
    }
    out
}


/// How long a carried user may stay unreachable before its delegation is
/// dropped, in milliseconds.
pub const UNREACHABLE_GRACE_MS: u64 = 60_000;

/// A user this node carries in its manifest, and whether it can currently
/// be delivered to.
#[derive(Debug, Clone, Copy)]
pub struct CarriedUser {
    pub user_id: [u8; 8],
    pub reachable: bool,
}

/// Since when user `id` has been watched according to `liveness`: the
/// first time recorded for it, else `now_ms`.
pub open spec fn since_of(liveness: Seq<([u8; 8], u64)>, id: [u8; 8], now_ms: u64) -> u64
    decreases liveness.len(),
{
    if liveness.len() == 0 {
        now_ms
    } else if liveness[0].0 == id {
        liveness[0].1
    } else {
        since_of(liveness.drop_first(), id, now_ms)
    }
}

/// The time a carried user is watched from after a sweep, or `None` when
/// its delegation is dropped: a reachable user restarts the clock; an
/// unreachable one keeps it running, and is dropped once the grace period
/// has passed.
pub open spec fn sweep_step(c: CarriedUser, liveness: Seq<([u8; 8], u64)>, now_ms: u64) -> Option<u64> {
    if c.reachable {
        Some(now_ms)
    } else {
        let since = since_of(liveness, c.user_id, now_ms);
        if now_ms > since && now_ms - since > UNREACHABLE_GRACE_MS {
            None
        } else {
            Some(since)
        }
    }
}

/// The liveness records after a sweep: one per carried user that is kept,
/// in the given order; records of users no longer carried are gone.
pub open spec fn swept_liveness(cs: Seq<CarriedUser>, liveness: Seq<([u8; 8], u64)>, now_ms: u64) -> Seq<
    ([u8; 8], u64),
>
    decreases cs.len(),
{
    if cs.len() == 0 {
        seq![]
    } else {
        let rest = swept_liveness(cs.drop_last(), liveness, now_ms);
        match sweep_step(cs.last(), liveness, now_ms) {
            Some(t) => rest.push((cs.last().user_id, t)),
            None => rest,
        }
    }
}

/// The carried users whose delegation a sweep drops, in the given order.
pub open spec fn swept_expired(cs: Seq<CarriedUser>, liveness: Seq<([u8; 8], u64)>, now_ms: u64) -> Seq<
    [u8; 8],
>
    decreases cs.len(),
{
    if cs.len() == 0 {
        seq![]
    } else {
        let rest = swept_expired(cs.drop_last(), liveness, now_ms);
        match sweep_step(cs.last(), liveness, now_ms) {
            Some(_) => rest,
            None => rest.push(cs.last().user_id),
        }
    }
}

/// Since when `id` has been watched.
fn since_in(liveness: &Vec<([u8; 8], u64)>, id: &[u8; 8], now_ms: u64) -> (r: u64)
    ensures
        r == since_of(liveness@, *id, now_ms),
{
    let n = liveness.len();
    let mut i = 0usize;
    proof {
        assert(liveness@.skip(0) =~= liveness@);
    }
    while i < n
        invariant
            n == liveness@.len(),
            i <= n,
            since_of(liveness@.skip(i as int), *id, now_ms) == since_of(liveness@, *id, now_ms),
        decreases n - i,
    {
        let (uid, t) = liveness[i];
        proof {
            let rest = liveness@.skip(i as int);
            assert(rest[0] == liveness@[i as int]);
            assert(rest.drop_first() =~= liveness@.skip(i as int + 1));
        }
        if same_id(&uid, id) {
            return t;
        }
        i += 1;
    }
    proof {
        assert(liveness@.skip(n as int).len() == 0);
    }
    now_ms
}

/// Sweeps the users this node carries: returns the liveness records to
/// keep and the users whose delegation is dropped.
pub fn sweep_liveness(carried: &Vec<CarriedUser>, liveness: &Vec<([u8; 8], u64)>, now_ms: u64) -> (r: (
    Vec<([u8; 8], u64)>,
    Vec<[u8; 8]>,
))
    ensures
        r.0@ == swept_liveness(carried@, liveness@, now_ms),
        r.1@ == swept_expired(carried@, liveness@, now_ms),
{
    let mut kept: Vec<([u8; 8], u64)> = Vec::new();
    let mut expired: Vec<[u8; 8]> = Vec::new();
    let n = carried.len();
    let mut i = 0usize;
    while i < n
        invariant
            n == carried@.len(),
            i <= n,
            kept@ == swept_liveness(carried@.take(i as int), liveness@, now_ms),
            expired@ == swept_expired(carried@.take(i as int), liveness@, now_ms),
        decreases n - i,
    {
        let c = carried[i];
        proof {
            let next = carried@.take(i as int + 1);
            assert(next.drop_last() =~= carried@.take(i as int));
            assert(next.last() == c);
        }
        if c.reachable {
            kept.push((c.user_id, now_ms));
        } else {
            let since = since_in(liveness, &c.user_id, now_ms);
            if now_ms > since && now_ms - since > UNREACHABLE_GRACE_MS {
                expired.push(c.user_id);
            } else {
                kept.push((c.user_id, since));
            }
        }
        i += 1;
    }
    proof {
        assert(carried@.take(n as int) =~= carried@);
    }
    (kept, expired)
}


/// A user first seen unreachable starts the clock rather than being
/// dropped: with no liveness record, the sweep keeps it, watched from now.
pub proof fn lemma_first_miss_is_spared(c: CarriedUser, liveness: Seq<([u8; 8], u64)>, now_ms: u64)
    requires
        forall|j: int| 0 <= j < liveness.len() ==> (#[trigger] liveness[j]).0 != c.user_id,
    ensures
        sweep_step(c, liveness, now_ms) == Some(now_ms),
    decreases liveness.len(),
{
    if liveness.len() > 0 {
        let rest = liveness.drop_first();
        assert forall|j: int| 0 <= j < rest.len() implies (#[trigger] rest[j]).0 != c.user_id by {
            assert(rest[j] == liveness[j + 1]);
        }
        lemma_first_miss_is_spared(c, rest, now_ms);
        assert(liveness[0].0 != c.user_id);
    }
}

} // verus!
