//! This node's own manifest as an origin: the delegations it carries,
//! which of them changed since the version last published, and when that
//! version was bumped.

use vstd::prelude::*;


use crate::codec::messages::ManifestEntry;
use crate::identity::{signature_verifies, Multikey, SelfDelegation, SigningKeys};
use crate::keyed::same_id;
use crate::manifest::log::ManifestLog;
use crate::manifest::origin::{
    bump_allowed, find_entry, first_entry_of, fold_dirty, fold_dirty_and_bump, resign_manifest,
    spec_bump_allowed,
};
use crate::manifest::{entry_key, sort_by_user, sorted_by_user, sorted_insert, spec_remove, spec_upsert, Manifest};
use crate::sphere::BumpTrigger;

verus! {

/// What an origin persists of its manifest across restarts.
#[derive(Debug, Clone)]
pub struct HostManifestState {
    pub manifest_version: u32,
    pub is_gateway: bool,
    pub entries: Vec<ManifestEntry>,
}

/// No id occurs twice.
pub open spec fn distinct_ids(s: Seq<[u8; 8]>) -> bool {
    forall|i: int, j: int| 0 <= i < j < s.len() ==> s[i] != s[j]
}

/// The origin side of this node's manifest.
pub struct OriginManifest {
    manifest: Manifest,
    log: ManifestLog,
    dirty: Vec<[u8; 8]>,
    last_bump_ms: u64,
    rate_limit_secs: u64,
}

impl OriginManifest {
    /// The manifest as currently held (its version is the one published).
    pub closed spec fn spec_manifest(&self) -> Manifest {
        self.manifest
    }

    /// The delta log of the published versions.
    pub closed spec fn spec_log(&self) -> ManifestLog {
        self.log
    }

    /// The users whose delegation changed since the last bump, each once.
    pub closed spec fn spec_dirty(&self) -> Seq<[u8; 8]> {
        self.dirty@
    }

    /// When the version was last bumped.
    pub closed spec fn spec_last_bump_ms(&self) -> u64 {
        self.last_bump_ms
    }

    /// The least time between two accumulated bumps, in seconds.
    pub closed spec fn spec_rate_limit_secs(&self) -> u64 {
        self.rate_limit_secs
    }

    pub closed spec fn wf(&self) -> bool {
        &&& self.manifest.wf()
        &&& self.log.wf()
        &&& distinct_ids(self.dirty@)
    }

    /// A well-formed origin holds a well-formed manifest and log.
    pub proof fn lemma_wf_parts(&self)
        requires
            self.wf(),
        ensures
            self.spec_manifest().wf(),
            self.spec_log().wf(),
    {
    }

    /// An origin that carries nothing, at version 0, never bumped; an
    /// accumulated bump waits `rate_limit_secs` seconds after the last.
    pub fn new(rate_limit_secs: u64) -> (o: OriginManifest)
        ensures
            o.wf(),
            o.spec_manifest().spec_manifest_version() == 0,
            o.spec_manifest().spec_entries() == Seq::<ManifestEntry>::empty(),
            !o.spec_manifest().spec_is_gateway(),
            o.spec_log().spec_log_base() == 0,
            o.spec_log().record_map() == Map::<u64, crate::manifest::log::LogRecord>::empty(),
            o.spec_dirty() == Seq::<[u8; 8]>::empty(),
            o.spec_last_bump_ms() == 0,
            o.spec_rate_limit_secs() == rate_limit_secs,
    {
        OriginManifest {
            manifest: Manifest::new(),
            log: ManifestLog::default(),
            dirty: Vec::new(),
            last_bump_ms: 0,
            rate_limit_secs,
        }
    }

    /// The manifest.
    pub fn manifest(&self) -> (m: &Manifest)
        ensures
            *m == self.spec_manifest(),
    {
        &self.manifest
    }

    /// The delta log.
    pub fn log(&self) -> (l: &ManifestLog)
        ensures
            *l == self.spec_log(),
    {
        &self.log
    }

    /// The users whose delegation changed since the last bump.
    pub fn dirty(&self) -> (d: &Vec<[u8; 8]>)
        ensures
            d@ == self.spec_dirty(),
    {
        &self.dirty
    }

    /// Marks a user's delegation as changed.
    fn mark_dirty(&mut self, user_id: [u8; 8])
        requires
            distinct_ids(old(self).dirty@),
        ensures
            distinct_ids(final(self).dirty@),
            final(self).dirty@.to_set() == old(self).dirty@.to_set().insert(user_id),
            old(self).dirty@.contains(user_id) ==> final(self).dirty@ == old(self).dirty@,
            !old(self).dirty@.contains(user_id) ==> final(self).dirty@ == old(self).dirty@.push(user_id),
            final(self).manifest == old(self).manifest,
            final(self).log == old(self).log,
            final(self).last_bump_ms == old(self).last_bump_ms,
            final(self).rate_limit_secs == old(self).rate_limit_secs,
    {
        let n = self.dirty.len();
        let mut i = 0usize;
        while i < n
            invariant
                self.dirty@ == old(self).dirty@,
                distinct_ids(self.dirty@),
                n == self.dirty@.len(),
                i <= n,
                forall|j: int| 0 <= j < i ==> self.dirty@[j] != user_id,
            decreases n - i,
        {
            if same_id(&self.dirty[i], &user_id) {
                proof {
                    assert(self.dirty@[i as int] == user_id);
                    assert(self.dirty@.contains(user_id));
                    assert(self.dirty@.to_set() =~= self.dirty@.to_set().insert(user_id));
                }
                return;
            }
            i += 1;
        }
        let ghost before = self.dirty@;
        self.dirty.push(user_id);
        proof {
            assert(!before.contains(user_id));
            before.lemma_push_to_set_commute(user_id);
            assert forall|a: int, b: int| 0 <= a < b < self.dirty@.len() implies self.dirty@[a]
                != self.dirty@[b] by {
                if b == before.len() {
                    assert(before[a] != user_id);
                }
            }
        }
    }

    /// Puts a verified delegation entry into the manifest, replacing the
    /// user's previous one; a change marks the user dirty and waits for
    /// the next bump. Returns whether the entries changed.
    pub fn record_delegation(&mut self, entry: ManifestEntry) -> (changed: bool)
        requires
            old(self).wf(),
        ensures
            final(self).wf(),
            (final(self).spec_manifest().spec_entries(), changed) == spec_upsert(
                old(self).spec_manifest().spec_entries(),
                entry,
            ),
            final(self).spec_manifest().spec_manifest_version() == old(
                self,
            ).spec_manifest().spec_manifest_version(),
            changed ==> final(self).spec_dirty().to_set() == old(self).spec_dirty().to_set().insert(
                entry.user_id,
            ),
            !changed ==> final(self).spec_dirty() == old(self).spec_dirty(),
            final(self).spec_log() == old(self).spec_log(),
            final(self).spec_last_bump_ms() == old(self).spec_last_bump_ms(),
            final(self).spec_rate_limit_secs() == old(self).spec_rate_limit_secs(),
    {
        let changed = self.manifest.upsert_entry(entry);
        if changed {
            self.mark_dirty(entry.user_id);
        }
        changed
    }

    /// Records a user's self-delegation to this host.
    pub fn add_self_delegation(
        &mut self,
        user_id: [u8; 8],
        profile_version: u32,
        delegation: SelfDelegation,
    ) -> (changed: bool)
        requires
            old(self).wf(),
        ensures
            final(self).wf(),
            (final(self).spec_manifest().spec_entries(), changed) == spec_upsert(
                old(self).spec_manifest().spec_entries(),
                ManifestEntry {
                    user_id,
                    timeout: delegation.timeout,
                    entry_signature: delegation.entry_signature,
                    profile_version,
                },
            ),
            final(self).spec_manifest().spec_manifest_version() == old(
                self,
            ).spec_manifest().spec_manifest_version(),
            changed ==> final(self).spec_dirty().to_set() == old(self).spec_dirty().to_set().insert(
                user_id,
            ),
            !changed ==> final(self).spec_dirty() == old(self).spec_dirty(),
            final(self).spec_log() == old(self).spec_log(),
            final(self).spec_last_bump_ms() == old(self).spec_last_bump_ms(),
            final(self).spec_rate_limit_secs() == old(self).spec_rate_limit_secs(),
    {
        self.record_delegation(
            ManifestEntry {
                user_id,
                timeout: delegation.timeout,
                entry_signature: delegation.entry_signature,
                profile_version,
            },
        )
    }

    /// Removes the user's delegation; a removal marks the user dirty.
    /// Returns whether there was one.
    pub fn remove_self_delegation(&mut self, user_id: &[u8; 8]) -> (removed: bool)
        requires
            old(self).wf(),
        ensures
            final(self).wf(),
            (final(self).spec_manifest().spec_entries(), removed) == spec_remove(
                old(self).spec_manifest().spec_entries(),
                *user_id,
            ),
            final(self).spec_manifest().spec_manifest_version() == old(
                self,
            ).spec_manifest().spec_manifest_version(),
            removed ==> final(self).spec_dirty().to_set() == old(self).spec_dirty().to_set().insert(
                *user_id,
            ),
            !removed ==> final(self).spec_dirty() == old(self).spec_dirty(),
            final(self).spec_log() == old(self).spec_log(),
            final(self).spec_last_bump_ms() == old(self).spec_last_bump_ms(),
            final(self).spec_rate_limit_secs() == old(self).spec_rate_limit_secs(),
    {
        let removed = self.manifest.remove_entry(user_id);
        if removed {
            self.mark_dirty(*user_id);
        }
        removed
    }

    /// Whether the user has an entry in this manifest.
    pub fn has_self_delegation(&self, user_id: &[u8; 8]) -> (r: bool)
        ensures
            r == (first_entry_of(self.spec_manifest().spec_entries(), *user_id) is Some),
    {
        find_entry(self.manifest.entries(), user_id).is_some()
    }

    /// Bumps the manifest version where `trigger` allows it now: the
    /// changed users are folded into the log at the new version, the
    /// manifest is signed again, the changes are cleared and the rate
    /// limit restarts. Returns the new version, or `None` where no bump
    /// happened, which leaves everything as it was.
    pub fn try_bump(&mut self, now_ms: u64, trigger: BumpTrigger, host_keys: &SigningKeys, host_mk: &Multikey) -> (r:
        Option<u32>)
        requires
            old(self).wf(),
        ensures
            final(self).wf(),
            !spec_bump_allowed(
                trigger,
                old(self).spec_dirty().len() > 0,
                now_ms,
                old(self).spec_last_bump_ms(),
                old(self).spec_rate_limit_secs(),
            ) ==> r is None && *final(self) == *old(self),
            spec_bump_allowed(
                trigger,
                old(self).spec_dirty().len() > 0,
                now_ms,
                old(self).spec_last_bump_ms(),
                old(self).spec_rate_limit_secs(),
            ) ==> {
                let v = old(self).spec_manifest().spec_manifest_version().wrapping_add(1);
                &&& r == Some(v)
                &&& final(self).spec_manifest().spec_manifest_version() == v
                &&& final(self).spec_manifest().spec_entries() == old(self).spec_manifest().spec_entries()
                &&& final(self).spec_manifest().spec_is_gateway() == old(self).spec_manifest().spec_is_gateway()
                &&& final(self).spec_log().spec_log_base() == old(self).spec_log().spec_log_base()
                &&& final(self).spec_log().record_map() == fold_dirty(
                    old(self).spec_log().record_map(),
                    old(self).spec_manifest().spec_entries(),
                    old(self).spec_dirty(),
                    v,
                    now_ms,
                )
                &&& final(self).spec_dirty() == Seq::<[u8; 8]>::empty()
                &&& final(self).spec_last_bump_ms() == now_ms
                &&& final(self).spec_manifest().spec_manifest_signature() matches Some(sig) && signature_verifies(
                    host_keys.spec_public(),
                    final(self).spec_manifest().spec_state_input(host_mk.spec_encoded()),
                    sig@,
                )
            },
            final(self).spec_rate_limit_secs() == old(self).spec_rate_limit_secs(),
    {
        if !bump_allowed(trigger, self.dirty.len() > 0, now_ms, self.last_bump_ms, self.rate_limit_secs) {
            return None;
        }
        let v = fold_dirty_and_bump(&mut self.manifest, &mut self.log, &self.dirty, now_ms);
        let id = host_mk.to_id();
        let encoded = host_mk.encode();
        resign_manifest(&mut self.manifest, host_keys, id, encoded.as_slice());
        self.dirty = Vec::new();
        self.last_bump_ms = now_ms;
        Some(v)
    }

    /// What is persisted: the version, the gateway flag and the entries.
    pub fn snapshot(&self) -> (s: HostManifestState)
        ensures
            s.manifest_version == self.spec_manifest().spec_manifest_version(),
            s.is_gateway == self.spec_manifest().spec_is_gateway(),
            s.entries@ == self.spec_manifest().spec_entries(),
    {
        let entries = self.manifest.entries();
        let mut out: Vec<ManifestEntry> = Vec::new();
        let n = entries.len();
        let mut i = 0usize;
        while i < n
            invariant
                n == entries@.len(),
                i <= n,
                out@ == entries@.take(i as int),
            decreases n - i,
        {
            out.push(entries[i]);
            proof {
                assert(out@ =~= entries@.take(i as int + 1));
            }
            i += 1;
        }
        proof {
            assert(entries@.take(n as int) =~= entries@);
        }
        HostManifestState {
            manifest_version: self.manifest.manifest_version(),
            is_gateway: self.manifest.is_gateway(),
            entries: out,
        }
    }

    /// Resumes from what was persisted: the version is not regressed, the
    /// log restarts at that version, and the manifest is signed again.
    pub fn restore(&mut self, persisted: HostManifestState, host_keys: &SigningKeys, host_mk: &Multikey)
        requires
            old(self).wf(),
        ensures
            final(self).wf(),
            final(self).spec_manifest().spec_manifest_version() == persisted.manifest_version,
            final(self).spec_manifest().spec_is_gateway() == persisted.is_gateway,
            final(self).spec_manifest().spec_entries() == sort_by_user(persisted.entries@),
            final(self).spec_log().spec_log_base() == persisted.manifest_version,
            final(self).spec_log().record_map() == Map::<u64, crate::manifest::log::LogRecord>::empty(),
            final(self).spec_dirty() == old(self).spec_dirty(),
            final(self).spec_last_bump_ms() == old(self).spec_last_bump_ms(),
            final(self).spec_rate_limit_secs() == old(self).spec_rate_limit_secs(),
            final(self).spec_manifest().spec_manifest_signature() matches Some(sig) && signature_verifies(
                host_keys.spec_public(),
                final(self).spec_manifest().spec_state_input(host_mk.spec_encoded()),
                sig@,
            ),
    {
        self.manifest.set_manifest_version(persisted.manifest_version);
        self.manifest.set_gateway(persisted.is_gateway);
        self.manifest.set_entries(persisted.entries);
        self.log.reset_to(persisted.manifest_version);
        let id = host_mk.to_id();
        let encoded = host_mk.encode();
        resign_manifest(&mut self.manifest, host_keys, id, encoded.as_slice());
    }
}

/// Sorting entries that are already sorted leaves them as they are.
pub proof fn lemma_sort_sorted_is_identity(s: Seq<ManifestEntry>)
    requires
        sorted_by_user(s),
    ensures
        sort_by_user(s) == s,
    decreases s.len(),
{
    if s.len() > 0 {
        let d = s.drop_last();
        assert(sorted_by_user(d));
        lemma_sort_sorted_is_identity(d);
        if d.len() > 0 {
            assert(entry_key(d.last()) <= entry_key(s.last()));
        }
        assert(d.push(s.last()) =~= s);
    }
}

/// What a restart restores from a snapshot is what was published: the
/// same version, gateway flag and entries.
pub proof fn lemma_snapshot_restore_round_trip(o: OriginManifest, snap: HostManifestState)
    requires
        o.wf(),
        snap.manifest_version == o.spec_manifest().spec_manifest_version(),
        snap.is_gateway == o.spec_manifest().spec_is_gateway(),
        snap.entries@ == o.spec_manifest().spec_entries(),
    ensures
        sort_by_user(snap.entries@) == o.spec_manifest().spec_entries(),
{
    lemma_sort_sorted_is_identity(o.spec_manifest().spec_entries());
}

} // verus!
