//! The decisions of the receive path: whether an incoming routing entry
//! replaces what the table holds, and what an incoming manifest delta
//! turns the stored entries into.

use vstd::prelude::*;

use crate::codec::messages::{
    manifest_entries_bytes, manifest_entries_view, DeltaAdd, DeltaRemove, ManifestDelta,
    ManifestEntry, NodeManifest,
};
use crate::manifest::serve::{spec_assemble, ChunkAssembler};
use crate::identity::{
    signature_verifies, spec_chunk_signing_input, spec_delegation_signing_input, ChunkSigningCtx,
    Multikey,
};
use crate::manifest::Manifest;
use crate::keyed::{id_key, spec_id_key};
use crate::manifest::{canonical_entry_bytes, entry_key, sorted_by_user, spec_upsert, upsert_sorted};
use crate::metric::{hop_cost, spec_hop_cost};
use crate::seq::{Acceptance, SeqNum};
use crate::sphere::{ConnectionModule, Sphere};

verus! {

/// Entries that travelled this many hops are dropped.
pub const MAX_HOP_COUNT: u8 = 63;

/// One entry of a ROUTING_UPDATE, as the receive path reads it.
#[derive(Debug, Clone, Copy)]
pub struct EntryArg {
    pub abs_idx: u16,
    pub seq: u16,
    pub metric: u16,
    pub hop_count: u8,
    pub local_only: bool,
}

/// What the routing table holds for the target already.
#[derive(Debug, Clone, Copy)]
pub struct StoredRoute {
    pub seq_num: SeqNum,
    pub metric: u16,
    pub local_only: bool,
}

/// What becomes of an incoming entry.
#[derive(Debug, Clone, Copy, PartialEq, Eq, Structural)]
pub enum EntryVerdict {
    /// it travelled too far
    Dropped,
    /// it is not better than the stored route
    Rejected,
    /// it replaces the stored route with these values
    Accept { seq: u16, metric: u16, hop_count: u8, local_only: bool },
}

/// The metric of an entry once the hop to us is added, capped at
/// `u16::MAX`.
pub open spec fn received_metric(metric: u16, transport: ConnectionModule, rssi_dbm: Option<i8>) -> u16 {
    let sum = metric + spec_hop_cost(transport, rssi_dbm);
    if sum > 0xffff {
        0xffff
    } else {
        sum as u16
    }
}

/// The verdict on an incoming entry: drop it at 63 hops or more; accept
/// it where nothing is stored; else accept a fresher or rebooted
/// sequence number, or the same one with a strictly smaller metric. An
/// accepted entry is local-only only if the stored one was too.
pub open spec fn spec_evaluate_entry(
    entry: EntryArg,
    transport: ConnectionModule,
    rssi_dbm: Option<i8>,
    stored: Option<StoredRoute>,
) -> EntryVerdict {
    let metric = received_metric(entry.metric, transport, rssi_dbm);
    if entry.hop_count >= MAX_HOP_COUNT {
        EntryVerdict::Dropped
    } else {
        match stored {
            None => EntryVerdict::Accept {
                seq: entry.seq,
                metric,
                hop_count: (entry.hop_count + 1) as u8,
                local_only: entry.local_only,
            },
            Some(s) => {
                let accept = match s.seq_num.spec_acceptance(SeqNum(entry.seq)) {
                    Acceptance::NoChange => metric < s.metric,
                    _ => true,
                };
                if accept {
                    EntryVerdict::Accept {
                        seq: entry.seq,
                        metric,
                        hop_count: (entry.hop_count + 1) as u8,
                        local_only: s.local_only && entry.local_only,
                    }
                } else {
                    EntryVerdict::Rejected
                }
            },
        }
    }
}

/// Judges an incoming entry received over `transport` against the route
/// stored for its target.
pub fn evaluate_entry(
    entry: EntryArg,
    transport: ConnectionModule,
    rssi_dbm: Option<i8>,
    stored: Option<StoredRoute>,
) -> (v: EntryVerdict)
    ensures
        v == spec_evaluate_entry(entry, transport, rssi_dbm, stored),
{
    if entry.hop_count >= MAX_HOP_COUNT {
        return EntryVerdict::Dropped;
    }
    let metric = entry.metric.saturating_add(hop_cost(transport, rssi_dbm));
    let hop_count = entry.hop_count + 1;
    match stored {
        None => EntryVerdict::Accept { seq: entry.seq, metric, hop_count, local_only: entry.local_only },
        Some(s) => {
            let accept = match s.seq_num.acceptance(SeqNum::from(entry.seq)) {
                Acceptance::Fresher => true,
                Acceptance::Reboot => true,
                Acceptance::NoChange => metric < s.metric,
            };
            if accept {
                EntryVerdict::Accept {
                    seq: entry.seq,
                    metric,
                    hop_count,
                    local_only: s.local_only && entry.local_only,
                }
            } else {
                EntryVerdict::Rejected
            }
        },
    }
}

/// An accepted entry has travelled fewer than 63 hops, costs at least
/// what it cost the sender, and is local-only only if it was sent so.
pub proof fn lemma_accepted_entry_bounds(
    entry: EntryArg,
    transport: ConnectionModule,
    rssi_dbm: Option<i8>,
    stored: Option<StoredRoute>,
)
    ensures
        spec_evaluate_entry(entry, transport, rssi_dbm, stored) matches EntryVerdict::Accept {
            metric,
            hop_count,
            local_only,
            ..
        } ==> entry.hop_count < MAX_HOP_COUNT && hop_count == entry.hop_count + 1 && metric
            >= entry.metric && (local_only ==> entry.local_only),
{
}

/// With the same sequence number, a route is only replaced by a strictly
/// cheaper one.
pub proof fn lemma_same_seq_needs_better_metric(
    entry: EntryArg,
    transport: ConnectionModule,
    rssi_dbm: Option<i8>,
    stored: StoredRoute,
)
    requires
        stored.seq_num == SeqNum(entry.seq),
    ensures
        spec_evaluate_entry(entry, transport, rssi_dbm, Some(stored)) matches EntryVerdict::Accept {
            metric,
            ..
        } ==> metric < stored.metric,
{
}

/// Receiving the same entry again over the same link, once it was
/// accepted, changes nothing: the second copy is rejected.
pub proof fn lemma_redelivery_is_rejected(
    entry: EntryArg,
    transport: ConnectionModule,
    rssi_dbm: Option<i8>,
    stored: Option<StoredRoute>,
)
    ensures
        spec_evaluate_entry(entry, transport, rssi_dbm, stored) matches EntryVerdict::Accept {
            seq,
            metric,
            local_only,
            ..
        } ==> spec_evaluate_entry(
            entry,
            transport,
            rssi_dbm,
            Some(StoredRoute { seq_num: SeqNum(seq), metric, local_only }),
        ) == EntryVerdict::Rejected,
{
}

// ---------- applying a MANIFEST_DELTA ----------

/// The entries of `s` whose user is not `id`, in order.
pub open spec fn without_user(s: Seq<ManifestEntry>, id: [u8; 8]) -> Seq<ManifestEntry>
    decreases s.len(),
{
    if s.len() == 0 {
        s
    } else {
        let rest = without_user(s.drop_last(), id);
        if entry_key(s.last()) == spec_id_key(id) {
            rest
        } else {
            rest.push(s.last())
        }
    }
}

/// The entries left once every user in `removes` is dropped.
pub open spec fn apply_removes(s: Seq<ManifestEntry>, removes: Seq<DeltaRemove>) -> Seq<ManifestEntry>
    decreases removes.len(),
{
    if removes.len() == 0 {
        s
    } else {
        without_user(apply_removes(s, removes.drop_last()), removes.last().user_id)
    }
}

/// The entries once every add is upserted, in order.
pub open spec fn apply_adds(s: Seq<ManifestEntry>, adds: Seq<DeltaAdd>) -> Seq<ManifestEntry>
    decreases adds.len(),
{
    if adds.len() == 0 {
        s
    } else {
        spec_upsert(apply_adds(s, adds.drop_last()), adds.last().entry).0
    }
}

/// The state a delta turns the stored entries into: removes first, then
/// adds as upserts.
pub open spec fn delta_scratch(
    stored: Seq<ManifestEntry>,
    removes: Seq<DeltaRemove>,
    adds: Seq<DeltaAdd>,
) -> Seq<ManifestEntry> {
    apply_adds(apply_removes(stored, removes), adds)
}

/// The bytes the signature of a delta's resulting state covers.
pub open spec fn delta_state_input(key: Seq<u8>, to_version: u32, flags: u8, scratch: Seq<ManifestEntry>) -> Seq<u8> {
    spec_chunk_signing_input(
        key,
        to_version,
        0,
        1,
        flags & 1u8,
        manifest_entries_bytes(manifest_entries_view(scratch)),
    )
}

/// What an incoming MANIFEST_DELTA comes to.
#[derive(Debug)]
pub enum DeltaOutcome {
    /// it does not build on the committed version
    Stale,
    /// the resulting state fails its signature; a full manifest is asked
    /// for instead
    Invalid,
    /// the resulting entries and gateway flag to commit
    Apply { entries: Vec<ManifestEntry>, is_gateway: bool },
}

/// Drops the entries of user `id` from a sorted run.
fn retain_other_users(entries: &Vec<ManifestEntry>, id: &[u8; 8]) -> (r: Vec<ManifestEntry>)
    requires
        sorted_by_user(entries@),
    ensures
        r@ == without_user(entries@, *id),
        sorted_by_user(r@),
{
    let k = id_key(id);
    let mut out: Vec<ManifestEntry> = Vec::new();
    let n = entries.len();
    let mut i = 0usize;
    while i < n
        invariant
            n == entries@.len(),
            i <= n,
            k == spec_id_key(*id),
            sorted_by_user(entries@),
            out@ == without_user(entries@.take(i as int), *id),
            sorted_by_user(out@),
            forall|a: int, m: int|
                0 <= a < out@.len() && i <= m < n ==> entry_key(#[trigger] out@[a]) <= entry_key(
                    #[trigger] entries@[m],
                ),
        decreases n - i,
    {
        let e = entries[i];
        proof {
            let next = entries@.take(i as int + 1);
            assert(next.drop_last() =~= entries@.take(i as int));
            assert(next.last() == e);
        }
        if id_key(&e.user_id) != k {
            out.push(e);
            proof {
                assert forall|a: int, m: int|
                    0 <= a < out@.len() && i + 1 <= m < n implies entry_key(#[trigger] out@[a]) <= entry_key(
                    #[trigger] entries@[m],
                ) by {
                    assert(entry_key(entries@[i as int]) <= entry_key(entries@[m]));
                }
            }
        }
        i += 1;
    }
    proof {
        assert(entries@.take(n as int) =~= entries@);
    }
    out
}

/// The state `removes` and `adds` turn the sorted `stored` into.
pub fn delta_scratch_entries(stored: Vec<ManifestEntry>, removes: &Vec<DeltaRemove>, adds: &Vec<DeltaAdd>) -> (r: Vec<
    ManifestEntry,
>)
    requires
        sorted_by_user(stored@),
    ensures
        r@ == delta_scratch(stored@, removes@, adds@),
        sorted_by_user(r@),
{
    let mut scratch = stored;
    let mut i = 0usize;
    while i < removes.len()
        invariant
            i <= removes@.len(),
            scratch@ == apply_removes(stored@, removes@.take(i as int)),
            sorted_by_user(scratch@),
        decreases removes@.len() - i,
    {
        proof {
            let next = removes@.take(i as int + 1);
            assert(next.drop_last() =~= removes@.take(i as int));
        }
        scratch = retain_other_users(&scratch, &removes[i].user_id);
        i += 1;
    }
    proof {
        assert(removes@.take(removes@.len() as int) =~= removes@);
    }
    let ghost removed = scratch@;
    let mut j = 0usize;
    while j < adds.len()
        invariant
            j <= adds@.len(),
            removed == apply_removes(stored@, removes@),
            scratch@ == apply_adds(removed, adds@.take(j as int)),
            sorted_by_user(scratch@),
        decreases adds@.len() - j,
    {
        proof {
            let next = adds@.take(j as int + 1);
            assert(next.drop_last() =~= adds@.take(j as int));
        }
        let _ = upsert_sorted(&mut scratch, adds[j].entry);
        j += 1;
    }
    proof {
        assert(adds@.take(adds@.len() as int) =~= adds@);
    }
    scratch
}

/// What an incoming delta does to an origin whose committed version and
/// sorted entries are `committed` and `stored`: a delta that does not
/// build on the committed version is stale; else its resulting state is
/// applied when the origin's signature over it verifies.
pub fn apply_manifest_delta(
    stored: Vec<ManifestEntry>,
    committed: u32,
    msg: &ManifestDelta,
    origin_mk: &Multikey,
) -> (r: DeltaOutcome)
    requires
        sorted_by_user(stored@),
    ensures
        committed != msg.from_version ==> r is Stale,
        committed == msg.from_version ==> ({
            let scratch = delta_scratch(stored@, msg.removes@, msg.adds@);
            let ok = signature_verifies(
                origin_mk.spec_encoded(),
                delta_state_input(origin_mk.spec_encoded(), msg.to_version, msg.flags, scratch),
                msg.manifest_signature@,
            );
            &&& !ok ==> r is Invalid
            &&& ok ==> (r matches DeltaOutcome::Apply { entries, is_gateway } && entries@ == scratch
                && is_gateway == (msg.flags & 1u8 != 0))
        }),
        r matches DeltaOutcome::Apply { entries, .. } ==> sorted_by_user(entries@),
{
    if committed != msg.from_version {
        return DeltaOutcome::Stale;
    }
    let scratch = delta_scratch_entries(stored, &msg.removes, &msg.adds);
    let flags = msg.flags & 1u8;
    let scratch_bytes = canonical_entry_bytes(scratch.as_slice());
    let key = origin_mk.encode();
    let ctx = ChunkSigningCtx {
        origin_multikey: key.as_slice(),
        manifest_version: msg.to_version,
        chunk_index: 0,
        chunk_count: 1,
        flags,
        canonical_entries: scratch_bytes.as_slice(),
    };
    let input = ctx.signing_input();
    if !origin_mk.verify(input.as_slice(), &msg.manifest_signature) {
        return DeltaOutcome::Invalid;
    }
    DeltaOutcome::Apply { entries: scratch, is_gateway: flags != 0 }
}

/// A delta with no removes and no adds leaves the entries as they are.
pub proof fn lemma_empty_delta_keeps_entries(stored: Seq<ManifestEntry>)
    ensures
        delta_scratch(stored, Seq::<DeltaRemove>::empty(), Seq::<DeltaAdd>::empty()) == stored,
{
}

/// After a delta, no user it removed and did not add again is left.
pub proof fn lemma_removed_users_are_gone(stored: Seq<ManifestEntry>, removes: Seq<DeltaRemove>, id: [u8; 8])
    requires
        exists|i: int| 0 <= i < removes.len() && (#[trigger] removes[i]).user_id == id,
    ensures
        forall|j: int|
            0 <= j < apply_removes(stored, removes).len() ==> entry_key(
                #[trigger] apply_removes(stored, removes)[j],
            ) != spec_id_key(id),
    decreases removes.len(),
{
    let last = removes.len() - 1;
    if removes[last].user_id == id {
        lemma_without_user_drops(apply_removes(stored, removes.drop_last()), id);
    } else {
        let i = choose|i: int| 0 <= i < removes.len() && (#[trigger] removes[i]).user_id == id;
        assert(removes.drop_last()[i] == removes[i]);
        lemma_removed_users_are_gone(stored, removes.drop_last(), id);
        lemma_without_user_subset(apply_removes(stored, removes.drop_last()), removes.last().user_id);
    }
}

/// No entry of `id` is left once it is dropped.
proof fn lemma_without_user_drops(s: Seq<ManifestEntry>, id: [u8; 8])
    ensures
        forall|j: int| 0 <= j < without_user(s, id).len() ==> entry_key(#[trigger] without_user(s, id)[j]) != spec_id_key(id),
    decreases s.len(),
{
    if s.len() > 0 {
        let d = s.drop_last();
        lemma_without_user_drops(d, id);
        let w = without_user(s, id);
        assert forall|j: int| 0 <= j < w.len() implies entry_key(#[trigger] w[j]) != spec_id_key(id) by {
            if j < without_user(d, id).len() {
                assert(w[j] == without_user(d, id)[j]);
            }
        }
    }
}

/// Every entry left by a drop was there before.
proof fn lemma_without_user_subset(s: Seq<ManifestEntry>, id: [u8; 8])
    ensures
        forall|j: int| 0 <= j < without_user(s, id).len() ==> s.contains(#[trigger] without_user(s, id)[j]),
    decreases s.len(),
{
    if s.len() > 0 {
        lemma_without_user_subset(s.drop_last(), id);
        let d = s.drop_last();
        assert forall|j: int| 0 <= j < without_user(s, id).len() implies s.contains(#[trigger] without_user(s, id)[j]) by {
            let w = without_user(s, id);
            if j < without_user(d, id).len() {
                let x = without_user(d, id)[j];
                assert(w[j] == x);
                assert(d.contains(x));
                let k = choose|k: int| 0 <= k < d.len() && d[k] == x;
                assert(s[k] == x);
            } else {
                assert(w[j] == s.last());
                assert(s[s.len() - 1] == s.last());
            }
        }
    }
}

// ---------- trusting the delegations of a manifest ----------

/// How far a delegation entry of an origin's manifest is trusted.
pub open spec fn trusted_delegation(e: ManifestEntry, user_key: Option<Multikey>, host_mk: Multikey, now: u64) -> bool {
    &&& e.timeout > now
    &&& user_key matches Some(mk)
    &&& signature_verifies(
        mk.spec_encoded(),
        spec_delegation_signing_input(host_mk.spec_encoded(), e.timeout),
        e.entry_signature@,
    )
}

/// A live delegation whose user's key is not known yet.
pub open spec fn unverifiable_delegation(e: ManifestEntry, user_key: Option<Multikey>, now: u64) -> bool {
    e.timeout > now && user_key is None
}

/// The users of the entries that `p` picks, in entry order.
pub open spec fn picked_users(
    es: Seq<ManifestEntry>,
    ks: Seq<Option<Multikey>>,
    p: spec_fn(ManifestEntry, Option<Multikey>) -> bool,
) -> Seq<[u8; 8]>
    decreases es.len(),
{
    if es.len() == 0 {
        seq![]
    } else {
        let rest = picked_users(es.drop_last(), ks.take(es.len() - 1), p);
        if p(es.last(), ks[es.len() - 1]) {
            rest.push(es.last().user_id)
        } else {
            rest
        }
    }
}

/// Sorts the delegations of an origin's manifest, given the key of each
/// delegating user where known: the users whose live delegation verifies
/// under the host's key are trusted; those with a live delegation but no
/// key yet are unverifiable. Expired and refused delegations are neither.
pub fn classify_delegations(
    entries: &Vec<ManifestEntry>,
    user_keys: &Vec<Option<Multikey>>,
    host_mk: &Multikey,
    now: u64,
) -> (r: (Vec<[u8; 8]>, Vec<[u8; 8]>))
    requires
        entries@.len() == user_keys@.len(),
    ensures
        r.0@ == picked_users(
            entries@,
            user_keys@,
            |e: ManifestEntry, k: Option<Multikey>| trusted_delegation(e, k, *host_mk, now),
        ),
        r.1@ == picked_users(
            entries@,
            user_keys@,
            |e: ManifestEntry, k: Option<Multikey>| unverifiable_delegation(e, k, now),
        ),
{
    let ghost pt = |e: ManifestEntry, k: Option<Multikey>| trusted_delegation(e, k, *host_mk, now);
    let ghost pu = |e: ManifestEntry, k: Option<Multikey>| unverifiable_delegation(e, k, now);
    let mut trusted: Vec<[u8; 8]> = Vec::new();
    let mut unverifiable: Vec<[u8; 8]> = Vec::new();
    let n = entries.len();
    let mut i = 0usize;
    while i < n
        invariant
            n == entries@.len(),
            n == user_keys@.len(),
            i <= n,
            trusted@ == picked_users(entries@.take(i as int), user_keys@.take(i as int), pt),
            unverifiable@ == picked_users(entries@.take(i as int), user_keys@.take(i as int), pu),
            pt == (|e: ManifestEntry, k: Option<Multikey>| trusted_delegation(e, k, *host_mk, now)),
            pu == (|e: ManifestEntry, k: Option<Multikey>| unverifiable_delegation(e, k, now)),
        decreases n - i,
    {
        let e = entries[i];
        proof {
            let es = entries@.take(i as int + 1);
            let ks = user_keys@.take(i as int + 1);
            assert(es.drop_last() =~= entries@.take(i as int));
            assert(ks.take(es.len() - 1) =~= user_keys@.take(i as int));
            assert(es.last() == e);
            assert(ks[es.len() - 1] == user_keys@[i as int]);
        }
        if e.timeout > now {
            match &user_keys[i] {
                None => {
                    unverifiable.push(e.user_id);
                },
                Some(user_mk) => {
                    if Manifest::verify_entry(&e, host_mk, user_mk).is_ok() {
                        trusted.push(e.user_id);
                    }
                },
            }
        }
        i += 1;
    }
    proof {
        assert(entries@.take(n as int) =~= entries@);
        assert(user_keys@.take(n as int) =~= user_keys@);
    }
    (trusted, unverifiable)
}


/// Whether a NODE_MANIFEST chunk carries a valid signature of the origin
/// whose key is encoded as `key`.
pub open spec fn chunk_signed_by(key: Seq<u8>, msg: NodeManifest) -> bool {
    signature_verifies(
        key,
        spec_chunk_signing_input(
            key,
            msg.manifest_version,
            msg.chunk_index,
            msg.chunk_count,
            msg.flags,
            manifest_entries_bytes(manifest_entries_view(msg.entries@)),
        ),
        msg.manifest_signature@,
    )
}

/// What the table stores of an origin once its manifest is complete: the
/// chunks are retained exactly as signed, the whole-state signature only
/// where the manifest came in a single chunk, and the sphere it was
/// learnt over.
pub struct StoredManifest {
    pub manifest_version: u32,
    pub is_gateway: bool,
    pub entries: Vec<ManifestEntry>,
    pub manifest_signature: Option<[u8; 64]>,
    pub retained_chunks: Vec<NodeManifest>,
    pub learn_sphere: Sphere,
}

/// What becomes of a received NODE_MANIFEST chunk.
pub enum ManifestIntake {
    /// the origin's key is unknown: its profile is fetched first
    FetchKey([u8; 8]),
    /// the chunk's signature does not verify
    Invalid,
    /// the chunk was kept; the manifest is not complete yet
    Pending,
    /// the chunk completed the manifest
    Stored(StoredManifest),
}

/// Takes in a NODE_MANIFEST chunk received over `transport` from an
/// origin whose key is `origin_key` (when known): verified, added to the
/// assembler, and turned into what the table stores once complete.
pub fn intake_node_manifest(
    assembler: &mut ChunkAssembler,
    origin_key: Option<&Multikey>,
    msg: NodeManifest,
    transport: ConnectionModule,
) -> (r: ManifestIntake)
    requires
        old(assembler).wf(),
    ensures
        final(assembler).wf(),
        match origin_key {
            None => r == ManifestIntake::FetchKey(msg.origin_node_id) && final(assembler)@ == old(
                assembler,
            )@,
            Some(mk) => if !chunk_signed_by(mk.spec_encoded(), msg) {
                r is Invalid && final(assembler)@ == old(assembler)@
            } else {
                let (parts, done) = spec_assemble(old(assembler)@, spec_id_key(msg.origin_node_id), msg);
                &&& final(assembler)@ == parts
                &&& done is None ==> r is Pending
                &&& done matches Some(c) ==> r matches ManifestIntake::Stored(st) && {
                    &&& st.manifest_version == c.manifest_version
                    &&& st.is_gateway == (c.flags & 1u8 != 0)
                    &&& st.entries@ == c.entries
                    &&& st.retained_chunks@ == c.chunks
                    &&& (c.chunks.len() == 1 ==> st.manifest_signature == Some(
                        c.chunks[0].manifest_signature,
                    ))
                    &&& (c.chunks.len() != 1 ==> st.manifest_signature is None)
                    &&& st.learn_sphere == Sphere::spec_of(transport)
                }
            },
        },
{
    let mk = match origin_key {
        None => {
            return ManifestIntake::FetchKey(msg.origin_node_id);
        },
        Some(mk) => mk,
    };
    if Manifest::verify_chunk(&msg, mk).is_err() {
        return ManifestIntake::Invalid;
    }
    let origin = msg.origin_node_id;
    match assembler.insert(origin, msg) {
        None => ManifestIntake::Pending,
        Some(c) => {
            let is_gateway = c.is_gateway();
            let manifest_signature = c.whole_state_signature();
            ManifestIntake::Stored(
                StoredManifest {
                    manifest_version: c.manifest_version,
                    is_gateway,
                    entries: c.entries,
                    manifest_signature,
                    retained_chunks: c.chunks,
                    learn_sphere: Sphere::of(transport),
                },
            )
        },
    }
}

} // verus!
