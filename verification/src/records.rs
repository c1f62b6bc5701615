//! The records this node keeps of the users and nodes it knows, and what
//! changes them: incoming mappings (with the neighbour's mirror and this
//! node's indexes), manifest deltas, profile responses, and the
//! registration of the users this node hosts.

use vstd::prelude::*;

use std::time::Instant;

use crate::codec::messages::{DeltaAdd, DeltaRemove, ManifestDelta, ManifestEntry, Mapping, NodeManifest};
use crate::codec::utils::be64_value;
use crate::dictionary::bound_index;
use crate::identity::{key_decodes, reencoded_key, signature_verifies, spec_routing_id, Multikey};
use crate::index::RESERVED_INDEX;
use crate::indexes::{release_outcome, reserved_binding, Indexes};
use crate::keyed::{lemma_id_key_injective, spec_id_key};
use crate::manifest::log::{compaction, LogRecord, ManifestLog};
use crate::manifest::sorted_by_user;
use crate::mapping::{plan_mapping, spec_plan_mapping, MappingPlan, VersionUpdate};
use crate::mirror::NeighbourInfo;
use crate::profile::{check_profile_response, profile_signature_valid, ProfileFields, VerifiedProfile};
use crate::receive::{apply_manifest_delta, delta_scratch, delta_state_input, DeltaOutcome};
use crate::seq::spec_is_fresher_u32;
use crate::sphere::{hosts, 
    desired_propagation_form, holds_foreign, hosted_profile_version, spec_desired_propagation_form, ConnectionModule,
    PropagationForm, Space, Sphere,
};
use crate::table::{IdMap, RoutingTable};

verus! {

/// What this node keeps of a user.
pub struct UserRecord {
    pub profile_version: u32,
    pub public_key: Option<Multikey>,
    pub is_hosted: bool,
}

/// What this node keeps of a node.
pub struct NodeRecord {
    /// the manifest version committed for the node
    pub manifest_version: u32,
    /// the newest manifest version a neighbour advertised for it
    pub advertised_version: u32,
    pub is_gateway: bool,
    pub public_key: Option<Multikey>,
    /// the entries of the committed manifest, ascending by user
    pub delegated: Vec<ManifestEntry>,
    /// the origin's signature over the committed state, where one
    /// signature covers it whole
    pub manifest_signature: Option<[u8; 64]>,
    /// the chunks of the committed manifest as the origin signed them,
    /// served again as they are; none after a delta was committed
    pub retained_chunks: Option<Vec<NodeManifest>>,
    /// the sphere the committed manifest was learned from
    pub learn_sphere: Option<Sphere>,
    /// the changes to the committed manifest, to serve as deltas
    pub manifest_log: ManifestLog,
}

impl NodeRecord {
    pub open spec fn wf(&self) -> bool {
        sorted_by_user(self.delegated@) && self.manifest_log.wf()
    }

    /// A node known only by a version a neighbour advertised for it.
    pub fn stub(advertised_version: u32) -> (r: NodeRecord)
        ensures
            is_stub_node(r, advertised_version),
    {
        NodeRecord {
            manifest_version: 0,
            advertised_version,
            is_gateway: false,
            public_key: None,
            delegated: Vec::new(),
            manifest_signature: None,
            retained_chunks: None,
            learn_sphere: None,
            manifest_log: ManifestLog::default(),
        }
    }
}

/// A node record that holds nothing but the advertised version `v`.
pub open spec fn is_stub_node(r: NodeRecord, v: u32) -> bool {
    &&& r.wf()
    &&& r.manifest_version == 0
    &&& r.advertised_version == v
    &&& !r.is_gateway
    &&& r.public_key is None
    &&& r.delegated@ == Seq::<ManifestEntry>::empty()
    &&& r.manifest_signature is None
    &&& r.retained_chunks is None
    &&& r.learn_sphere is None
    &&& r.manifest_log.spec_log_base() == 0
    &&& r.manifest_log.record_map() == Map::<u64, LogRecord>::empty()
}

/// The records of users and nodes, by id.
pub struct Records {
    pub users: IdMap<UserRecord>,
    pub nodes: IdMap<NodeRecord>,
}

/// The version kept for a target of `space` (a user's profile version, a
/// node's advertised manifest version) and whether its key is known.
pub open spec fn target_state(records: Records, space: Space, id: [u8; 8]) -> (Option<u32>, bool) {
    let k = spec_id_key(id);
    match space {
        Space::User => if records.users@.dom().contains(k) {
            (Some(records.users@[k].1.profile_version), records.users@[k].1.public_key is Some)
        } else {
            (None, false)
        },
        Space::Node => if records.nodes@.dom().contains(k) {
            (Some(records.nodes@[k].1.advertised_version), records.nodes@[k].1.public_key is Some)
        } else {
            (None, false)
        },
    }
}

/// The id a neighbour's mirror of `space` binds at `idx`, if any.
pub open spec fn mirror_binding(n: NeighbourInfo, space: Space, idx: u16) -> Option<[u8; 8]> {
    let m = match space {
        Space::User => n.users.spec_bindings(),
        Space::Node => n.nodes.spec_bindings(),
    };
    if m.dom().contains(idx) {
        Some(m[idx])
    } else {
        None
    }
}

/// What a version update does to the records: a new target gets a stub
/// with the version and nothing else known; a raised version replaces the
/// kept one; a kept version changes nothing.
pub open spec fn records_after(before: Records, after: Records, space: Space, id: [u8; 8], update: VersionUpdate) -> bool {
    let k = spec_id_key(id);
    match space {
        Space::User => {
            &&& after.nodes@ == before.nodes@
            &&& match update {
                VersionUpdate::Create(v) => after.users@ == before.users@.insert(
                    k,
                    (id, UserRecord { profile_version: v, public_key: None, is_hosted: false }),
                ),
                VersionUpdate::Raise(v) => after.users@ == before.users@.insert(
                    k,
                    (id, UserRecord { profile_version: v, ..before.users@[k].1 }),
                ),
                VersionUpdate::Keep => after.users@ == before.users@,
            }
        },
        Space::Node => {
            &&& after.users@ == before.users@
            &&& match update {
                VersionUpdate::Create(v) => {
                    &&& after.nodes@.dom().contains(k)
                    &&& after.nodes@[k].0 == id
                    &&& is_stub_node(after.nodes@[k].1, v)
                    &&& after.nodes@.remove(k) == before.nodes@.remove(k)
                },
                VersionUpdate::Raise(v) => after.nodes@ == before.nodes@.insert(
                    k,
                    (id, NodeRecord { advertised_version: v, ..before.nodes@[k].1 }),
                ),
                VersionUpdate::Keep => after.nodes@ == before.nodes@,
            }
        },
    }
}

/// What marking a user's new profile version does to the indexes: its
/// index, if it has one, is marked for introduction; nothing else changes.
pub open spec fn profile_bump_marked(before: Indexes, after: Indexes, user_id: [u8; 8]) -> bool {
    &&& after.user_dict == before.user_dict
    &&& after.node_dict == before.node_dict
    &&& after.users_allocator == before.users_allocator
    &&& after.node_allocator == before.node_allocator
    &&& after.tracker.pending(Space::Node) == before.tracker.pending(Space::Node)
    &&& after.tracker.pending(Space::User) == match bound_index(before.user_dict.spec_forward(), user_id) {
        Some(i) => before.tracker.pending(Space::User).insert(i),
        None => before.tracker.pending(Space::User),
    }
}

/// What applying a mapping does to the indexes and the routing table, by
/// way of the indexes `mid` between its two steps: the release the plan
/// asks for, if any, then the mark of a raised profile version.
pub open spec fn mapping_index_effect<T>(
    before: Indexes,
    mid: Indexes,
    after: Indexes,
    table_before: RoutingTable<T>,
    table_after: RoutingTable<T>,
    space: Space,
    plan: MappingPlan,
    target_id: [u8; 8],
    now: Instant,
) -> bool {
    &&& match plan.release {
        Some(id) => release_outcome(before, mid, table_before, table_after, space, id, now),
        None => mid == before && table_after == table_before,
    }
    &&& plan.profile_bumped ==> profile_bump_marked(mid, after, target_id)
    &&& !plan.profile_bumped ==> after == mid
}

impl Records {
    pub open spec fn wf(&self) -> bool {
        &&& self.users.wf()
        &&& self.nodes.wf()
        &&& forall|k: u64| #[trigger] self.nodes@.dom().contains(k) ==> self.nodes@[k].1.wf()
    }

    /// No records.
    pub fn new() -> (r: Records)
        ensures
            r.wf(),
            r.users@ == Map::<u64, ([u8; 8], UserRecord)>::empty(),
            r.nodes@ == Map::<u64, ([u8; 8], NodeRecord)>::empty(),
    {
        Records { users: IdMap::new(), nodes: IdMap::new() }
    }
}

/// What applying `mapping` of `space` does (see `apply_mapping`), from
/// indexes, table, neighbour and records `i0`, `t0`, `n0`, `r0` to `i1`,
/// `t1`, `n1`, `r1`, with plan `p`.
pub open spec fn mapping_outcome<T>(
    i0: Indexes,
    i1: Indexes,
    t0: RoutingTable<T>,
    t1: RoutingTable<T>,
    n0: NeighbourInfo,
    n1: NeighbourInfo,
    r0: Records,
    r1: Records,
    space: Space,
    mapping: Mapping,
    now: Instant,
    p: MappingPlan,
) -> bool {
    let state = target_state(r0, space, mapping.target_id);
    &&& p == spec_plan_mapping(mirror_binding(n0, space, mapping.abs_idx), mapping, space, state.0, state.1)
    &&& n1.node_id == n0.node_id
    &&& n1.transports == n0.transports
    &&& space == Space::User ==> n1.users.spec_bindings() == n0.users.spec_bindings().insert(
        mapping.abs_idx,
        mapping.target_id,
    ) && n1.nodes == n0.nodes
    &&& space == Space::Node ==> n1.nodes.spec_bindings() == n0.nodes.spec_bindings().insert(
        mapping.abs_idx,
        mapping.target_id,
    ) && n1.users == n0.users
    &&& records_after(r0, r1, space, mapping.target_id, p.version)
    &&& exists|mid: Indexes| #[trigger] mapping_index_effect(i0, mid, i1, t0, t1, space, p, mapping.target_id, now)
}

/// When a user's profile is asked for: applying a user-space mapping
/// requests the profile exactly when this node keeps no record of the
/// user, the mapping announces a fresher profile version, or the version
/// is the one kept but the user's key is still unknown. A node-space
/// mapping never asks for a profile; it asks for the node's manifest
/// exactly when the node has no record or announces a fresher version.
pub proof fn lemma_mapping_requests<T>(
    i0: Indexes,
    i1: Indexes,
    t0: RoutingTable<T>,
    t1: RoutingTable<T>,
    n0: NeighbourInfo,
    n1: NeighbourInfo,
    r0: Records,
    r1: Records,
    space: Space,
    mapping: Mapping,
    now: Instant,
    p: MappingPlan,
)
    requires
        mapping_outcome(i0, i1, t0, t1, n0, n1, r0, r1, space, mapping, now, p),
    ensures
        ({
            let k = spec_id_key(mapping.target_id);
            &&& space == Space::User ==> (p.request_profile <==> (!r0.users@.dom().contains(k)
                || spec_is_fresher_u32(mapping.version, r0.users@[k].1.profile_version) || (
            r0.users@[k].1.profile_version == mapping.version && r0.users@[k].1.public_key is None)))
            &&& space == Space::User ==> !p.request_manifest
            &&& space == Space::Node ==> !p.request_profile
            &&& space == Space::Node ==> (p.request_manifest <==> (!r0.nodes@.dom().contains(k)
                || spec_is_fresher_u32(mapping.version, r0.nodes@[k].1.advertised_version)))
        }),
{
    let k = spec_id_key(mapping.target_id);
    if space == Space::User && r0.users@.dom().contains(k) && r0.users@[k].1.profile_version == mapping.version {
        assert(!spec_is_fresher_u32(mapping.version, mapping.version));
    }
}

/// Applies a mapping that the neighbour `neighbour` announced in `space`:
/// a different target the neighbour had at that index gives up its own
/// index, the mapping is bound into the neighbour's mirror, the target's
/// record is created or its version raised as `plan_mapping` decides, and
/// a user whose profile version rose is marked for introduction again.
/// Returns the plan, whose requests the caller sends.
pub fn apply_mapping<T>(
    indexes: &mut Indexes,
    table: &mut RoutingTable<T>,
    neighbour: &mut NeighbourInfo,
    records: &mut Records,
    space: Space,
    mapping: &Mapping,
    now: Instant,
) -> (p: MappingPlan)
    requires
        old(indexes).wf(),
        old(table).wf(),
        old(neighbour).wf(),
        old(records).wf(),
    ensures
        final(indexes).wf(),
        final(table).wf(),
        final(neighbour).wf(),
        final(records).wf(),
        mapping_outcome(
            *old(indexes),
            *final(indexes),
            *old(table),
            *final(table),
            *old(neighbour),
            *final(neighbour),
            *old(records),
            *final(records),
            space,
            *mapping,
            now,
            p,
        ),
{
    let ghost indexes0 = *indexes;
    let ghost table0 = *table;
    let mirror_id = neighbour.mirror(space).id_of(mapping.abs_idx);
    let (stored, key_known) = match space {
        Space::User => match records.users.get(&mapping.target_id) {
            Some(u) => (Some(u.profile_version), u.public_key.is_some()),
            None => (None, false),
        },
        Space::Node => match records.nodes.get(&mapping.target_id) {
            Some(n) => (Some(n.advertised_version), n.public_key.is_some()),
            None => (None, false),
        },
    };
    let plan = plan_mapping(mirror_id, mapping, space, stored, key_known);
    match plan.release {
        Some(id) => {
            let _ = indexes.release_index(table, space, &id, now);
        },
        None => {},
    }
    let ghost mid = *indexes;
    let _ = neighbour.bind_mapping(space, mapping);
    let ghost before = *records;
    match plan.version {
        VersionUpdate::Create(v) => match space {
            Space::User => records.users.insert(
                mapping.target_id,
                UserRecord { profile_version: v, public_key: None, is_hosted: false },
            ),
            Space::Node => {
                let stub = NodeRecord::stub(v);
                records.nodes.insert(mapping.target_id, stub);
                proof {
                    assert(records.nodes@.remove(spec_id_key(mapping.target_id)) =~= before.nodes@.remove(
                        spec_id_key(mapping.target_id),
                    ));
                }
            },
        },
        VersionUpdate::Raise(v) => match space {
            Space::User => {
                match records.users.remove(&mapping.target_id) {
                    Some(u) => records.users.insert(mapping.target_id, UserRecord { profile_version: v, ..u }),
                    None => {},
                }
                proof {
                    assert(records.users@ =~= before.users@.insert(
                        spec_id_key(mapping.target_id),
                        (
                            mapping.target_id,
                            UserRecord { profile_version: v, ..before.users@[spec_id_key(mapping.target_id)].1 },
                        ),
                    ));
                }
            },
            Space::Node => {
                match records.nodes.remove(&mapping.target_id) {
                    Some(n) => records.nodes.insert(mapping.target_id, NodeRecord { advertised_version: v, ..n }),
                    None => {},
                }
                proof {
                    assert(records.nodes@ =~= before.nodes@.insert(
                        spec_id_key(mapping.target_id),
                        (
                            mapping.target_id,
                            NodeRecord { advertised_version: v, ..before.nodes@[spec_id_key(mapping.target_id)].1 },
                        ),
                    ));
                }
            },
        },
        VersionUpdate::Keep => {},
    }
    if plan.profile_bumped {
        indexes.mark_profile_version_bump(&mapping.target_id);
    }
    proof {
        assert(mapping_index_effect(indexes0, mid, *indexes, table0, *table, space, plan, mapping.target_id, now));
    }
    plan
}


/// The log once each add of a delta is recorded, in order.
pub open spec fn log_with_adds(m: Map<u64, LogRecord>, adds: Seq<DeltaAdd>) -> Map<u64, LogRecord>
    decreases adds.len(),
{
    if adds.len() == 0 {
        m
    } else {
        let a = adds.last();
        log_with_adds(m, adds.drop_last()).insert(
            spec_id_key(a.entry.user_id),
            LogRecord::Add { record_version: a.record_version, entry: a.entry },
        )
    }
}

/// The log once each remove of a delta is recorded, in order, as a
/// tombstone made at `now_ms`.
pub open spec fn log_with_removes(m: Map<u64, LogRecord>, removes: Seq<DeltaRemove>, now_ms: u64) -> Map<
    u64,
    LogRecord,
>
    decreases removes.len(),
{
    if removes.len() == 0 {
        m
    } else {
        let r = removes.last();
        log_with_removes(m, removes.drop_last(), now_ms).insert(
            spec_id_key(r.user_id),
            LogRecord::Tombstone { user_id: r.user_id, record_version: r.record_version, created_ms: now_ms },
        )
    }
}

/// What became of a MANIFEST_DELTA.
#[derive(Debug, Clone, Copy, PartialEq, Eq, Structural)]
pub enum DeltaStep {
    /// the origin's key is not known: its profile is to be asked for
    KeyUnknown,
    /// it does not build on the committed version
    Stale,
    /// the resulting state fails the origin's signature: the full
    /// manifest is to be asked for from the neighbour
    Invalid,
    /// the resulting state was committed
    Committed,
}

/// What committing a verified delta does to the origin's record: the
/// version, gateway bit, entries and signature are those of the delta,
/// the sphere is that of the transport, each add and then each remove is
/// logged, and the log is compacted.
pub open spec fn delta_committed(
    before: NodeRecord,
    after: NodeRecord,
    msg: ManifestDelta,
    scratch: Seq<ManifestEntry>,
    transport: ConnectionModule,
    now_ms: u64,
    tombstone_ttl_ms: u64,
    log_cap: usize,
) -> bool {
    &&& after.manifest_version == msg.to_version
    &&& after.advertised_version == before.advertised_version
    &&& after.is_gateway == (msg.flags & 1u8 != 0)
    &&& after.public_key == before.public_key
    &&& after.delegated@ == scratch
    &&& after.manifest_signature == Some(msg.manifest_signature)
    &&& after.retained_chunks is None
    &&& after.learn_sphere == Some(Sphere::spec_of(transport))
    &&& exists|logged: ManifestLog|
        #![trigger compaction(logged, after.manifest_log, now_ms, tombstone_ttl_ms, log_cap)]
        {
            &&& logged.wf()
            &&& logged.spec_log_base() == before.manifest_log.spec_log_base()
            &&& logged.record_map() == log_with_removes(
                log_with_adds(before.manifest_log.record_map(), msg.adds@),
                msg.removes@,
                now_ms,
            )
            &&& compaction(logged, after.manifest_log, now_ms, tombstone_ttl_ms, log_cap)
        }
}

/// Records each add of `adds` in `log`, in order.
fn log_adds(log: &mut ManifestLog, adds: &Vec<DeltaAdd>)
    requires
        old(log).wf(),
    ensures
        final(log).wf(),
        final(log).spec_log_base() == old(log).spec_log_base(),
        final(log).record_map() == log_with_adds(old(log).record_map(), adds@),
{
    let ghost start = log.record_map();
    let mut i = 0usize;
    while i < adds.len()
        invariant
            log.wf(),
            log.spec_log_base() == old(log).spec_log_base(),
            start == old(log).record_map(),
            i <= adds@.len(),
            log.record_map() == log_with_adds(start, adds@.take(i as int)),
        decreases adds@.len() - i,
    {
        proof {
            assert(adds@.take(i as int + 1).drop_last() =~= adds@.take(i as int));
        }
        log.insert_add(adds[i].record_version, adds[i].entry);
        i += 1;
    }
    proof {
        assert(adds@.take(adds@.len() as int) =~= adds@);
    }
}

/// Records each remove of `removes` in `log`, in order, as a tombstone
/// made at `now_ms`.
fn log_removes(log: &mut ManifestLog, removes: &Vec<DeltaRemove>, now_ms: u64)
    requires
        old(log).wf(),
    ensures
        final(log).wf(),
        final(log).spec_log_base() == old(log).spec_log_base(),
        final(log).record_map() == log_with_removes(old(log).record_map(), removes@, now_ms),
{
    let ghost start = log.record_map();
    let mut i = 0usize;
    while i < removes.len()
        invariant
            log.wf(),
            log.spec_log_base() == old(log).spec_log_base(),
            start == old(log).record_map(),
            i <= removes@.len(),
            log.record_map() == log_with_removes(start, removes@.take(i as int), now_ms),
        decreases removes@.len() - i,
    {
        proof {
            assert(removes@.take(i as int + 1).drop_last() =~= removes@.take(i as int));
        }
        log.insert_remove(removes[i].user_id, removes[i].record_version, now_ms);
        i += 1;
    }
    proof {
        assert(removes@.take(removes@.len() as int) =~= removes@);
    }
}

/// A copy of `entries`.
pub(crate) fn copy_entries(entries: &Vec<ManifestEntry>) -> (r: Vec<ManifestEntry>)
    ensures
        r@ == entries@,
{
    let mut out: Vec<ManifestEntry> = Vec::new();
    let mut i = 0usize;
    while i < entries.len()
        invariant
            i <= entries@.len(),
            out@ == entries@.take(i as int),
        decreases entries@.len() - i,
    {
        out.push(entries[i]);
        i += 1;
        proof {
            assert(out@ =~= entries@.take(i as int));
        }
    }
    proof {
        assert(entries@.take(entries@.len() as int) =~= entries@);
    }
    out
}

/// What handling the MANIFEST_DELTA `msg` does to the records (see
/// `handle_manifest_delta`), with the step it returns.
pub open spec fn delta_outcome(
    r0: Records,
    r1: Records,
    msg: ManifestDelta,
    transport: ConnectionModule,
    now_ms: u64,
    tombstone_ttl_ms: u64,
    log_cap: usize,
    step: DeltaStep,
) -> bool {
    let k = spec_id_key(msg.origin_node_id);
    let known = r0.nodes@.dom().contains(k) && r0.nodes@[k].1.public_key is Some;
    let rec = r0.nodes@[k].1;
    let key = rec.public_key->Some_0.spec_encoded();
    let scratch = delta_scratch(rec.delegated@, msg.removes@, msg.adds@);
    let verified = signature_verifies(key, delta_state_input(key, msg.to_version, msg.flags, scratch), msg.manifest_signature@);
    &&& r1.users@ == r0.users@
    &&& !known ==> step == DeltaStep::KeyUnknown
    &&& known && rec.manifest_version != msg.from_version ==> step == DeltaStep::Stale
    &&& known && rec.manifest_version == msg.from_version && !verified ==> step == DeltaStep::Invalid
    &&& known && rec.manifest_version == msg.from_version && verified ==> step == DeltaStep::Committed
    &&& step != DeltaStep::Committed ==> r1.nodes@ == r0.nodes@
    &&& step == DeltaStep::Committed ==> {
        &&& r1.nodes@.dom() == r0.nodes@.dom()
        &&& r1.nodes@.remove(k) == r0.nodes@.remove(k)
        &&& r1.nodes@[k].0 == r0.nodes@[k].0
        &&& delta_committed(rec, r1.nodes@[k].1, msg, scratch, transport, now_ms, tombstone_ttl_ms, log_cap)
    }
}

/// Handles a MANIFEST_DELTA received over `transport`: with the origin's
/// record and key at hand, a delta that builds on the committed version
/// and whose resulting state the origin's signature covers is committed
/// to the record; otherwise the record is left as it was, and the step
/// returned says what the caller asks for next.
pub fn handle_manifest_delta(
    records: &mut Records,
    msg: &ManifestDelta,
    transport: ConnectionModule,
    now_ms: u64,
    tombstone_ttl_ms: u64,
    log_cap: usize,
) -> (step: DeltaStep)
    requires
        old(records).wf(),
    ensures
        final(records).wf(),
        delta_outcome(*old(records), *final(records), *msg, transport, now_ms, tombstone_ttl_ms, log_cap, step),
{
    let ghost k = spec_id_key(msg.origin_node_id);
    let ghost before = *records;
    let taken = records.nodes.remove(&msg.origin_node_id);
    let mut node = match taken {
        None => {
            proof {
                assert(records.nodes@ =~= before.nodes@);
            }
            return DeltaStep::KeyUnknown;
        },
        Some(n) => n,
    };
    proof {
        assert(before.nodes@[k].1.wf());
        before.nodes.lemma_keys_match();
        lemma_id_key_injective(before.nodes@[k].0, msg.origin_node_id);
        assert(before.nodes@.remove(k).insert(k, (msg.origin_node_id, node)) =~= before.nodes@);
    }
    let outcome = match &node.public_key {
        None => None,
        Some(mk) => Some(apply_manifest_delta(copy_entries(&node.delegated), node.manifest_version, msg, mk)),
    };
    let step = match outcome {
        None => DeltaStep::KeyUnknown,
        Some(DeltaOutcome::Stale) => DeltaStep::Stale,
        Some(DeltaOutcome::Invalid) => DeltaStep::Invalid,
        Some(DeltaOutcome::Apply { entries, is_gateway }) => {
            node.manifest_version = msg.to_version;
            node.is_gateway = is_gateway;
            node.delegated = entries;
            node.manifest_signature = Some(msg.manifest_signature);
            node.retained_chunks = None;
            node.learn_sphere = Some(Sphere::of(transport));
            log_adds(&mut node.manifest_log, &msg.adds);
            log_removes(&mut node.manifest_log, &msg.removes, now_ms);
            let ghost logged = node.manifest_log;
            node.manifest_log.compact(now_ms, tombstone_ttl_ms, log_cap);
            proof {
                assert(compaction(logged, node.manifest_log, now_ms, tombstone_ttl_ms, log_cap));
            }
            DeltaStep::Committed
        },
    };
    records.nodes.insert(msg.origin_node_id, node);
    proof {
        assert(records.nodes@.remove(k) =~= before.nodes@.remove(k));
        assert(records.nodes@.dom() =~= before.nodes@.dom());
    }
    step
}


/// The profiles this node asked for and has had no answer to, by subject,
/// with the time in ms each was asked at: as a user's, as a node's.
pub struct ProfileRequests {
    pub as_user: IdMap<u64>,
    pub as_node: IdMap<u64>,
}

impl ProfileRequests {
    pub open spec fn wf(&self) -> bool {
        self.as_user.wf() && self.as_node.wf()
    }

    /// No profile asked for.
    pub fn new() -> (r: ProfileRequests)
        ensures
            r.wf(),
            r.as_user@ == Map::<u64, ([u8; 8], u64)>::empty(),
            r.as_node@ == Map::<u64, ([u8; 8], u64)>::empty(),
    {
        ProfileRequests { as_user: IdMap::new(), as_node: IdMap::new() }
    }
}

/// Whether a profile response carries a profile whose key decodes and
/// whose self-signature verifies under it.
pub open spec fn response_verifies(found: bool, profile: Option<ProfileFields>) -> bool {
    &&& found
    &&& profile matches Some(p)
    &&& key_decodes(p.multikey@)
    &&& profile_signature_valid(reencoded_key(p.multikey@), p.profile_version, p.name@, p.self_signature@)
}

/// The record key of the subject of the profile `p`: that of the routing
/// id of its key.
pub open spec fn subject_key(p: ProfileFields) -> u64 {
    be64_value(spec_routing_id(reencoded_key(p.multikey@)))
}

/// Handles a profile response. A profile that verifies is taken only
/// where this node asked for it: the requests for its subject are
/// answered, the subject's node record, if asked for as a node's, learns
/// the key, and its user record, if asked for as a user's, learns the key
/// and the profile version. The verified profile is returned when it was
/// asked for as a user's.
pub fn handle_profile_response(
    records: &mut Records,
    requests: &mut ProfileRequests,
    found: bool,
    profile: Option<ProfileFields>,
) -> (r: Option<VerifiedProfile>)
    requires
        old(records).wf(),
        old(requests).wf(),
    ensures
        final(records).wf(),
        final(requests).wf(),
        !response_verifies(found, profile) ==> {
            &&& r is None
            &&& *final(records) == *old(records)
            &&& final(requests).as_user@ == old(requests).as_user@
            &&& final(requests).as_node@ == old(requests).as_node@
        },
        response_verifies(found, profile) ==> ({
            let p = profile->Some_0;
            let k = subject_key(p);
            let key = reencoded_key(p.multikey@);
            let as_user = old(requests).as_user@.dom().contains(k);
            let as_node = old(requests).as_node@.dom().contains(k);
            &&& final(requests).as_user@ == old(requests).as_user@.remove(k)
            &&& final(requests).as_node@ == old(requests).as_node@.remove(k)
            &&& final(records).nodes@.dom() == old(records).nodes@.dom()
            &&& final(records).nodes@.remove(k) == old(records).nodes@.remove(k)
            &&& final(records).users@.dom() == old(records).users@.dom()
            &&& final(records).users@.remove(k) == old(records).users@.remove(k)
            &&& old(records).nodes@.dom().contains(k) ==> {
                let (id, n) = final(records).nodes@[k];
                &&& id == old(records).nodes@[k].0
                &&& as_node ==> n == (NodeRecord { public_key: n.public_key, ..old(records).nodes@[k].1 })
                &&& as_node ==> (n.public_key matches Some(mk) && mk.spec_encoded() == key)
                &&& !as_node ==> n == old(records).nodes@[k].1
            }
            &&& old(records).users@.dom().contains(k) ==> {
                let (id, u) = final(records).users@[k];
                &&& id == old(records).users@[k].0
                &&& as_user ==> u == (UserRecord {
                    public_key: u.public_key,
                    profile_version: p.profile_version,
                    ..old(records).users@[k].1
                })
                &&& as_user ==> (u.public_key matches Some(mk) && mk.spec_encoded() == key)
                &&& !as_user ==> u == old(records).users@[k].1
            }
            &&& !as_user ==> r is None
            &&& as_user ==> (r matches Some(v) && {
                &&& v.subject@ == spec_routing_id(key)
                &&& v.profile.multikey.spec_encoded() == key
                &&& v.profile.version == p.profile_version
                &&& v.profile.name@ == p.name@
                &&& v.profile.self_signature@ == p.self_signature@
                &&& v.capabilities == p.capabilities
            })
        }),
{
    let ghost rec0 = *records;
    let ghost pf = profile;
    let checked = check_profile_response(found, profile);
    let v = match checked {
        None => return None,
        Some(v) => v,
    };
    let ghost k = spec_id_key(v.subject);
    assert(k == subject_key(pf->Some_0));
    let asked_user = requests.as_user.remove(&v.subject).is_some();
    let asked_node = requests.as_node.remove(&v.subject).is_some();
    if !asked_user && !asked_node {
        return None;
    }
    if asked_node {
        match records.nodes.remove(&v.subject) {
            Some(mut n) => {
                proof {
                    rec0.nodes.lemma_keys_match();
                    lemma_id_key_injective(rec0.nodes@[k].0, v.subject);
                }
                n.public_key = Some(v.profile.multikey.duplicate());
                records.nodes.insert(v.subject, n);
            },
            None => {},
        }
    }
    proof {
        assert(records.nodes@.remove(k) =~= rec0.nodes@.remove(k));
        assert(records.nodes@.dom() =~= rec0.nodes@.dom());
    }
    if asked_user {
        match records.users.remove(&v.subject) {
            Some(mut u) => {
                proof {
                    rec0.users.lemma_keys_match();
                    lemma_id_key_injective(rec0.users@[k].0, v.subject);
                }
                u.public_key = Some(v.profile.multikey.duplicate());
                u.profile_version = v.profile.version;
                records.users.insert(v.subject, u);
            },
            None => {},
        }
    }
    proof {
        assert(records.users@.remove(k) =~= rec0.users@.remove(k));
        assert(records.users@.dom() =~= rec0.users@.dom());
    }
    if asked_user {
        Some(v)
    } else {
        None
    }
}


/// Whether `hosted` lists each user the records mark as hosted, once.
pub open spec fn lists_hosted(users: Map<u64, ([u8; 8], UserRecord)>, hosted: Seq<[u8; 8]>) -> bool {
    &&& hosted.no_duplicates()
    &&& forall|i: int|
        0 <= i < hosted.len() ==> {
            let k = spec_id_key(#[trigger] hosted[i]);
            &&& users.dom().contains(k)
            &&& users[k].0 == hosted[i]
            &&& users[k].1.is_hosted
        }
    &&& forall|k: u64|
        #[trigger] users.dom().contains(k) && users[k].1.is_hosted ==> exists|i: int|
            0 <= i < hosted.len() && spec_id_key(#[trigger] hosted[i]) == k
}

impl Records {
    /// The users this node hosts.
    pub fn hosted_user_ids(&self) -> (r: Vec<[u8; 8]>)
        requires
            self.wf(),
        ensures
            lists_hosted(self.users@, r@),
    {
        let ids = self.users.ids();
        proof {
            self.users.lemma_keys_match();
        }
        let mut out: Vec<[u8; 8]> = Vec::new();
        let n = ids.len();
        let mut i = 0usize;
        while i < n
            invariant
                self.wf(),
                n == ids@.len(),
                i <= n,
                ids@.no_duplicates(),
                forall|j: int| 0 <= j < n ==> self.users@.dom().contains(spec_id_key(#[trigger] ids@[j])),
                forall|k: u64| #[trigger] self.users@.dom().contains(k) ==> exists|j: int|
                    0 <= j < n && spec_id_key(#[trigger] ids@[j]) == k,
                forall|k: u64| #[trigger] self.users@.dom().contains(k) ==> spec_id_key(self.users@[k].0) == k,
                out@.no_duplicates(),
                forall|m: int|
                    0 <= m < out@.len() ==> {
                        let k = spec_id_key(#[trigger] out@[m]);
                        &&& self.users@.dom().contains(k)
                        &&& self.users@[k].0 == out@[m]
                        &&& self.users@[k].1.is_hosted
                    },
                forall|m: int| 0 <= m < out@.len() ==> exists|j: int| 0 <= j < i && (#[trigger] out@[m]) == ids@[j],
                forall|j: int|
                    0 <= j < i && (#[trigger] self.users@[spec_id_key(ids@[j])]).1.is_hosted ==> exists|m: int|
                        0 <= m < out@.len() && out@[m] == ids@[j],
            decreases n - i,
        {
            let id = ids[i];
            proof {
                let k = spec_id_key(id);
                assert(self.users@.dom().contains(k));
                lemma_id_key_injective(self.users@[k].0, id);
            }
            let ghost out0 = out@;
            match self.users.get(&id) {
                Some(u) => {
                    if u.is_hosted {
                        proof {
                            assert forall|m: int| 0 <= m < out@.len() implies out@[m] != id by {
                                let j = choose|j: int| 0 <= j < i && out@[m] == ids@[j];
                                assert(ids@[j] != ids@[i as int]);
                            }
                        }
                        out.push(id);
                        proof {
                            assert(out@[out@.len() - 1] == id);
                        }
                    }
                },
                None => {},
            }
            proof {
                assert forall|j: int|
                    0 <= j < i + 1 && (#[trigger] self.users@[spec_id_key(ids@[j])]).1.is_hosted implies exists|m: int|
                    0 <= m < out@.len() && out@[m] == ids@[j] by {
                    if j == i {
                        assert(out@[out@.len() - 1] == ids@[j]);
                    } else {
                        let m = choose|m: int| 0 <= m < out0.len() && out0[m] == ids@[j];
                        assert(out@[m] == out0[m]);
                    }
                }
            }
            i += 1;
        }
        proof {
            assert forall|k: u64| #[trigger] self.users@.dom().contains(k) && self.users@[k].1.is_hosted implies exists|
                m: int,
            | 0 <= m < out@.len() && spec_id_key(#[trigger] out@[m]) == k by {
                let j = choose|j: int| 0 <= j < n && spec_id_key(#[trigger] ids@[j]) == k;
                assert(self.users@[spec_id_key(ids@[j])].1.is_hosted);
                let m = choose|m: int| 0 <= m < out@.len() && out@[m] == ids@[j];
                assert(spec_id_key(out@[m]) == k);
            }
        }
        out
    }
}

/// What registering a hosted user does to its record: a new user is
/// recorded hosted with the key and version; a known one becomes hosted,
/// learns the key, and takes the version where it is fresher.
pub open spec fn hosted_record(before: Option<UserRecord>, after: UserRecord, profile_version: u32, key: Seq<u8>) -> bool {
    &&& after.is_hosted
    &&& after.public_key matches Some(mk) && mk.spec_encoded() == key
    &&& after.profile_version == match before {
        None => profile_version,
        Some(u) => if spec_is_fresher_u32(profile_version, u.profile_version) {
            profile_version
        } else {
            u.profile_version
        },
    }
}

/// What registering `user_id` as hosted does, from `r0`/`i0` to
/// `r1`/`i1`: the user's record is made or updated as hosted with the
/// given key and the fresher profile version, no other record changes,
/// and the reserved user index is claimed for the user when this node then
/// names its users by user entries and the index is not bound to the user
/// already; otherwise the indexes stay as they were.
pub open spec fn hosted_registration(
    r0: Records,
    i0: Indexes,
    r1: Records,
    i1: Indexes,
    user_id: [u8; 8],
    profile_version: u32,
    key: Seq<u8>,
    has_internet_transport: bool,
    own_entries: Seq<ManifestEntry>,
) -> bool {
    let k = spec_id_key(user_id);
    let before = if r0.users@.dom().contains(k) {
        Some(r0.users@[k].1)
    } else {
        None
    };
    &&& r1.nodes@ == r0.nodes@
    &&& r1.users@.dom() == r0.users@.dom().insert(k)
    &&& r1.users@.remove(k) == r0.users@.remove(k)
    &&& r1.users@[k].0 == user_id
    &&& hosted_record(before, r1.users@[k].1, profile_version, key)
    &&& exists|hosted: Seq<[u8; 8]>|
        #[trigger] lists_hosted(r1.users@, hosted) && {
            let claim = spec_desired_propagation_form(
                hosted.len(),
                has_internet_transport,
                holds_foreign(own_entries, hosted),
            ) == PropagationForm::User && !(i0.user_dict.spec_forward().dom().contains(RESERVED_INDEX)
                && i0.user_dict.spec_forward()[RESERVED_INDEX] == user_id);
            &&& claim ==> reserved_binding(i0, i1, Space::User, user_id)
            &&& !claim ==> i1 == i0
        }
}

/// Two hosted lists of the same records name the same users, and as
/// many.
proof fn lemma_hosted_lists_agree(
    m1: Map<u64, ([u8; 8], UserRecord)>,
    m2: Map<u64, ([u8; 8], UserRecord)>,
    h1: Seq<[u8; 8]>,
    h2: Seq<[u8; 8]>,
)
    requires
        lists_hosted(m1, h1),
        lists_hosted(m2, h2),
        forall|k: u64|
            (m1.dom().contains(k) && m1[k].1.is_hosted) <==> (#[trigger] m2.dom().contains(k) && m2[k].1.is_hosted),
        forall|k: u64| m1.dom().contains(k) && m1[k].1.is_hosted ==> #[trigger] m2[k].0 == m1[k].0,
    ensures
        h1.len() == h2.len(),
        forall|x: [u8; 8]| hosts(h1, x) <==> #[trigger] hosts(h2, x),
{
    assert forall|x: [u8; 8]| h1.contains(x) implies h2.contains(x) by {
        let i = choose|i: int| 0 <= i < h1.len() && h1[i] == x;
        let k = spec_id_key(h1[i]);
        assert(m1.dom().contains(k) && m1[k].1.is_hosted);
        assert(m2.dom().contains(k));
        let j = choose|j: int| 0 <= j < h2.len() && spec_id_key(#[trigger] h2[j]) == k;
        assert(m2[spec_id_key(h2[j])].0 == h2[j]);
        assert(h2[j] == x);
    }
    assert forall|x: [u8; 8]| h2.contains(x) implies h1.contains(x) by {
        let j = choose|j: int| 0 <= j < h2.len() && h2[j] == x;
        let k = spec_id_key(h2[j]);
        assert(m2.dom().contains(k) && m2[k].1.is_hosted);
        assert(m1.dom().contains(k));
        let i = choose|i: int| 0 <= i < h1.len() && spec_id_key(#[trigger] h1[i]) == k;
        assert(m1[spec_id_key(h1[i])].0 == h1[i]);
        assert(h1[i] == x);
    }
    assert(h1.to_set() =~= h2.to_set());
    h1.unique_seq_to_set();
    h2.unique_seq_to_set();
    assert forall|x: [u8; 8]| hosts(h1, x) implies #[trigger] hosts(h2, x) by {
        let i = choose|i: int| 0 <= i < h1.len() && spec_id_key(#[trigger] h1[i]) == spec_id_key(x);
        assert(h1.contains(h1[i]));
        assert(h2.contains(h1[i]));
        let j = choose|j: int| 0 <= j < h2.len() && h2[j] == h1[i];
        assert(spec_id_key(h2[j]) == spec_id_key(x));
    }
    assert forall|x: [u8; 8]| hosts(h2, x) implies #[trigger] hosts(h1, x) by {
        let j = choose|j: int| 0 <= j < h2.len() && spec_id_key(#[trigger] h2[j]) == spec_id_key(x);
        assert(h2.contains(h2[j]));
        assert(h1.contains(h2[j]));
        let i = choose|i: int| 0 <= i < h1.len() && h1[i] == h2[j];
        assert(spec_id_key(h1[i]) == spec_id_key(x));
    }
}

/// Registering a hosted user a second time with the same arguments
/// changes nothing more: the indexes stay as the first call left them,
/// and the user's record keeps its profile version, its key and its
/// hosting, beside unchanged records of every other user and node.
pub proof fn lemma_register_hosted_user_idempotent(
    r0: Records,
    i0: Indexes,
    r1: Records,
    i1: Indexes,
    r2: Records,
    i2: Indexes,
    user_id: [u8; 8],
    profile_version: u32,
    key: Seq<u8>,
    has_internet_transport: bool,
    own_entries: Seq<ManifestEntry>,
)
    requires
        hosted_registration(r0, i0, r1, i1, user_id, profile_version, key, has_internet_transport, own_entries),
        hosted_registration(r1, i1, r2, i2, user_id, profile_version, key, has_internet_transport, own_entries),
    ensures
        i2 == i1,
        r2.nodes@ == r1.nodes@,
        r2.users@.dom() == r1.users@.dom(),
        r2.users@.remove(spec_id_key(user_id)) == r1.users@.remove(spec_id_key(user_id)),
        r2.users@[spec_id_key(user_id)].0 == r1.users@[spec_id_key(user_id)].0,
        r2.users@[spec_id_key(user_id)].1.profile_version == r1.users@[spec_id_key(user_id)].1.profile_version,
        r2.users@[spec_id_key(user_id)].1.is_hosted,
        r2.users@[spec_id_key(user_id)].1.public_key matches Some(mk) && mk.spec_encoded() == key,
{
    let k = spec_id_key(user_id);
    let u1 = r1.users@[k].1;
    assert(r1.users@.dom().contains(k));
    assert(!spec_is_fresher_u32(profile_version, u1.profile_version));
    assert(r2.users@.dom() =~= r1.users@.dom());
    let h1 = choose|hosted: Seq<[u8; 8]>|
        #[trigger] lists_hosted(r1.users@, hosted) && {
            let claim = spec_desired_propagation_form(
                hosted.len(),
                has_internet_transport,
                holds_foreign(own_entries, hosted),
            ) == PropagationForm::User && !(i0.user_dict.spec_forward().dom().contains(RESERVED_INDEX)
                && i0.user_dict.spec_forward()[RESERVED_INDEX] == user_id);
            &&& claim ==> reserved_binding(i0, i1, Space::User, user_id)
            &&& !claim ==> i1 == i0
        };
    let h2 = choose|hosted: Seq<[u8; 8]>|
        #[trigger] lists_hosted(r2.users@, hosted) && {
            let claim = spec_desired_propagation_form(
                hosted.len(),
                has_internet_transport,
                holds_foreign(own_entries, hosted),
            ) == PropagationForm::User && !(i1.user_dict.spec_forward().dom().contains(RESERVED_INDEX)
                && i1.user_dict.spec_forward()[RESERVED_INDEX] == user_id);
            &&& claim ==> reserved_binding(i1, i2, Space::User, user_id)
            &&& !claim ==> i2 == i1
        };
    assert forall|k2: u64| k2 != k && #[trigger] r1.users@.dom().contains(k2) implies r2.users@[k2] == r1.users@[k2] by {
        assert(r2.users@.remove(k).dom().contains(k2));
        assert(r2.users@.remove(k)[k2] == r1.users@.remove(k)[k2]);
    }
    lemma_hosted_lists_agree(r1.users@, r2.users@, h1, h2);
    assert(holds_foreign(own_entries, h1) == holds_foreign(own_entries, h2)) by {
        if holds_foreign(own_entries, h1) {
            let i = choose|i: int| 0 <= i < own_entries.len() && !hosts(h1, (#[trigger] own_entries[i]).user_id);
            assert(!hosts(h2, own_entries[i].user_id));
        }
        if holds_foreign(own_entries, h2) {
            let i = choose|i: int| 0 <= i < own_entries.len() && !hosts(h2, (#[trigger] own_entries[i]).user_id);
            assert(!hosts(h1, own_entries[i].user_id));
        }
    }
    assert(i1.user_dict.spec_forward().dom().contains(RESERVED_INDEX) && i1.user_dict.spec_forward()[RESERVED_INDEX]
        == user_id ==> i2 == i1);
}

/// Registers a user this node hosts: its record is made or updated, and,
/// when this node then names its users by user entries (no second hosted
/// user, no Internet transport, no foreign delegation in `own_entries`),
/// it is bound at the reserved user index and marked for introduction,
/// unless it is bound there already.
pub fn register_hosted_user(
    records: &mut Records,
    indexes: &mut Indexes,
    user_id: [u8; 8],
    profile_version: u32,
    public_key: Multikey,
    has_internet_transport: bool,
    own_entries: &[ManifestEntry],
)
    requires
        old(records).wf(),
        old(indexes).wf(),
    ensures
        final(records).wf(),
        final(indexes).wf(),
        hosted_registration(
            *old(records),
            *old(indexes),
            *final(records),
            *final(indexes),
            user_id,
            profile_version,
            public_key.spec_encoded(),
            has_internet_transport,
            own_entries@,
        ),
{
    let ghost k = spec_id_key(user_id);
    let ghost before = *records;
    proof {
        before.users.lemma_keys_match();
    }
    let stored = records.users.remove(&user_id);
    let rec = match stored {
        Some(u) => UserRecord {
            profile_version: hosted_profile_version(Some(u.profile_version), profile_version),
            public_key: Some(public_key),
            is_hosted: true,
        },
        None => UserRecord { profile_version, public_key: Some(public_key), is_hosted: true },
    };
    records.users.insert(user_id, rec);
    proof {
        assert(records.users@.remove(k) =~= before.users@.remove(k));
        assert(records.users@.dom() =~= before.users@.dom().insert(k));
    }
    let hosted = records.hosted_user_ids();
    let form = desired_propagation_form(&hosted, has_internet_transport, own_entries);
    let _ = indexes.claim_reserved_user_index(form, user_id);
}

} // verus!
