//! What a node learns from what its neighbours send it: the entries of a
//! ROUTING_UPDATE become routes and are queued for relay, its mappings
//! update the mirror and the records, and the frames of a received
//! buffer are handled one after the other by the handler of their type.

use vstd::prelude::*;

use std::time::Instant;

use crate::codec::frame::{decode_frame, spec_frames, split_frames, Message};
use crate::codec::messages::{
    request_items_view, Entry, IndexDump, IndexDumpV, ManifestDelta, ManifestDeltaV, ManifestEntry, ManifestRequest,
    Mapping, NodeManifest, NodeManifestV, RoutingUpdate, RoutingUpdateV,
};
use crate::codec::{CodecError, RoutingMessage};
use crate::manifest::serve::PartialV;
use crate::records::{delta_outcome, handle_manifest_delta, DeltaStep};
use crate::manifest::serve::ChunkAssembler;
use crate::receive::{chunk_signed_by, intake_node_manifest, ManifestIntake};
use crate::manifest::serve::spec_assemble;
use crate::manifest::{sort_by_user, sort_entries};
use crate::manifest::log::LogRecord;
use crate::keyed::lemma_id_key_injective;
use crate::records::NodeRecord;
use crate::sphere::{stale_after_chunk, Sphere};
use crate::error::RoutingV2Error;
use crate::indexes::{settle_step, target_step, Indexes};
use crate::keyed::spec_id_key;
use crate::mapping::MappingPlan;
use crate::mirror::NeighbourInfo;
use crate::receive::EntryArg;
use crate::records::{apply_mapping, mapping_outcome, Records};
use crate::sphere::{ConnectionModule, Space};
use crate::table::{RoutingEntry, RoutingTable};
use crate::tick::enqueue;
use crate::codec::messages::ManifestRequestItem;
use crate::keyed::same_id;
use crate::manifest::own::OriginManifest;
use crate::manifest::serve::{decide_serve, node_serve_state, spec_decide_serve, OriginServeState, ServeDecision};
use crate::pull::{allow_in_window, stale_prefix};
use std::collections::VecDeque;
use crate::manifest::log::{record_key, sorted_by_version, ManifestLog};
use crate::manifest::serve::{delta_answer, full_manifest_chunks};
use crate::manifest::{delta_adds_of, delta_removes_of, delta_size_estimate, MAX_BODY};
use crate::records::copy_entries;
use crate::seq::spec_is_fresher_u32;

verus! {

/// What became of one received entry.
#[derive(Debug, Clone, Copy, PartialEq, Eq, Structural)]
pub enum EntryStep {
    /// it travelled too far, or the neighbour's mirror does not bind its
    /// index
    Dropped,
    /// this node keeps no record of its target
    NoRecord,
    /// it is no better than the route held, or the neighbour has no node
    /// index
    Rejected,
    /// it was stored at this own index and queued for relay
    Stored(u16),
}

/// Whether this node keeps a record of the target bound at `idx` of
/// `space`.
pub open spec fn has_record(indexes: Indexes, records: Records, space: Space, idx: u16) -> bool {
    let fwd = indexes.spec_dict(space).spec_forward();
    &&& fwd.dom().contains(idx)
    &&& match space {
        Space::User => records.users@.dom().contains(spec_id_key(fwd[idx])),
        Space::Node => records.nodes@.dom().contains(spec_id_key(fwd[idx])),
    }
}

/// The relay queue once the slot at `idx` of `space` is queued.
pub open spec fn queued(q: Seq<(Space, u16)>, space: Space, idx: u16) -> Seq<(Space, u16)> {
    if q.contains((space, idx)) {
        q
    } else {
        q.push((space, idx))
    }
}

/// The entry as the receive path reads it.
pub open spec fn entry_arg(e: Entry) -> EntryArg {
    EntryArg { abs_idx: e.abs_idx, seq: e.seq, metric: e.metric, hop_count: e.hop_count, local_only: e.local_only }
}

/// What receiving `entry` of `space` from `mirror` does to the indexes,
/// the table and the relay queue: the target's own index is found or
/// made (see `target_step`); an entry without one, or whose target has
/// no record, goes no further; else it is settled (see `settle_step`)
/// and, when stored, its slot is queued for relay.
pub open spec fn entry_outcome(
    i0: Indexes,
    i1: Indexes,
    t0: RoutingTable<RoutingEntry>,
    t1: RoutingTable<RoutingEntry>,
    q0: Seq<(Space, u16)>,
    q1: Seq<(Space, u16)>,
    records: Records,
    mirror: NeighbourInfo,
    space: Space,
    entry: EntryArg,
    transport: ConnectionModule,
    rssi_dbm: Option<i8>,
    now_ms: u64,
    r: Result<EntryStep, RoutingV2Error>,
) -> bool {
    exists|t: Result<Option<u16>, RoutingV2Error>|
        #[trigger] target_step(i0, i1, Some(&mirror), space, entry, t) && match t {
            Err(e) => r == Err::<EntryStep, RoutingV2Error>(e) && t1 == t0 && q1 == q0,
            Ok(None) => r == Ok::<EntryStep, RoutingV2Error>(EntryStep::Dropped) && t1 == t0 && q1 == q0,
            Ok(Some(i)) => if !has_record(i1, records, space, i) {
                r == Ok::<EntryStep, RoutingV2Error>(EntryStep::NoRecord) && t1 == t0 && q1 == q0
            } else {
                exists|stored: bool|
                    #[trigger] settle_step(i1, t0, t1, Some(&mirror), space, i, entry, transport, rssi_dbm, now_ms, stored)
                        && (stored ==> r == Ok::<EntryStep, RoutingV2Error>(EntryStep::Stored(i)) && q1 == queued(
                        q0,
                        space,
                        i,
                    )) && (!stored ==> r == Ok::<EntryStep, RoutingV2Error>(EntryStep::Rejected) && q1 == q0)
            },
        }
}

/// Whether this node keeps a record of the target bound at `idx`.
fn target_has_record(indexes: &Indexes, records: &Records, space: Space, idx: u16) -> (r: bool)
    requires
        indexes.wf(),
        records.wf(),
    ensures
        r == has_record(*indexes, *records, space, idx),
{
    let id = match space {
        Space::User => indexes.user_dict.id_of(idx),
        Space::Node => indexes.node_dict.id_of(idx),
    };
    match id {
        None => false,
        Some(id) => match space {
            Space::User => records.users.contains(&id),
            Space::Node => records.nodes.contains(&id),
        },
    }
}

/// Receives one entry of `space` from the neighbour `mirror` over
/// `transport`: see `entry_outcome`.
pub fn apply_entry(
    indexes: &mut Indexes,
    table: &mut RoutingTable<RoutingEntry>,
    queue: &mut Vec<(Space, u16)>,
    records: &Records,
    mirror: &NeighbourInfo,
    space: Space,
    entry: &EntryArg,
    transport: ConnectionModule,
    rssi_dbm: Option<i8>,
    now_ms: u64,
) -> (r: Result<EntryStep, RoutingV2Error>)
    requires
        old(indexes).wf(),
        old(table).wf(),
        records.wf(),
        mirror.wf(),
    ensures
        final(indexes).wf(),
        final(table).wf(),
        entry_outcome(
            *old(indexes),
            *final(indexes),
            *old(table),
            *final(table),
            old(queue)@,
            final(queue)@,
            *records,
            *mirror,
            space,
            *entry,
            transport,
            rssi_dbm,
            now_ms,
            r,
        ),
{
    let t = indexes.entry_target(Some(mirror), space, entry);
    let i = match t {
        Err(e) => {
            return Err(e);
        },
        Ok(None) => {
            return Ok(EntryStep::Dropped);
        },
        Ok(Some(i)) => i,
    };
    if !target_has_record(indexes, records, space, i) {
        return Ok(EntryStep::NoRecord);
    }
    let stored = indexes.settle_entry(table, Some(mirror), space, i, entry, transport, rssi_dbm, now_ms);
    if stored {
        enqueue(queue, space, i);
        Ok(EntryStep::Stored(i))
    } else {
        Ok(EntryStep::Rejected)
    }
}


/// The indexes, table, neighbour and records through which a run of
/// mappings passes.
pub type MappingState = (Indexes, RoutingTable<RoutingEntry>, NeighbourInfo, Records);

/// The indexes, table and relay queue through which a run of entries
/// passes.
pub type EntryState = (Indexes, RoutingTable<RoutingEntry>, Seq<(Space, u16)>);

/// `st` passes through the mappings `ms` of `space`, one after the
/// other, each as `apply_mapping` does it, with plans `plans`.
pub open spec fn mappings_run(st: Seq<MappingState>, space: Space, ms: Seq<Mapping>, now: Instant, plans: Seq<MappingPlan>) -> bool {
    &&& st.len() == ms.len() + 1
    &&& plans.len() == ms.len()
    &&& forall|i: int|
        #![trigger ms[i]]
        0 <= i < ms.len() ==> mapping_outcome(
            st[i].0,
            st[i + 1].0,
            st[i].1,
            st[i + 1].1,
            st[i].2,
            st[i + 1].2,
            st[i].3,
            st[i + 1].3,
            space,
            ms[i],
            now,
            plans[i],
        )
}

/// `st` passes through the entries `es` of `space` from `mirror`, one
/// after the other, each as `apply_entry` does it, with steps `steps`.
pub open spec fn entries_run(
    st: Seq<EntryState>,
    records: Records,
    mirror: NeighbourInfo,
    space: Space,
    es: Seq<Entry>,
    transport: ConnectionModule,
    rssi_dbm: Option<i8>,
    now_ms: u64,
    steps: Seq<Result<EntryStep, RoutingV2Error>>,
) -> bool {
    &&& st.len() == es.len() + 1
    &&& steps.len() == es.len()
    &&& forall|i: int|
        #![trigger es[i]]
        0 <= i < es.len() ==> entry_outcome(
            st[i].0,
            st[i + 1].0,
            st[i].1,
            st[i + 1].1,
            st[i].2,
            st[i + 1].2,
            records,
            mirror,
            space,
            entry_arg(es[i]),
            transport,
            rssi_dbm,
            now_ms,
            steps[i],
        )
}

/// Applies the mappings `ms` of `space` announced by `neighbour`, in
/// order; returns their plans.
pub fn apply_mappings(
    indexes: &mut Indexes,
    table: &mut RoutingTable<RoutingEntry>,
    neighbour: &mut NeighbourInfo,
    records: &mut Records,
    space: Space,
    ms: &Vec<Mapping>,
    now: Instant,
) -> (plans: Vec<MappingPlan>)
    requires
        old(indexes).wf(),
        old(table).wf(),
        old(neighbour).wf(),
        old(records).wf(),
    ensures
        final(indexes).wf(),
        final(table).wf(),
        final(neighbour).wf(),
        final(records).wf(),
        exists|st: Seq<MappingState>|
            #[trigger] mappings_run(st, space, ms@, now, plans@) && st[0] == (
                *old(indexes),
                *old(table),
                *old(neighbour),
                *old(records),
            ) && st.last() == (*final(indexes), *final(table), *final(neighbour), *final(records)),
{
    let mut plans: Vec<MappingPlan> = Vec::new();
    let ghost mut st: Seq<MappingState> = seq![(*indexes, *table, *neighbour, *records)];
    let n = ms.len();
    let mut i = 0usize;
    while i < n
        invariant
            indexes.wf(),
            table.wf(),
            neighbour.wf(),
            records.wf(),
            n == ms@.len(),
            i <= n,
            mappings_run(st, space, ms@.take(i as int), now, plans@),
            st[0] == (*old(indexes), *old(table), *old(neighbour), *old(records)),
            st.last() == (*indexes, *table, *neighbour, *records),
        decreases n - i,
    {
        let p = apply_mapping(indexes, table, neighbour, records, space, &ms[i], now);
        plans.push(p);
        proof {
            let st0 = st;
            st = st.push((*indexes, *table, *neighbour, *records));
            assert forall|j: int| #![trigger ms@.take(i as int + 1)[j]] 0 <= j < i + 1 implies mapping_outcome(
                st[j].0,
                st[j + 1].0,
                st[j].1,
                st[j + 1].1,
                st[j].2,
                st[j + 1].2,
                st[j].3,
                st[j + 1].3,
                space,
                ms@.take(i as int + 1)[j],
                now,
                plans@[j],
            ) by {
                if j < i {
                    assert(ms@.take(i as int)[j] == ms@.take(i as int + 1)[j]);
                    assert(st[j] == st0[j]);
                    assert(st[j + 1] == st0[j + 1]);
                }
            }
        }
        i += 1;
    }
    proof {
        assert(ms@.take(n as int) =~= ms@);
    }
    plans
}

/// Receives the entries `es` of `space` from `mirror`, in order; returns
/// what became of each.
pub fn apply_entries(
    indexes: &mut Indexes,
    table: &mut RoutingTable<RoutingEntry>,
    queue: &mut Vec<(Space, u16)>,
    records: &Records,
    mirror: &NeighbourInfo,
    space: Space,
    es: &Vec<Entry>,
    transport: ConnectionModule,
    rssi_dbm: Option<i8>,
    now_ms: u64,
) -> (steps: Vec<Result<EntryStep, RoutingV2Error>>)
    requires
        old(indexes).wf(),
        old(table).wf(),
        records.wf(),
        mirror.wf(),
    ensures
        final(indexes).wf(),
        final(table).wf(),
        exists|st: Seq<EntryState>|
            #[trigger] entries_run(st, *records, *mirror, space, es@, transport, rssi_dbm, now_ms, steps@) && st[0] == (
                *old(indexes),
                *old(table),
                old(queue)@,
            ) && st.last() == (*final(indexes), *final(table), final(queue)@),
{
    let mut steps: Vec<Result<EntryStep, RoutingV2Error>> = Vec::new();
    let ghost mut st: Seq<EntryState> = seq![(*indexes, *table, queue@)];
    let n = es.len();
    let mut i = 0usize;
    while i < n
        invariant
            indexes.wf(),
            table.wf(),
            records.wf(),
            mirror.wf(),
            n == es@.len(),
            i <= n,
            entries_run(st, *records, *mirror, space, es@.take(i as int), transport, rssi_dbm, now_ms, steps@),
            st[0] == (*old(indexes), *old(table), old(queue)@),
            st.last() == (*indexes, *table, queue@),
        decreases n - i,
    {
        let e = &es[i];
        let arg = EntryArg { abs_idx: e.abs_idx, seq: e.seq, metric: e.metric, hop_count: e.hop_count, local_only: e.local_only };
        let r = apply_entry(indexes, table, queue, records, mirror, space, &arg, transport, rssi_dbm, now_ms);
        steps.push(r);
        proof {
            let st0 = st;
            st = st.push((*indexes, *table, queue@));
            assert forall|j: int| #![trigger es@.take(i as int + 1)[j]] 0 <= j < i + 1 implies entry_outcome(
                st[j].0,
                st[j + 1].0,
                st[j].1,
                st[j + 1].1,
                st[j].2,
                st[j + 1].2,
                *records,
                *mirror,
                space,
                entry_arg(es@.take(i as int + 1)[j]),
                transport,
                rssi_dbm,
                now_ms,
                steps@[j],
            ) by {
                if j < i {
                    assert(es@.take(i as int)[j] == es@.take(i as int + 1)[j]);
                    assert(st[j] == st0[j]);
                    assert(st[j + 1] == st0[j + 1]);
                }
            }
        }
        i += 1;
    }
    proof {
        assert(es@.take(n as int) =~= es@);
    }
    steps
}


/// What became of a ROUTING_UPDATE: the plans of its user and node
/// mappings, and the steps of its user and node entries.
pub struct UpdateOutcome {
    pub user_plans: Vec<MappingPlan>,
    pub node_plans: Vec<MappingPlan>,
    pub user_steps: Vec<Result<EntryStep, RoutingV2Error>>,
    pub node_steps: Vec<Result<EntryStep, RoutingV2Error>>,
}

/// What receiving the ROUTING_UPDATE `u` from `n0` does: its user
/// mappings and then its node mappings are applied, one after the other;
/// then its user entries and then its node entries are received from the
/// neighbour as the mappings left it, one after the other.
pub open spec fn update_outcome(
    i0: Indexes,
    i1: Indexes,
    t0: RoutingTable<RoutingEntry>,
    t1: RoutingTable<RoutingEntry>,
    q0: Seq<(Space, u16)>,
    q1: Seq<(Space, u16)>,
    n0: NeighbourInfo,
    n1: NeighbourInfo,
    r0: Records,
    r1: Records,
    u: RoutingUpdate,
    transport: ConnectionModule,
    rssi_dbm: Option<i8>,
    now_ms: u64,
    now: Instant,
    out: UpdateOutcome,
) -> bool {
    exists|a: Seq<MappingState>, b: Seq<MappingState>, c: Seq<EntryState>, d: Seq<EntryState>|
        #![trigger mappings_run(a, Space::User, u.user_mappings@, now, out.user_plans@), mappings_run(b, Space::Node, u.node_mappings@, now, out.node_plans@), entries_run(c, r1, n1, Space::User, u.user_entries@, transport, rssi_dbm, now_ms, out.user_steps@), entries_run(d, r1, n1, Space::Node, u.node_entries@, transport, rssi_dbm, now_ms, out.node_steps@)]
        {
            &&& mappings_run(a, Space::User, u.user_mappings@, now, out.user_plans@)
            &&& a[0] == (i0, t0, n0, r0)
            &&& mappings_run(b, Space::Node, u.node_mappings@, now, out.node_plans@)
            &&& b[0] == a.last()
            &&& b.last().2 == n1
            &&& b.last().3 == r1
            &&& entries_run(c, r1, n1, Space::User, u.user_entries@, transport, rssi_dbm, now_ms, out.user_steps@)
            &&& c[0] == (b.last().0, b.last().1, q0)
            &&& entries_run(d, r1, n1, Space::Node, u.node_entries@, transport, rssi_dbm, now_ms, out.node_steps@)
            &&& d[0] == c.last()
            &&& d.last() == (i1, t1, q1)
        }
}

/// Receives a ROUTING_UPDATE from `neighbour` over `transport`: see
/// `update_outcome`. Accepted entries are stored as routes and their
/// slots queued for the relay tick.
pub fn apply_routing_update(
    indexes: &mut Indexes,
    table: &mut RoutingTable<RoutingEntry>,
    queue: &mut Vec<(Space, u16)>,
    records: &mut Records,
    neighbour: &mut NeighbourInfo,
    u: &RoutingUpdate,
    transport: ConnectionModule,
    rssi_dbm: Option<i8>,
    now_ms: u64,
    now: Instant,
) -> (out: UpdateOutcome)
    requires
        old(indexes).wf(),
        old(table).wf(),
        old(neighbour).wf(),
        old(records).wf(),
    ensures
        final(indexes).wf(),
        final(table).wf(),
        final(neighbour).wf(),
        final(records).wf(),
        update_outcome(
            *old(indexes),
            *final(indexes),
            *old(table),
            *final(table),
            old(queue)@,
            final(queue)@,
            *old(neighbour),
            *final(neighbour),
            *old(records),
            *final(records),
            *u,
            transport,
            rssi_dbm,
            now_ms,
            now,
            out,
        ),
{
    let ghost s0: MappingState = (*indexes, *table, *neighbour, *records);
    let ghost q0 = queue@;
    let user_plans = apply_mappings(indexes, table, neighbour, records, Space::User, &u.user_mappings, now);
    let ghost s1: MappingState = (*indexes, *table, *neighbour, *records);
    let ghost a = choose|st: Seq<MappingState>|
        mappings_run(st, Space::User, u.user_mappings@, now, user_plans@) && st[0] == s0 && st.last() == s1;
    let node_plans = apply_mappings(indexes, table, neighbour, records, Space::Node, &u.node_mappings, now);
    let ghost s2: MappingState = (*indexes, *table, *neighbour, *records);
    let ghost b = choose|st: Seq<MappingState>|
        mappings_run(st, Space::Node, u.node_mappings@, now, node_plans@) && st[0] == s1 && st.last() == s2;
    let ghost e0: EntryState = (*indexes, *table, queue@);
    let user_steps = apply_entries(
        indexes,
        table,
        queue,
        records,
        neighbour,
        Space::User,
        &u.user_entries,
        transport,
        rssi_dbm,
        now_ms,
    );
    let ghost e1: EntryState = (*indexes, *table, queue@);
    let node_steps = apply_entries(
        indexes,
        table,
        queue,
        records,
        neighbour,
        Space::Node,
        &u.node_entries,
        transport,
        rssi_dbm,
        now_ms,
    );
    let out = UpdateOutcome { user_plans, node_plans, user_steps, node_steps };
    proof {
        let c = choose|st: Seq<EntryState>|
            entries_run(st, *records, *neighbour, Space::User, u.user_entries@, transport, rssi_dbm, now_ms, out.user_steps@)
                && st[0] == e0 && st.last() == e1;
        let d = choose|st: Seq<EntryState>|
            entries_run(st, *records, *neighbour, Space::Node, u.node_entries@, transport, rssi_dbm, now_ms, out.node_steps@)
                && st[0] == e1 && st.last() == (*indexes, *table, queue@);
        assert(mappings_run(a, Space::User, u.user_mappings@, now, out.user_plans@));
        assert(mappings_run(b, Space::Node, u.node_mappings@, now, out.node_plans@));
        assert(entries_run(c, *records, *neighbour, Space::User, u.user_entries@, transport, rssi_dbm, now_ms, out.user_steps@));
        assert(entries_run(d, *records, *neighbour, Space::Node, u.node_entries@, transport, rssi_dbm, now_ms, out.node_steps@));
    }
    out
}


/// The indexes a run of mappings announces, in order.
pub open spec fn announced(ms: Seq<Mapping>) -> Seq<u16> {
    Seq::new(ms.len(), |i: int| ms[i].abs_idx)
}

/// The indexes the mappings `ms` announce.
fn announced_idxs(ms: &Vec<Mapping>) -> (r: Vec<u16>)
    ensures
        r@ == announced(ms@),
{
    let mut out: Vec<u16> = Vec::new();
    let n = ms.len();
    let mut i = 0usize;
    while i < n
        invariant
            n == ms@.len(),
            i <= n,
            out@ == announced(ms@).take(i as int),
        decreases n - i,
    {
        out.push(ms[i].abs_idx);
        i += 1;
        proof {
            assert(out@ =~= announced(ms@).take(i as int));
        }
    }
    proof {
        assert(announced(ms@).take(n as int) =~= announced(ms@));
    }
    out
}

/// What an INDEX_DUMP chunk does to the neighbour's stale marks: a first
/// chunk marks every bound index stale; each chunk clears the indexes it
/// announces; nothing else changes.
pub open spec fn dump_tracked(n0: NeighbourInfo, n1: NeighbourInfo, d: IndexDump) -> bool {
    &&& n1.users == n0.users
    &&& n1.nodes == n0.nodes
    &&& n1.node_id == n0.node_id
    &&& n1.transports == n0.transports
    &&& n1.dump_stale.users@ == stale_after_chunk(
        n0.dump_stale.users@,
        d.chunk_index == 0,
        n0.users.spec_bindings().dom(),
        announced(d.user_mappings@).to_set(),
    )
    &&& n1.dump_stale.nodes@ == stale_after_chunk(
        n0.dump_stale.nodes@,
        d.chunk_index == 0,
        n0.nodes.spec_bindings().dom(),
        announced(d.node_mappings@).to_set(),
    )
}

/// What the last chunk of a dump does: the mirror bindings left stale
/// are dropped, and the stale marks cleared.
pub open spec fn mirror_pruned(n0: NeighbourInfo, n1: NeighbourInfo) -> bool {
    &&& n1.users.spec_bindings() == n0.users.spec_bindings().remove_keys(n0.dump_stale.users@)
    &&& n1.nodes.spec_bindings() == n0.nodes.spec_bindings().remove_keys(n0.dump_stale.nodes@)
    &&& n1.dump_stale.users@ == Set::<u16>::empty()
    &&& n1.dump_stale.nodes@ == Set::<u16>::empty()
    &&& n1.node_id == n0.node_id
    &&& n1.transports == n0.transports
}

/// What receiving the INDEX_DUMP chunk `d` from `n0` does: the chunk is
/// tracked against the mirror (see `dump_tracked`); its user and then its
/// node mappings are applied, one after the other; after the last chunk
/// the mirror bindings the dump did not announce are dropped.
pub open spec fn index_dump_outcome(
    i0: Indexes,
    i1: Indexes,
    t0: RoutingTable<RoutingEntry>,
    t1: RoutingTable<RoutingEntry>,
    n0: NeighbourInfo,
    n1: NeighbourInfo,
    r0: Records,
    r1: Records,
    d: IndexDump,
    now: Instant,
    user_plans: Seq<MappingPlan>,
    node_plans: Seq<MappingPlan>,
) -> bool {
    exists|marked: NeighbourInfo, a: Seq<MappingState>, b: Seq<MappingState>|
        #![trigger dump_tracked(n0, marked, d), mappings_run(a, Space::User, d.user_mappings@, now, user_plans), mappings_run(b, Space::Node, d.node_mappings@, now, node_plans)]
        {
            &&& dump_tracked(n0, marked, d)
            &&& mappings_run(a, Space::User, d.user_mappings@, now, user_plans)
            &&& a[0] == (i0, t0, marked, r0)
            &&& mappings_run(b, Space::Node, d.node_mappings@, now, node_plans)
            &&& b[0] == a.last()
            &&& i1 == b.last().0
            &&& t1 == b.last().1
            &&& r1 == b.last().3
            &&& d.chunk_index + 1 >= d.chunk_count ==> mirror_pruned(b.last().2, n1)
            &&& d.chunk_index + 1 < d.chunk_count ==> n1 == b.last().2
        }
}

/// Receives an INDEX_DUMP chunk from `neighbour`: see
/// `index_dump_outcome`. Returns the plans of its user and node mappings.
pub fn apply_index_dump(
    indexes: &mut Indexes,
    table: &mut RoutingTable<RoutingEntry>,
    neighbour: &mut NeighbourInfo,
    records: &mut Records,
    d: &IndexDump,
    now: Instant,
) -> (r: (Vec<MappingPlan>, Vec<MappingPlan>))
    requires
        old(indexes).wf(),
        old(table).wf(),
        old(neighbour).wf(),
        old(records).wf(),
    ensures
        final(indexes).wf(),
        final(table).wf(),
        final(neighbour).wf(),
        final(records).wf(),
        index_dump_outcome(
            *old(indexes),
            *final(indexes),
            *old(table),
            *final(table),
            *old(neighbour),
            *final(neighbour),
            *old(records),
            *final(records),
            *d,
            now,
            r.0@,
            r.1@,
        ),
{
    let user_idxs = announced_idxs(&d.user_mappings);
    let node_idxs = announced_idxs(&d.node_mappings);
    let is_last = neighbour.track_dump(d.chunk_index, d.chunk_count, &user_idxs, &node_idxs);
    let ghost marked = *neighbour;
    let ghost s1: MappingState = (*indexes, *table, *neighbour, *records);
    let user_plans = apply_mappings(indexes, table, neighbour, records, Space::User, &d.user_mappings, now);
    let ghost s2: MappingState = (*indexes, *table, *neighbour, *records);
    let ghost a = choose|st: Seq<MappingState>|
        mappings_run(st, Space::User, d.user_mappings@, now, user_plans@) && st[0] == s1 && st.last() == s2;
    let node_plans = apply_mappings(indexes, table, neighbour, records, Space::Node, &d.node_mappings, now);
    let ghost s3: MappingState = (*indexes, *table, *neighbour, *records);
    let ghost b = choose|st: Seq<MappingState>|
        mappings_run(st, Space::Node, d.node_mappings@, now, node_plans@) && st[0] == s2 && st.last() == s3;
    if is_last {
        neighbour.prune_stale_mirror();
    }
    proof {
        assert(s1 == (*old(indexes), *old(table), marked, *old(records)));
        assert(b.last() == s3);
        assert(d.chunk_index + 1 >= d.chunk_count ==> mirror_pruned(s3.2, *neighbour));
        assert(d.chunk_index + 1 < d.chunk_count ==> *neighbour == s3.2);
        assert(dump_tracked(*old(neighbour), marked, *d));
    }
    let r = (user_plans, node_plans);
    proof {
        assert(mappings_run(a, Space::User, d.user_mappings@, now, r.0@));
        assert(mappings_run(b, Space::Node, d.node_mappings@, now, r.1@));
    }
    r
}

/// What became of a received NODE_MANIFEST chunk.
#[derive(Debug, Clone, Copy)]
pub enum ManifestStep {
    /// the origin's key is unknown: the chunk is dropped, and the origin
    /// named for a caller that fetches its profile
    FetchKey([u8; 8]),
    /// the chunk's signature does not verify
    Invalid,
    /// the chunk was kept; the manifest is not complete yet
    Pending,
    /// the chunk completed the manifest, which was committed to the
    /// origin's record
    Committed,
}

/// What committing a complete manifest does to the origin's record: the
/// version, gateway bit, entries, signature, chunks and sphere are the
/// manifest's, and the delta log starts afresh at its version.
pub open spec fn manifest_committed(
    before: NodeRecord,
    after: NodeRecord,
    version: u32,
    is_gateway: bool,
    entries: Seq<ManifestEntry>,
    signature: Option<[u8; 64]>,
    chunks: Seq<NodeManifest>,
    sphere: Sphere,
) -> bool {
    &&& after.retained_chunks matches Some(cs) && cs@ == chunks
    &&& after.manifest_version == version
    &&& after.advertised_version == before.advertised_version
    &&& after.is_gateway == is_gateway
    &&& after.public_key == before.public_key
    &&& after.delegated@ == entries
    &&& after.manifest_signature == signature
    &&& after.learn_sphere == Some(sphere)
    &&& after.manifest_log.spec_log_base() == version
    &&& after.manifest_log.record_map() == Map::<u64, LogRecord>::empty()
}

/// What receiving the NODE_MANIFEST chunk `msg` does to the records and
/// to the partial manifests (see `apply_node_manifest`), with the step it
/// returns.
pub open spec fn node_manifest_outcome(
    r0: Records,
    r1: Records,
    a0: Map<u64, PartialV>,
    a1: Map<u64, PartialV>,
    msg: NodeManifest,
    transport: ConnectionModule,
    r: ManifestStep,
) -> bool {
    let k = spec_id_key(msg.origin_node_id);
    let known = r0.nodes@.dom().contains(k) && r0.nodes@[k].1.public_key is Some;
    let rec = r0.nodes@[k].1;
    let key = rec.public_key->Some_0.spec_encoded();
    let (parts, done) = spec_assemble(a0, k, msg);
    &&& r1.users@ == r0.users@
    &&& !known ==> r == ManifestStep::FetchKey(msg.origin_node_id) && r1.nodes@ == r0.nodes@ && a1 == a0
    &&& known && !chunk_signed_by(key, msg) ==> r == ManifestStep::Invalid && r1.nodes@ == r0.nodes@ && a1 == a0
    &&& known && chunk_signed_by(key, msg) ==> a1 == parts
    &&& known && chunk_signed_by(key, msg) && done is None ==> r == ManifestStep::Pending
        && r1.nodes@ == r0.nodes@
    &&& known && chunk_signed_by(key, msg) && done is Some ==> {
        let c = done->Some_0;
        &&& r == ManifestStep::Committed
        &&& r1.nodes@.dom() == r0.nodes@.dom()
        &&& r1.nodes@.remove(k) == r0.nodes@.remove(k)
        &&& r1.nodes@[k].0 == r0.nodes@[k].0
        &&& manifest_committed(
            rec,
            r1.nodes@[k].1,
            c.manifest_version,
            c.flags & 1u8 != 0,
            sort_by_user(c.entries),
            if c.chunks.len() == 1 {
                Some(c.chunks[0].manifest_signature)
            } else {
                None
            },
            c.chunks,
            Sphere::spec_of(transport),
        )
    }
}

/// Receives a NODE_MANIFEST chunk over `transport`: checked under the
/// origin's key from its record and added to the assembler (see
/// `intake_node_manifest`); a manifest it completes is committed to the
/// origin's record (see `manifest_committed`), its entries kept
/// ascending by user.
pub fn apply_node_manifest(
    records: &mut Records,
    assembler: &mut ChunkAssembler,
    msg: NodeManifest,
    transport: ConnectionModule,
) -> (r: ManifestStep)
    requires
        old(records).wf(),
        old(assembler).wf(),
    ensures
        final(records).wf(),
        final(assembler).wf(),
        node_manifest_outcome(*old(records), *final(records), old(assembler)@, final(assembler)@, msg, transport, r),
{
    let ghost before = *records;
    let ghost k = spec_id_key(msg.origin_node_id);
    let origin = msg.origin_node_id;
    let taken = records.nodes.remove(&origin);
    let mut node = match taken {
        None => {
            proof {
                assert(records.nodes@ =~= before.nodes@);
            }
            return ManifestStep::FetchKey(origin);
        },
        Some(n) => n,
    };
    proof {
        assert(before.nodes@[k].1.wf());
        before.nodes.lemma_keys_match();
        lemma_id_key_injective(before.nodes@[k].0, origin);
        assert(before.nodes@.remove(k).insert(k, (origin, node)) =~= before.nodes@);
    }
    let step = match &node.public_key {
        None => ManifestStep::FetchKey(origin),
        Some(mk) => {
            let ghost a0 = assembler@;
            match intake_node_manifest(assembler, Some(mk), msg, transport) {
                ManifestIntake::FetchKey(_) => ManifestStep::FetchKey(origin),
                ManifestIntake::Invalid => ManifestStep::Invalid,
                ManifestIntake::Pending => ManifestStep::Pending,
                ManifestIntake::Stored(st) => {
                    node.manifest_version = st.manifest_version;
                    node.is_gateway = st.is_gateway;
                    node.delegated = sort_entries(st.entries);
                    node.manifest_signature = st.manifest_signature;
                    node.retained_chunks = Some(st.retained_chunks);
                    node.learn_sphere = Some(st.learn_sphere);
                    node.manifest_log.reset_to(st.manifest_version);
                    ManifestStep::Committed
                },
            }
        },
    };
    records.nodes.insert(origin, node);
    proof {
        assert(records.nodes@.remove(k) =~= before.nodes@.remove(k));
        assert(records.nodes@.dom() =~= before.nodes@.dom());
    }
    step
}


/// The state a run of received frames passes through: indexes, table,
/// relay queue, the sending neighbour, records, and the partial
/// manifests being assembled.
pub type FrameState = (
    Indexes,
    RoutingTable<RoutingEntry>,
    Seq<(Space, u16)>,
    NeighbourInfo,
    Records,
    Map<u64, PartialV>,
);

/// What was done with one received frame.
pub enum ReceiveAction {
    /// the body did not decode
    Undecodable(CodecError),
    /// a ROUTING_UPDATE, and what became of it
    Update(RoutingUpdate, UpdateOutcome),
    /// an INDEX_DUMP chunk, with the plans of its user and node mappings
    Dump(IndexDump, Vec<MappingPlan>, Vec<MappingPlan>),
    /// a NODE_MANIFEST chunk, and what became of it
    Manifest(ManifestStep),
    /// a MANIFEST_DELTA, and what became of it
    Delta(ManifestDelta, DeltaStep),
    /// a MANIFEST_REQUEST, which `answer_manifest_request` answers from
    /// the manifests this node holds
    Request(ManifestRequest),
}

/// How the frame `f` of a received buffer is handled: its body is
/// decoded by the type its header announced, and the message goes to the
/// handler of that type; a body that does not decode changes nothing.
pub open spec fn frame_step(
    s0: FrameState,
    s1: FrameState,
    f: (RoutingMessage, Seq<u8>),
    transport: ConnectionModule,
    rssi_dbm: Option<i8>,
    now_ms: u64,
    now: Instant,
    tombstone_ttl_ms: u64,
    log_cap: usize,
    a: ReceiveAction,
) -> bool {
    match f.0 {
        RoutingMessage::RoutingUpdate => match RoutingUpdateV::spec_decode(f.1) {
            Err(e) => a == ReceiveAction::Undecodable(e) && s1 == s0,
            Ok(v) => a matches ReceiveAction::Update(u, out) && u@ == v && s1.5 == s0.5 && update_outcome(
                s0.0,
                s1.0,
                s0.1,
                s1.1,
                s0.2,
                s1.2,
                s0.3,
                s1.3,
                s0.4,
                s1.4,
                u,
                transport,
                rssi_dbm,
                now_ms,
                now,
                out,
            ),
        },
        RoutingMessage::IndexDump => match IndexDumpV::spec_decode(f.1) {
            Err(e) => a == ReceiveAction::Undecodable(e) && s1 == s0,
            Ok(v) => a matches ReceiveAction::Dump(d, up, np) && d@ == v && s1.2 == s0.2 && s1.5 == s0.5
                && index_dump_outcome(s0.0, s1.0, s0.1, s1.1, s0.3, s1.3, s0.4, s1.4, d, now, up@, np@),
        },
        RoutingMessage::NodeManifest => match NodeManifestV::spec_decode(f.1) {
            Err(e) => a == ReceiveAction::Undecodable(e) && s1 == s0,
            Ok(v) => a matches ReceiveAction::Manifest(step) && s1.0 == s0.0 && s1.1 == s0.1 && s1.2 == s0.2
                && s1.3 == s0.3 && exists|m: NodeManifest|
                #![trigger m@]
                m@ == v && node_manifest_outcome(s0.4, s1.4, s0.5, s1.5, m, transport, step),
        },
        RoutingMessage::ManifestDelta => match ManifestDeltaV::spec_decode(f.1) {
            Err(e) => a == ReceiveAction::Undecodable(e) && s1 == s0,
            Ok(v) => a matches ReceiveAction::Delta(m, step) && m@ == v && s1.0 == s0.0 && s1.1 == s0.1 && s1.2
                == s0.2 && s1.3 == s0.3 && s1.5 == s0.5 && delta_outcome(
                s0.4,
                s1.4,
                m,
                transport,
                now_ms,
                tombstone_ttl_ms,
                log_cap,
                step,
            ),
        },
        RoutingMessage::ManifestRequest => match ManifestRequest::spec_decode(f.1) {
            Err(e) => a == ReceiveAction::Undecodable(e) && s1 == s0,
            Ok(items) => a matches ReceiveAction::Request(m) && request_items_view(m.items@) == items && s1 == s0,
        },
    }
}

/// Handles a buffer received from `neighbour` over `transport`: its
/// frames (see `split_frames`) are handled one after the other, each as
/// `frame_step` says; the action of each is returned, in order.
pub fn receive_frames(
    indexes: &mut Indexes,
    table: &mut RoutingTable<RoutingEntry>,
    queue: &mut Vec<(Space, u16)>,
    neighbour: &mut NeighbourInfo,
    records: &mut Records,
    assembler: &mut ChunkAssembler,
    transport: ConnectionModule,
    rssi_dbm: Option<i8>,
    buf: &[u8],
    now_ms: u64,
    now: Instant,
    tombstone_ttl_ms: u64,
    log_cap: usize,
) -> (r: Vec<ReceiveAction>)
    requires
        old(indexes).wf(),
        old(table).wf(),
        old(neighbour).wf(),
        old(records).wf(),
        old(assembler).wf(),
    ensures
        final(indexes).wf(),
        final(table).wf(),
        final(neighbour).wf(),
        final(records).wf(),
        final(assembler).wf(),
        exists|st: Seq<FrameState>|
            #![trigger st.len()]
            {
                let fs = spec_frames(buf@);
                &&& st.len() == fs.len() + 1
                &&& r@.len() == fs.len()
                &&& st[0] == (*old(indexes), *old(table), old(queue)@, *old(neighbour), *old(records), old(assembler)@)
                &&& st.last() == (
                    *final(indexes),
                    *final(table),
                    final(queue)@,
                    *final(neighbour),
                    *final(records),
                    final(assembler)@,
                )
                &&& forall|i: int|
                    #![trigger fs[i]]
                    0 <= i < fs.len() ==> frame_step(
                        st[i],
                        st[i + 1],
                        fs[i],
                        transport,
                        rssi_dbm,
                        now_ms,
                        now,
                        tombstone_ttl_ms,
                        log_cap,
                        r@[i],
                    )
            },
{
    let frames = split_frames(buf);
    let ghost fs = spec_frames(buf@);
    let mut out: Vec<ReceiveAction> = Vec::new();
    let ghost mut st: Seq<FrameState> = seq![(*indexes, *table, queue@, *neighbour, *records, assembler@)];
    let n = frames.len();
    let mut i = 0usize;
    while i < n
        invariant
            indexes.wf(),
            table.wf(),
            neighbour.wf(),
            records.wf(),
            assembler.wf(),
            n == frames@.len(),
            fs == spec_frames(buf@),
            crate::codec::frame::frames_view(frames@) == fs,
            i <= n,
            st.len() == i + 1,
            out@.len() == i,
            st[0] == (*old(indexes), *old(table), old(queue)@, *old(neighbour), *old(records), old(assembler)@),
            st.last() == (*indexes, *table, queue@, *neighbour, *records, assembler@),
            forall|j: int|
                #![trigger fs[j]]
                0 <= j < i ==> frame_step(
                    st[j],
                    st[j + 1],
                    fs[j],
                    transport,
                    rssi_dbm,
                    now_ms,
                    now,
                    tombstone_ttl_ms,
                    log_cap,
                    out@[j],
                ),
        decreases n - i,
    {
        let ghost s0: FrameState = (*indexes, *table, queue@, *neighbour, *records, assembler@);
        let f = &frames[i];
        proof {
            assert(fs[i as int] == (f.message_type, f.payload@));
        }
        let action = match decode_frame(f) {
            Err(e) => ReceiveAction::Undecodable(e),
            Ok(Message::RoutingUpdate(u)) => {
                let o = apply_routing_update(indexes, table, queue, records, neighbour, &u, transport, rssi_dbm, now_ms, now);
                ReceiveAction::Update(u, o)
            },
            Ok(Message::IndexDump(d)) => {
                let (up, np) = apply_index_dump(indexes, table, neighbour, records, &d, now);
                ReceiveAction::Dump(d, up, np)
            },
            Ok(Message::NodeManifest(m)) => {
                let ghost mv = m;
                let step = apply_node_manifest(records, assembler, m, transport);
                proof {
                    assert(node_manifest_outcome(s0.4, *records, s0.5, assembler@, mv, transport, step));
                }
                ReceiveAction::Manifest(step)
            },
            Ok(Message::ManifestDelta(m)) => {
                let step = handle_manifest_delta(records, &m, transport, now_ms, tombstone_ttl_ms, log_cap);
                ReceiveAction::Delta(m, step)
            },
            Ok(Message::ManifestRequest(m)) => ReceiveAction::Request(m),
        };
        out.push(action);
        proof {
            let st0 = st;
            st = st.push((*indexes, *table, queue@, *neighbour, *records, assembler@));
            assert(frame_step(st[i as int], st[i + 1], fs[i as int], transport, rssi_dbm, now_ms, now, tombstone_ttl_ms, log_cap, out@[i as int]));
            assert forall|j: int| #![trigger fs[j]] 0 <= j < i + 1 implies frame_step(
                st[j],
                st[j + 1],
                fs[j],
                transport,
                rssi_dbm,
                now_ms,
                now,
                tombstone_ttl_ms,
                log_cap,
                out@[j],
            ) by {
                if j < i {
                    assert(st[j] == st0[j]);
                    assert(st[j + 1] == st0[j + 1]);
                }
            }
        }
        i += 1;
    }
    out
}


// ---------- answering a manifest request ----------

/// What an item of a MANIFEST_REQUEST is answered with: the origin's full
/// manifest, or a delta from the requester's version.
#[derive(Debug, Clone, Copy)]
pub enum ServeAnswer {
    Full([u8; 8]),
    Delta([u8; 8], u32),
}

/// What this node can serve of `origin`: its own manifest's committed
/// version and log base where the origin is this node; else what the
/// origin's record holds, unless that is a stub with no version and no
/// entries or there is no record.
pub open spec fn serve_state_for(
    records: Records,
    own_committed: u32,
    own_log_base: u32,
    own_id: [u8; 8],
    origin: [u8; 8],
) -> Option<OriginServeState> {
    let k = spec_id_key(origin);
    if origin == own_id {
        Some(OriginServeState { committed: own_committed, log_base: own_log_base, learn_sphere: None })
    } else if records.nodes@.dom().contains(k) {
        let n = records.nodes@[k].1;
        if n.manifest_version == 0 && n.delegated@.len() == 0 {
            None
        } else {
            Some(
                OriginServeState {
                    committed: n.manifest_version,
                    log_base: n.manifest_log.spec_log_base(),
                    learn_sphere: n.learn_sphere,
                },
            )
        }
    } else {
        None
    }
}

/// How one item is answered, from the serve-rate window `w`: nothing
/// where nothing is held of its origin, or the decision is to seal or to
/// send nothing; else the window drops the samples that left it and the
/// answer is given, and recorded, while fewer than `limit` remain.
pub open spec fn request_step(
    records: Records,
    own_committed: u32,
    own_log_base: u32,
    own_id: [u8; 8],
    sphere: Sphere,
    now_ms: u64,
    limit: u32,
    w: Seq<u64>,
    item: ManifestRequestItem,
) -> (Seq<u64>, Option<ServeAnswer>) {
    let kept = w.skip(stale_prefix(w, now_ms) as int);
    match serve_state_for(records, own_committed, own_log_base, own_id, item.origin_node_id) {
        None => (w, None),
        Some(o) => match spec_decide_serve(item.spec_have_none(), item.have_version, o, sphere) {
            ServeDecision::Full => if kept.len() < limit {
                (kept.push(now_ms), Some(ServeAnswer::Full(item.origin_node_id)))
            } else {
                (kept, None)
            },
            ServeDecision::Delta { from_version } => if kept.len() < limit {
                (kept.push(now_ms), Some(ServeAnswer::Delta(item.origin_node_id, from_version)))
            } else {
                (kept, None)
            },
            _ => (w, None),
        },
    }
}

/// The items answered one after the other: the window after them and the
/// answers given, in item order.
pub open spec fn request_answers(
    records: Records,
    own_committed: u32,
    own_log_base: u32,
    own_id: [u8; 8],
    sphere: Sphere,
    now_ms: u64,
    limit: u32,
    w: Seq<u64>,
    items: Seq<ManifestRequestItem>,
) -> (Seq<u64>, Seq<ServeAnswer>)
    decreases items.len(),
{
    if items.len() == 0 {
        (w, seq![])
    } else {
        let (w1, a) = request_answers(
            records,
            own_committed,
            own_log_base,
            own_id,
            sphere,
            now_ms,
            limit,
            w,
            items.drop_last(),
        );
        let (w2, o) = request_step(records, own_committed, own_log_base, own_id, sphere, now_ms, limit, w1, items.last());
        match o {
            Some(x) => (w2, a.push(x)),
            None => (w2, a),
        }
    }
}

/// Answers a neighbour's MANIFEST_REQUEST received over `transport`:
/// each item, in order, by what is held of its origin (this node's own
/// manifest where the origin is `own_id`), the serve decision for the
/// requester's sphere, and the serve-rate window `window`, which each full
/// or delta answer passes through.
pub fn answer_manifest_request(
    records: &Records,
    own: &OriginManifest,
    own_id: [u8; 8],
    window: &mut VecDeque<u64>,
    limit: u32,
    request: &ManifestRequest,
    transport: ConnectionModule,
    now_ms: u64,
) -> (r: Vec<ServeAnswer>)
    requires
        records.wf(),
    ensures
        (final(window)@, r@) == request_answers(
            *records,
            own.spec_manifest().spec_manifest_version(),
            own.spec_log().spec_log_base(),
            own_id,
            Sphere::spec_of(transport),
            now_ms,
            limit,
            old(window)@,
            request.items@,
        ),
{
    let sphere = Sphere::of(transport);
    let own_committed = own.manifest().manifest_version();
    let own_log_base = own.log().log_base();
    let mut out: Vec<ServeAnswer> = Vec::new();
    let n = request.items.len();
    let mut i = 0usize;
    while i < n
        invariant
            n == request.items@.len(),
            i <= n,
            records.wf(),
            own_committed == own.spec_manifest().spec_manifest_version(),
            own_log_base == own.spec_log().spec_log_base(),
            sphere == Sphere::spec_of(transport),
            (window@, out@) == request_answers(
                *records,
                own_committed,
                own_log_base,
                own_id,
                sphere,
                now_ms,
                limit,
                old(window)@,
                request.items@.take(i as int),
            ),
        decreases n - i,
    {
        let item = &request.items[i];
        proof {
            let t = request.items@.take(i as int + 1);
            assert(t.drop_last() =~= request.items@.take(i as int));
            assert(t.last() == *item);
        }
        let state = if same_id(&item.origin_node_id, &own_id) {
            Some(OriginServeState { committed: own_committed, log_base: own_log_base, learn_sphere: None })
        } else {
            match records.nodes.get(&item.origin_node_id) {
                None => None,
                Some(node) => node_serve_state(
                    node.manifest_version,
                    node.delegated.len(),
                    node.manifest_log.log_base(),
                    node.learn_sphere,
                ),
            }
        };
        match state {
            None => {},
            Some(o) => match decide_serve(item, &o, sphere) {
                ServeDecision::Full => {
                    if allow_in_window(window, now_ms, limit) {
                        out.push(ServeAnswer::Full(item.origin_node_id));
                    }
                },
                ServeDecision::Delta { from_version } => {
                    if allow_in_window(window, now_ms, limit) {
                        out.push(ServeAnswer::Delta(item.origin_node_id, from_version));
                    }
                },
                ServeDecision::Nothing => {},
                ServeDecision::Sealed => {},
            },
        }
        i += 1;
    }
    proof {
        assert(request.items@.take(n as int) =~= request.items@);
    }
    out
}


// ---------- what an answer sends ----------

/// Two chunks alike in every field.
pub open spec fn same_chunk(a: NodeManifest, b: NodeManifest) -> bool {
    &&& a.origin_node_id == b.origin_node_id
    &&& a.manifest_version == b.manifest_version
    &&& a.chunk_index == b.chunk_index
    &&& a.chunk_count == b.chunk_count
    &&& a.flags == b.flags
    &&& a.manifest_signature == b.manifest_signature
    &&& a.entries@ == b.entries@
}

/// A copy of a chunk.
fn copy_chunk(c: &NodeManifest) -> (r: NodeManifest)
    ensures
        same_chunk(r, *c),
{
    NodeManifest {
        origin_node_id: c.origin_node_id,
        manifest_version: c.manifest_version,
        chunk_index: c.chunk_index,
        chunk_count: c.chunk_count,
        flags: c.flags,
        manifest_signature: c.manifest_signature,
        entries: copy_entries(&c.entries),
    }
}

/// A copy of a run of chunks.
fn copy_chunks(cs: &Vec<NodeManifest>) -> (r: Vec<NodeManifest>)
    ensures
        r@.len() == cs@.len(),
        forall|i: int| 0 <= i < cs@.len() ==> same_chunk(#[trigger] r@[i], cs@[i]),
{
    let mut out: Vec<NodeManifest> = Vec::new();
    let n = cs.len();
    let mut i = 0usize;
    while i < n
        invariant
            n == cs@.len(),
            i <= n,
            out@.len() == i,
            forall|j: int| 0 <= j < i ==> same_chunk(#[trigger] out@[j], cs@[j]),
        decreases n - i,
    {
        out.push(copy_chunk(&cs[i]));
        i += 1;
    }
    out
}

/// The chunks of a full answer from what is held of an origin: the
/// retained chunks as they are; else, under a whole-state signature, the
/// one chunk of all entries; else nothing.
pub open spec fn full_chunks(
    origin: [u8; 8],
    version: u32,
    is_gateway: bool,
    entries: Seq<ManifestEntry>,
    signature: Option<[u8; 64]>,
    retained: Option<Seq<NodeManifest>>,
    r: Option<Vec<NodeManifest>>,
) -> bool {
    match retained {
        Some(cs) => r matches Some(v) && v@.len() == cs.len() && forall|i: int|
            0 <= i < cs.len() ==> same_chunk(#[trigger] v@[i], cs[i]),
        None => match signature {
            None => r is None,
            Some(sig) => r matches Some(v) && v@.len() == 1 && v@[0].origin_node_id == origin
                && v@[0].manifest_version == version && v@[0].chunk_index == 0 && v@[0].chunk_count == 1
                && v@[0].flags == (if is_gateway {
                1u8
            } else {
                0u8
            }) && v@[0].manifest_signature == sig && v@[0].entries@ == entries,
        },
    }
}

/// Retained chunks as a sequence.
pub open spec fn retained_view(r: Option<Vec<NodeManifest>>) -> Option<Seq<NodeManifest>> {
    match r {
        Some(v) => Some(v@),
        None => None,
    }
}

/// The full answer for `origin`: from this node's own manifest where the
/// origin is `own_id`, else from the origin's record; nothing without a
/// record.
pub open spec fn full_answer_outcome(
    records: Records,
    own: OriginManifest,
    own_id: [u8; 8],
    origin: [u8; 8],
    r: Option<Vec<NodeManifest>>,
) -> bool {
    let k = spec_id_key(origin);
    let m = own.spec_manifest();
    if origin == own_id {
        full_chunks(
            origin,
            m.spec_manifest_version(),
            m.spec_is_gateway(),
            m.spec_entries(),
            m.spec_manifest_signature(),
            retained_view(m.spec_retained_chunks()),
            r,
        )
    } else if records.nodes@.dom().contains(k) {
        let n = records.nodes@[k].1;
        full_chunks(
            origin,
            n.manifest_version,
            n.is_gateway,
            n.delegated@,
            n.manifest_signature,
            retained_view(n.retained_chunks),
            r,
        )
    } else {
        r is None
    }
}

/// The chunks of the full manifest of `origin` to send.
pub fn full_answer(records: &Records, own: &OriginManifest, own_id: [u8; 8], origin: [u8; 8]) -> (r: Option<
    Vec<NodeManifest>,
>)
    requires
        records.wf(),
    ensures
        full_answer_outcome(*records, *own, own_id, origin, r),
{
    if same_id(&origin, &own_id) {
        let m = own.manifest();
        match m.retained_chunks() {
            Some(cs) => Some(copy_chunks(cs)),
            None => {
                let entries = copy_entries_of(m.entries());
                full_manifest_chunks(origin, m.manifest_version(), m.is_gateway(), entries, m.manifest_signature(), None)
            },
        }
    } else {
        match records.nodes.get(&origin) {
            None => None,
            Some(n) => match &n.retained_chunks {
                Some(cs) => Some(copy_chunks(cs)),
                None => full_manifest_chunks(
                    origin,
                    n.manifest_version,
                    n.is_gateway,
                    copy_entries(&n.delegated),
                    n.manifest_signature,
                    None,
                ),
            },
        }
    }
}

/// A copy of a slice of entries.
fn copy_entries_of(s: &[ManifestEntry]) -> (v: Vec<ManifestEntry>)
    ensures
        v@ == s@,
{
    let mut v: Vec<ManifestEntry> = Vec::new();
    let n = s.len();
    let mut i = 0usize;
    while i < n
        invariant
            n == s@.len(),
            i <= n,
            v@ == s@.take(i as int),
        decreases n - i,
    {
        v.push(s[i]);
        assert(s@.take(i as int + 1) =~= s@.take(i as int).push(s@[i as int]));
        i += 1;
    }
    assert(s@.take(n as int) =~= s@);
    v
}

/// What is sent for an answer: chunks of the full manifest, or a delta.
pub enum ServeMessage {
    Chunks(Vec<NodeManifest>),
    Delta(ManifestDelta),
}

/// `rs` lists every record of `log` fresher than `from_version`, each
/// once, ascending by version.
pub open spec fn lists_records_after(log: ManifestLog, from_version: u32, rs: Seq<LogRecord>) -> bool {
    &&& sorted_by_version(rs)
    &&& forall|i: int|
        0 <= i < rs.len() ==> {
            &&& log.record_map().dom().contains(record_key()(#[trigger] rs[i]))
            &&& log.record_map()[record_key()(rs[i])] == rs[i]
            &&& spec_is_fresher_u32(rs[i].spec_record_version(), from_version)
        }
    &&& forall|k: u64|
        #[trigger] log.record_map().dom().contains(k) && spec_is_fresher_u32(
            log.record_map()[k].spec_record_version(),
            from_version,
        ) ==> exists|i: int| 0 <= i < rs.len() && rs[i] == log.record_map()[k]
}

/// What is held of `origin` to answer a delta from: its committed
/// version, gateway bit, whole-state signature and change log.
pub open spec fn delta_source(records: Records, own: OriginManifest, own_id: [u8; 8], origin: [u8; 8]) -> Option<
    (u32, bool, Option<[u8; 64]>, ManifestLog),
> {
    let k = spec_id_key(origin);
    let m = own.spec_manifest();
    if origin == own_id {
        Some((m.spec_manifest_version(), m.spec_is_gateway(), m.spec_manifest_signature(), own.spec_log()))
    } else if records.nodes@.dom().contains(k) {
        let n = records.nodes@[k].1;
        Some((n.manifest_version, n.is_gateway, n.manifest_signature, n.manifest_log))
    } else {
        None
    }
}

/// What an answer sends: a full answer as its chunks (nothing where
/// nothing can be served in full); for a delta answer, the delta of the
/// records after the requester's version, under the whole-state
/// signature, where there is one and the delta fits in one body, else the
/// full answer.
pub open spec fn serve_outcome(
    records: Records,
    own: OriginManifest,
    own_id: [u8; 8],
    answer: ServeAnswer,
    r: Option<ServeMessage>,
) -> bool {
    let full = |origin: [u8; 8]|
        match r {
            None => full_answer_outcome(records, own, own_id, origin, None),
            Some(ServeMessage::Chunks(cs)) => full_answer_outcome(records, own, own_id, origin, Some(cs)),
            Some(ServeMessage::Delta(_)) => false,
        };
    match answer {
        ServeAnswer::Full(origin) => full(origin),
        ServeAnswer::Delta(origin, from_version) => match delta_source(records, own, own_id, origin) {
            None => full(origin),
            Some((version, is_gateway, signature, log)) => exists|rs: Seq<LogRecord>|
                #![trigger lists_records_after(log, from_version, rs)]
                lists_records_after(log, from_version, rs) && if signature is Some && delta_size_estimate(rs)
                    <= MAX_BODY {
                    r matches Some(ServeMessage::Delta(d)) && {
                        &&& d.origin_node_id == origin
                        &&& d.from_version == from_version
                        &&& d.to_version == version
                        &&& d.flags == (if is_gateway { 1u8 } else { 0u8 })
                        &&& Some(d.manifest_signature) == signature
                        &&& d.adds@ == delta_adds_of(rs)
                        &&& d.removes@ == delta_removes_of(rs)
                    }
                } else {
                    full(origin)
                },
        },
    }
}

/// What to send for `answer` (see `serve_outcome`).
pub fn serve_answer(records: &Records, own: &OriginManifest, own_id: [u8; 8], answer: ServeAnswer) -> (r: Option<
    ServeMessage,
>)
    requires
        records.wf(),
        own.wf(),
    ensures
        serve_outcome(*records, *own, own_id, answer, r),
{
    let (origin, from_version) = match answer {
        ServeAnswer::Full(origin) => {
            return match full_answer(records, own, own_id, origin) {
                Some(cs) => Some(ServeMessage::Chunks(cs)),
                None => None,
            };
        },
        ServeAnswer::Delta(origin, from_version) => (origin, from_version),
    };
    proof {
        own.lemma_wf_parts();
    }
    let held = if same_id(&origin, &own_id) {
        let m = own.manifest();
        Some((m.manifest_version(), m.is_gateway(), m.manifest_signature(), own.log().records_after(from_version)))
    } else {
        match records.nodes.get(&origin) {
            None => None,
            Some(n) => Some(
                (n.manifest_version, n.is_gateway, n.manifest_signature, n.manifest_log.records_after(from_version)),
            ),
        }
    };
    let delta = match held {
        None => None,
        Some((version, is_gateway, signature, rs)) => {
            proof {
                let (_, _, _, log) = delta_source(*records, *own, own_id, origin)->Some_0;
                assert(lists_records_after(log, from_version, rs@));
            }
            delta_answer(origin, from_version, version, is_gateway, signature, rs)
        },
    };
    match delta {
        Some(d) => Some(ServeMessage::Delta(d)),
        None => match full_answer(records, own, own_id, origin) {
            Some(cs) => Some(ServeMessage::Chunks(cs)),
            None => None,
        },
    }
}

} // verus!
