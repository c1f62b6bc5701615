//! The ticks that send this node's routing updates: the origin tick
//! that announces the node itself with its pending introductions, and the
//! relay tick that passes queued entries and introductions on to each
//! neighbour as its sphere allows, after the sweep that retires the
//! entries gone stale.

use vstd::prelude::*;

use crate::codec::frame::{encode_frame, frame_bytes};
use crate::codec::messages::{mappings_view, IndexDump, Mapping, RoutingUpdateV};
use crate::codec::RoutingMessage;
use crate::expiry::{collect_expired, stale_indexes};
use crate::indexes::{other_space, retire_run, retirement, Indexes};
use crate::index::{in_cooldown, RESERVED_INDEX};
use crate::expiry::spec_is_stale;
use crate::table::{RoutingEntry, RoutingTable, INDEX_SPACE};
use crate::keyed::spec_id_key;
use crate::propagation::{
    bootstrap_dumps, bootstrap_outcome, dump_frames_outcome, index_dump_frames,
    introduced, origin_frame, pending_introductions, relay_update_for, relayed_entries, resolved_intros, should_introduce,
    sort_by_idx, sort_mappings_by_idx, spec_origin_update, spec_should_propagate, spec_should_introduce, IntroCandidate, RelayCandidate,
};
use crate::records::Records;
use crate::seq::SeqNum;

use std::time::Instant;
use crate::sphere::{ConnectionModule, Space, Sphere};

verus! {

/// What a mark of `idx` in `space` introduces: the id the dictionary binds
/// there with its record's version (a user's profile version, a node's
/// committed manifest version); nothing where either is missing.
pub open spec fn intro_target(indexes: Indexes, records: Records, space: Space, idx: u16) -> Option<([u8; 8], u32)> {
    let fwd = indexes.spec_dict(space).spec_forward();
    if !fwd.dom().contains(idx) {
        None
    } else {
        let id = fwd[idx];
        let k = spec_id_key(id);
        match space {
            Space::User => if records.users@.dom().contains(k) {
                Some((id, records.users@[k].1.profile_version))
            } else {
                None
            },
            Space::Node => if records.nodes@.dom().contains(k) {
                Some((id, records.nodes@[k].1.manifest_version))
            } else {
                None
            },
        }
    }
}

/// The targets of the marks `pending`, in order.
pub open spec fn intro_targets(indexes: Indexes, records: Records, space: Space, pending: Seq<u16>) -> Seq<
    Option<([u8; 8], u32)>,
> {
    Seq::new(pending.len(), |i: int| intro_target(indexes, records, space, pending[i]))
}

/// The target of the mark of `idx` in `space`.
fn resolve_intro(indexes: &Indexes, records: &Records, space: Space, idx: u16) -> (r: Option<([u8; 8], u32)>)
    requires
        indexes.wf(),
        records.wf(),
    ensures
        r == intro_target(*indexes, *records, space, idx),
{
    let bound = match space {
        Space::User => indexes.user_dict.id_of(idx),
        Space::Node => indexes.node_dict.id_of(idx),
    };
    match bound {
        None => None,
        Some(id) => match space {
            Space::User => match records.users.get(&id) {
                Some(u) => Some((id, u.profile_version)),
                None => None,
            },
            Space::Node => match records.nodes.get(&id) {
                Some(n) => Some((id, n.manifest_version)),
                None => None,
            },
        },
    }
}

/// Takes the marks of `space` and turns them into introductions, sorted
/// by index; a mark whose index no longer resolves to a record is
/// dropped. The marks of `space` are cleared; nothing else changes.
pub fn take_introductions(indexes: &mut Indexes, records: &Records, space: Space) -> (r: Vec<Mapping>)
    requires
        old(indexes).wf(),
        records.wf(),
    ensures
        final(indexes).wf(),
        final(indexes).user_dict == old(indexes).user_dict,
        final(indexes).node_dict == old(indexes).node_dict,
        final(indexes).users_allocator == old(indexes).users_allocator,
        final(indexes).node_allocator == old(indexes).node_allocator,
        final(indexes).tracker.pending(space) == Set::<u16>::empty(),
        forall|other: Space| other != space ==> final(indexes).tracker.pending(other) == old(indexes).tracker.pending(other),
        exists|pending: Seq<u16>|
            #![trigger intro_targets(*old(indexes), *records, space, pending)]
            {
                &&& pending.no_duplicates()
                &&& pending.to_set() == old(indexes).tracker.pending(space)
                &&& r@ == sort_mappings_by_idx(
                    resolved_intros(pending, intro_targets(*old(indexes), *records, space, pending)),
                )
            },
{
    let ghost before = *indexes;
    let pending = indexes.tracker.take_pending(space);
    let mut targets: Vec<Option<([u8; 8], u32)>> = Vec::new();
    let n = pending.len();
    let mut i = 0usize;
    while i < n
        invariant
            indexes.wf(),
            indexes.user_dict == before.user_dict,
            indexes.node_dict == before.node_dict,
            records.wf(),
            n == pending@.len(),
            i <= n,
            targets@ == intro_targets(before, *records, space, pending@.take(i as int)),
        decreases n - i,
    {
        let t = resolve_intro(indexes, records, space, pending[i]);
        targets.push(t);
        i += 1;
        proof {
            assert(targets@ =~= intro_targets(before, *records, space, pending@.take(i as int)));
        }
    }
    proof {
        assert(pending@.take(n as int) =~= pending@);
    }
    pending_introductions(&pending, &targets)
}

/// One origin tick: the sequence number advances by one (wrapping), the
/// marks of the space this node originates in are taken as
/// introductions, and each (neighbour, transport) pair of `pairs` gets
/// the frame of the ROUTING_UPDATE originated toward that transport, in
/// the order of `pairs`; a pair whose frame would be longer than a header
/// can announce gets none.
pub fn tick_origin<P: Copy>(
    indexes: &mut Indexes,
    records: &Records,
    seq: &mut SeqNum,
    origin_space: Space,
    pairs: &Vec<(P, ConnectionModule)>,
) -> (r: Vec<(P, ConnectionModule, Vec<u8>)>)
    requires
        old(indexes).wf(),
        records.wf(),
    ensures
        final(indexes).wf(),
        final(seq).0 == (old(seq).0 + 1) % 0x10000,
        final(indexes).user_dict == old(indexes).user_dict,
        final(indexes).node_dict == old(indexes).node_dict,
        final(indexes).tracker.pending(origin_space) == Set::<u16>::empty(),
        exists|intros: Seq<Mapping>|
            #![trigger origin_frames(pairs@, final(seq).0, origin_space, intros)]
            {
                &&& exists|pending: Seq<u16>|
                    #![trigger intro_targets(*old(indexes), *records, origin_space, pending)]
                    {
                        &&& pending.no_duplicates()
                        &&& pending.to_set() == old(indexes).tracker.pending(origin_space)
                        &&& intros == sort_mappings_by_idx(
                            resolved_intros(pending, intro_targets(*old(indexes), *records, origin_space, pending)),
                        )
                    }
                &&& frames_view(r@) == origin_frames(pairs@, final(seq).0, origin_space, intros)
            },
{
    seq.0 = seq.0.wrapping_add(1);
    let new_seq = seq.0;
    let intros = take_introductions(indexes, records, origin_space);
    let mut out: Vec<(P, ConnectionModule, Vec<u8>)> = Vec::new();
    let n = pairs.len();
    let mut i = 0usize;
    while i < n
        invariant
            n == pairs@.len(),
            i <= n,
            frames_view(out@) == origin_frames(pairs@.take(i as int), new_seq, origin_space, intros@),
        decreases n - i,
    {
        let (peer, transport) = pairs[i];
        let frame = origin_frame(new_seq, origin_space, transport, &intros);
        proof {
            assert(pairs@.take(i as int + 1).drop_last() =~= pairs@.take(i as int));
        }
        match frame {
            Some(f) => out.push((peer, transport, f)),
            None => {},
        }
        i += 1;
        proof {
            assert(frames_view(out@) =~= origin_frames(pairs@.take(i as int), new_seq, origin_space, intros@));
        }
    }
    proof {
        assert(pairs@.take(n as int) =~= pairs@);
    }
    out
}

/// Each frame by its bytes.
pub open spec fn frames_view<P>(frames: Seq<(P, ConnectionModule, Vec<u8>)>) -> Seq<(P, ConnectionModule, Seq<u8>)> {
    Seq::new(frames.len(), |i: int| (frames[i].0, frames[i].1, frames[i].2@))
}

/// The frames an origin tick sends: for each pair, in order, the frame of
/// the ROUTING_UPDATE originated toward its transport, where the body
/// fits a header.
pub open spec fn origin_frames<P>(pairs: Seq<(P, ConnectionModule)>, new_seq: u16, origin_space: Space, intros: Seq<
    Mapping,
>) -> Seq<(P, ConnectionModule, Seq<u8>)>
    decreases pairs.len(),
{
    if pairs.len() == 0 {
        seq![]
    } else {
        let rest = origin_frames(pairs.drop_last(), new_seq, origin_space, intros);
        let (peer, transport) = pairs.last();
        let body = spec_origin_update(new_seq, origin_space, Sphere::spec_of(transport) == Sphere::Local, intros).spec_bytes();
        if body.len() <= 0xffff {
            rest.push((peer, transport, frame_bytes(RoutingMessage::RoutingUpdate, body)))
        } else {
            rest
        }
    }
}


/// The ROUTING_UPDATE a relay tick sends to the neighbour `neighbour_id`
/// over a transport of `sphere`, if any: see `relay_update_for`.
pub open spec fn spec_relay_update(
    user_intros: Seq<IntroCandidate>,
    node_intros: Seq<IntroCandidate>,
    candidates: Seq<RelayCandidate>,
    neighbour_id: [u8; 8],
    sphere: Sphere,
) -> Option<RoutingUpdateV> {
    let um = introduced(user_intros, Space::User, sphere);
    let nm = introduced(node_intros, Space::Node, sphere);
    let ue = sort_by_idx(relayed_entries(candidates, Space::User, neighbour_id, sphere));
    let ne = sort_by_idx(relayed_entries(candidates, Space::Node, neighbour_id, sphere));
    if um.len() == 0 && nm.len() == 0 && ue.len() == 0 && ne.len() == 0 {
        None
    } else {
        Some(
            RoutingUpdateV {
                user_mappings: mappings_view(um),
                node_mappings: mappings_view(nm),
                user_entries: ue,
                node_entries: ne,
            },
        )
    }
}

/// The frames a relay tick sends: for each (neighbour, node id,
/// transport), in order, the frame of its ROUTING_UPDATE, where it has one
/// and the body fits a header.
pub open spec fn relay_frames<P>(
    pairs: Seq<(P, [u8; 8], ConnectionModule)>,
    user_intros: Seq<IntroCandidate>,
    node_intros: Seq<IntroCandidate>,
    candidates: Seq<RelayCandidate>,
) -> Seq<(P, ConnectionModule, Seq<u8>)>
    decreases pairs.len(),
{
    if pairs.len() == 0 {
        seq![]
    } else {
        let rest = relay_frames(pairs.drop_last(), user_intros, node_intros, candidates);
        let (peer, nid, transport) = pairs.last();
        match spec_relay_update(user_intros, node_intros, candidates, nid, Sphere::spec_of(transport)) {
            Some(u) => if u.spec_bytes().len() <= 0xffff {
                rest.push((peer, transport, frame_bytes(RoutingMessage::RoutingUpdate, u.spec_bytes())))
            } else {
                rest
            },
            None => rest,
        }
    }
}

/// Whether some pair's transport lets an introduction of `c` in `space`
/// through.
pub open spec fn intro_reached<P>(c: IntroCandidate, space: Space, pairs: Seq<(P, [u8; 8], ConnectionModule)>) -> bool {
    exists|i: int|
        0 <= i < pairs.len() && spec_should_introduce(space, c.is_gateway, Sphere::spec_of(#[trigger] pairs[i].2))
}

/// The indexes of the introductions in `cs` that no pair let through.
pub open spec fn unreached_intros<P>(cs: Seq<IntroCandidate>, space: Space, pairs: Seq<(P, [u8; 8], ConnectionModule)>) -> Set<u16> {
    Set::new(|x: u16| exists|i: int| 0 <= i < cs.len() && (#[trigger] cs[i]).abs_idx == x && !intro_reached(cs[i], space, pairs))
}

/// Whether some pair's transport lets an introduction of `c` through.
fn reaches_any<P: Copy>(c: &IntroCandidate, space: Space, pairs: &Vec<(P, [u8; 8], ConnectionModule)>) -> (r: bool)
    ensures
        r == intro_reached(*c, space, pairs@),
{
    let n = pairs.len();
    let mut i = 0usize;
    while i < n
        invariant
            n == pairs@.len(),
            i <= n,
            forall|j: int| 0 <= j < i ==> !spec_should_introduce(space, c.is_gateway, Sphere::spec_of(#[trigger] pairs@[j].2)),
        decreases n - i,
    {
        let (_, _, transport) = pairs[i];
        if should_introduce(space, c.is_gateway, Sphere::of(transport)) {
            return true;
        }
        i += 1;
    }
    false
}

/// Marks again, in `space`, each introduction of `cs` that no pair let
/// through.
fn remark_unreached<P: Copy>(
    indexes: &mut Indexes,
    cs: &Vec<IntroCandidate>,
    space: Space,
    pairs: &Vec<(P, [u8; 8], ConnectionModule)>,
)
    requires
        old(indexes).wf(),
    ensures
        final(indexes).wf(),
        final(indexes).user_dict == old(indexes).user_dict,
        final(indexes).node_dict == old(indexes).node_dict,
        final(indexes).users_allocator == old(indexes).users_allocator,
        final(indexes).node_allocator == old(indexes).node_allocator,
        final(indexes).tracker.pending(space) == old(indexes).tracker.pending(space).union(unreached_intros(cs@, space, pairs@)),
        forall|other: Space| other != space ==> final(indexes).tracker.pending(other) == old(indexes).tracker.pending(other),
{
    let ghost start = *indexes;
    let n = cs.len();
    let mut i = 0usize;
    while i < n
        invariant
            indexes.wf(),
            indexes.user_dict == start.user_dict,
            indexes.node_dict == start.node_dict,
            indexes.users_allocator == start.users_allocator,
            indexes.node_allocator == start.node_allocator,
            start == *old(indexes),
            n == cs@.len(),
            i <= n,
            indexes.tracker.pending(space) == start.tracker.pending(space).union(unreached_intros(cs@.take(i as int), space, pairs@)),
            forall|other: Space| other != space ==> indexes.tracker.pending(other) == start.tracker.pending(other),
        decreases n - i,
    {
        let c = cs[i];
        let hit = reaches_any(&c, space, pairs);
        if !hit {
            indexes.tracker.mark(space, c.abs_idx);
        }
        proof {
            let prev = cs@.take(i as int);
            let next = cs@.take(i as int + 1);
            assert(next[i as int] == c);
            assert forall|j: int| 0 <= j < i implies next[j] == prev[j] by {}
            assert(unreached_intros(next, space, pairs@) =~= if hit {
                unreached_intros(prev, space, pairs@)
            } else {
                unreached_intros(prev, space, pairs@).insert(c.abs_idx)
            }) by {
                assert forall|x: u16| #[trigger] unreached_intros(next, space, pairs@).contains(x) implies (if hit {
                    unreached_intros(prev, space, pairs@)
                } else {
                    unreached_intros(prev, space, pairs@).insert(c.abs_idx)
                }).contains(x) by {
                    let j = choose|j: int| 0 <= j < next.len() && (#[trigger] next[j]).abs_idx == x && !intro_reached(next[j], space, pairs@);
                    if j < i {
                        assert(prev[j] == next[j]);
                    }
                }
                assert forall|x: u16| #[trigger] unreached_intros(prev, space, pairs@).contains(x) implies unreached_intros(next, space, pairs@).contains(x) by {
                    let j = choose|j: int| 0 <= j < prev.len() && (#[trigger] prev[j]).abs_idx == x && !intro_reached(prev[j], space, pairs@);
                    assert(next[j] == prev[j]);
                }
                if !hit {
                    assert(next[i as int].abs_idx == c.abs_idx);
                    assert(unreached_intros(next, space, pairs@).contains(c.abs_idx));
                }
            }
            assert(indexes.tracker.pending(space) =~= start.tracker.pending(space).union(unreached_intros(next, space, pairs@)));
        }
        i += 1;
    }
    proof {
        assert(cs@.take(n as int) =~= cs@);
    }
}

/// One relay tick toward every (neighbour, node id, transport) of
/// `pairs`: each gets, in order, the frame of the ROUTING_UPDATE carrying
/// the introductions its sphere lets through and the queued entries that
/// go to it, where there is any and its body fits a header. The taken
/// introductions that no pair let through are marked again.
pub fn relay_to_pairs<P: Copy>(
    indexes: &mut Indexes,
    user_intros: &Vec<IntroCandidate>,
    node_intros: &Vec<IntroCandidate>,
    candidates: &Vec<RelayCandidate>,
    pairs: &Vec<(P, [u8; 8], ConnectionModule)>,
) -> (r: Vec<(P, ConnectionModule, Vec<u8>)>)
    requires
        old(indexes).wf(),
    ensures
        final(indexes).wf(),
        final(indexes).user_dict == old(indexes).user_dict,
        final(indexes).node_dict == old(indexes).node_dict,
        final(indexes).users_allocator == old(indexes).users_allocator,
        final(indexes).node_allocator == old(indexes).node_allocator,
        final(indexes).tracker.pending(Space::User) == old(indexes).tracker.pending(Space::User).union(
            unreached_intros(user_intros@, Space::User, pairs@),
        ),
        final(indexes).tracker.pending(Space::Node) == old(indexes).tracker.pending(Space::Node).union(
            unreached_intros(node_intros@, Space::Node, pairs@),
        ),
        frames_view(r@) == relay_frames(pairs@, user_intros@, node_intros@, candidates@),
{
    let mut out: Vec<(P, ConnectionModule, Vec<u8>)> = Vec::new();
    let n = pairs.len();
    let mut i = 0usize;
    while i < n
        invariant
            n == pairs@.len(),
            i <= n,
            frames_view(out@) == relay_frames(pairs@.take(i as int), user_intros@, node_intros@, candidates@),
        decreases n - i,
    {
        let (peer, nid, transport) = pairs[i];
        proof {
            assert(pairs@.take(i as int + 1).drop_last() =~= pairs@.take(i as int));
        }
        match relay_update_for(user_intros, node_intros, candidates, nid, Sphere::of(transport)) {
            Some(u) => {
                let mut body: Vec<u8> = Vec::new();
                let _ = u.encode(&mut body);
                proof {
                    assert(body@ =~= u@.spec_bytes());
                    assert(u@ =~= spec_relay_update(user_intros@, node_intros@, candidates@, nid, Sphere::spec_of(transport))->Some_0);
                }
                match encode_frame(RoutingMessage::RoutingUpdate, body.as_slice()) {
                    Some(f) => out.push((peer, transport, f)),
                    None => {},
                }
            },
            None => {},
        }
        i += 1;
        proof {
            assert(frames_view(out@) =~= relay_frames(pairs@.take(i as int), user_intros@, node_intros@, candidates@));
        }
    }
    proof {
        assert(pairs@.take(n as int) =~= pairs@);
    }
    remark_unreached(indexes, user_intros, Space::User, pairs);
    remark_unreached(indexes, node_intros, Space::Node, pairs);
    out
}


/// The last update of each slot of `space`, by index.
pub open spec fn slot_updates(table: RoutingTable<RoutingEntry>, space: Space) -> Seq<Option<u64>> {
    table.slots(space).map_values(
        |slot: Option<RoutingEntry>|
            match slot {
                Some(e) => Some(e.last_update),
                None => None,
            },
    )
}

/// The indexes of `space` whose entries are stale at `now_ms`.
pub open spec fn expired_in(table: RoutingTable<RoutingEntry>, space: Space, expiry_ms: u64, now_ms: u64) -> Seq<u16> {
    stale_indexes(slot_updates(table, space), expiry_ms, now_ms, INDEX_SPACE as int)
}

/// The last update of each slot of `space`.
fn last_updates(table: &RoutingTable<RoutingEntry>, space: Space) -> (r: Vec<Option<u64>>)
    requires
        table.wf(),
    ensures
        r@ == slot_updates(*table, space),
        r@.len() == INDEX_SPACE,
{
    let mut out: Vec<Option<u64>> = Vec::new();
    let n = table.slot_count(space);
    proof {
        table.lemma_slot_counts();
    }
    let mut i = 0usize;
    while i < n
        invariant
            table.wf(),
            n == INDEX_SPACE,
            n == table.slots(space).len(),
            i <= n,
            out@ == slot_updates(*table, space).take(i as int),
        decreases n - i,
    {
        let u = match table.get(space, i as u16) {
            Some(e) => Some(e.last_update),
            None => None,
        };
        out.push(u);
        i += 1;
        proof {
            assert(out@ =~= slot_updates(*table, space).take(i as int));
        }
    }
    proof {
        assert(slot_updates(*table, space).take(n as int) =~= slot_updates(*table, space));
    }
    out
}

/// What the expiry sweep does: in the user space and then in the node
/// space, each index whose entry is stale at `now_ms` is retired, one
/// after the other.
pub open spec fn sweep_outcome(
    i0: Indexes,
    t0: RoutingTable<RoutingEntry>,
    i1: Indexes,
    t1: RoutingTable<RoutingEntry>,
    now_ms: u64,
    expiry_ms: u64,
    now: Instant,
) -> bool {
    exists|us: Seq<Indexes>, ut: Seq<RoutingTable<RoutingEntry>>, ns: Seq<Indexes>, nt: Seq<RoutingTable<RoutingEntry>>|
    #![trigger retire_run(us, ut, Space::User, expired_in(t0, Space::User, expiry_ms, now_ms), now), retire_run(ns, nt, Space::Node, expired_in(ut.last(), Space::Node, expiry_ms, now_ms), now)]
    {
        &&& retire_run(us, ut, Space::User, expired_in(t0, Space::User, expiry_ms, now_ms), now)
        &&& us[0] == i0
        &&& ut[0] == t0
        &&& retire_run(ns, nt, Space::Node, expired_in(ut.last(), Space::Node, expiry_ms, now_ms), now)
        &&& ns[0] == us.last()
        &&& nt[0] == ut.last()
        &&& ns.last() == i1
        &&& nt.last() == t1
    }
}

/// The sweep that opens a relay tick: in the user space and then in the
/// node space, every index whose entry has not been refreshed within
/// `expiry_ms` of `now_ms` is retired, one after the other.
pub fn sweep_expired(indexes: &mut Indexes, table: &mut RoutingTable<RoutingEntry>, now_ms: u64, expiry_ms: u64, now: Instant)
    requires
        old(indexes).wf(),
        old(table).wf(),
    ensures
        final(indexes).wf(),
        final(table).wf(),
        sweep_outcome(*old(indexes), *old(table), *final(indexes), *final(table), now_ms, expiry_ms, now),
{
    let ghost i0 = *indexes;
    let ghost t0 = *table;
    let users = last_updates(table, Space::User);
    let expired_users = collect_expired(&users, expiry_ms, now_ms);
    indexes.retire_expired(table, Space::User, &expired_users, now);
    let ghost (us, ut) = choose|us: Seq<Indexes>, ut: Seq<RoutingTable<RoutingEntry>>|
        retire_run(us, ut, Space::User, expired_users@, now) && us[0] == i0 && ut[0] == t0 && us.last() == *indexes
            && ut.last() == *table;
    let ghost t1 = *table;
    let nodes = last_updates(table, Space::Node);
    let expired_nodes = collect_expired(&nodes, expiry_ms, now_ms);
    indexes.retire_expired(table, Space::Node, &expired_nodes, now);
    let ghost (ns, nt) = choose|ns: Seq<Indexes>, nt: Seq<RoutingTable<RoutingEntry>>|
        retire_run(ns, nt, Space::Node, expired_nodes@, now) && ns[0] == us.last() && nt[0] == t1
            && ns.last() == *indexes && nt.last() == *table;
    proof {
        assert(retire_run(us, ut, Space::User, expired_in(t0, Space::User, expiry_ms, now_ms), now));
        assert(retire_run(ns, nt, Space::Node, expired_in(ut.last(), Space::Node, expiry_ms, now_ms), now));
        assert(sweep_outcome(i0, t0, *indexes, *table, now_ms, expiry_ms, now));
    }
}


/// Whether a slot holds an entry not refreshed within `expiry_ms` of
/// `now_ms`.
pub open spec fn stale_slot(slot: Option<RoutingEntry>, expiry_ms: u64, now_ms: u64) -> bool {
    slot matches Some(e) && spec_is_stale(e.last_update, expiry_ms, now_ms)
}

/// Whether a last update is one not within `expiry_ms` of `now_ms`.
pub open spec fn stale_update(slot: Option<u64>, expiry_ms: u64, now_ms: u64) -> bool {
    slot matches Some(t) && spec_is_stale(t, expiry_ms, now_ms)
}

/// The stale indexes of a run of slots are exactly those whose slot is
/// stale.
proof fn lemma_stale_indexes_members(slots: Seq<Option<u64>>, expiry_ms: u64, now_ms: u64, i: int)
    requires
        0 <= i <= slots.len(),
        i <= 65536,
    ensures
        forall|x: u16|
            #[trigger] stale_indexes(slots, expiry_ms, now_ms, i).contains(x) <==> (x < i && stale_update(slots[x as int], expiry_ms, now_ms)),
    decreases i,
{
    if i > 0 {
        lemma_stale_indexes_members(slots, expiry_ms, now_ms, i - 1);
        let rest = stale_indexes(slots, expiry_ms, now_ms, i - 1);
        let full = stale_indexes(slots, expiry_ms, now_ms, i);
        assert forall|x: u16| #[trigger] full.contains(x) <==> (x < i && stale_update(slots[x as int], expiry_ms, now_ms)) by {
            if full != rest {
                assert(full == rest.push((i - 1) as u16));
                if full.contains(x) && !rest.contains(x) {
                    let j = choose|j: int| 0 <= j < full.len() && full[j] == x;
                    assert(j == rest.len());
                }
                if x == i - 1 {
                    assert(full[rest.len() as int] == x);
                }
                if rest.contains(x) {
                    let j = choose|j: int| 0 <= j < rest.len() && rest[j] == x;
                    assert(full[j] == x);
                }
            }
        }
    }
}

/// What the first `m` retirements of a run leave: the slots of the
/// retired indexes emptied and the others as they were, the indexes
/// unbound and unmarked, each retired index other than the reserved one
/// free and resting; the other space untouched.
proof fn lemma_retire_run_prefix<T>(
    states: Seq<Indexes>,
    tables: Seq<RoutingTable<T>>,
    space: Space,
    idxs: Seq<u16>,
    now: Instant,
    m: int,
)
    requires
        retire_run(states, tables, space, idxs, now),
        states[0].wf(),
        tables[0].slots(space).len() == 65536,
        0 <= m <= idxs.len(),
    ensures
        ({
            let done = idxs.take(m);
            let s0 = tables[0].slots(space);
            let fwd0 = states[0].spec_dict(space).spec_forward();
            &&& tables[m].slots(space).len() == s0.len()
            &&& forall|j: int| 0 <= j < s0.len() ==> #[trigger] tables[m].slots(space)[j] == (if done.contains(
                j as u16,
            ) {
                None
            } else {
                s0[j]
            })
            &&& tables[m].slots(other_space(space)) == tables[0].slots(other_space(space))
            &&& forall|x: u16| #[trigger] states[m].spec_dict(space).spec_forward().dom().contains(x) <==> (
            fwd0.dom().contains(x) && !done.contains(x))
            &&& forall|x: u16| #[trigger] states[m].spec_dict(space).spec_forward().dom().contains(x)
                ==> states[m].spec_dict(space).spec_forward()[x] == fwd0[x]
            &&& forall|x: u16| #[trigger] states[m].tracker.pending(space).contains(x) <==> (
            states[0].tracker.pending(space).contains(x) && !done.contains(x))
            &&& forall|x: u16| #[trigger] done.contains(x) && x != RESERVED_INDEX ==> in_cooldown(
                states[m].spec_allocator(space).spec_cooldown(),
                x,
            ) && !states[m].spec_allocator(space).spec_occupied()[x as int]
            &&& states[m].spec_dict(other_space(space)) == states[0].spec_dict(other_space(space))
            &&& states[m].tracker.pending(other_space(space)) == states[0].tracker.pending(other_space(space))
            &&& states[m].spec_allocator(other_space(space)) == states[0].spec_allocator(other_space(space))
            &&& states[m].wf()
        }),
    decreases m,
{
    if m == 0 {
        assert(idxs.take(0) =~= Seq::<u16>::empty());
    } else {
        lemma_retire_run_prefix(states, tables, space, idxs, now, m - 1);
        let i = m - 1;
        let x0 = idxs[i];
        assert(retirement(states[i], states[i + 1], tables[i], tables[i + 1], space, x0, now));
        let done = idxs.take(m);
        let prev = idxs.take(i);
        assert(done =~= prev.push(x0));
        assert forall|x: u16| done.contains(x) <==> (prev.contains(x) || x == x0) by {
            if done.contains(x) {
                let j = choose|j: int| 0 <= j < done.len() && done[j] == x;
                if j < prev.len() {
                    assert(prev[j] == x);
                }
            }
            if prev.contains(x) {
                let j = choose|j: int| 0 <= j < prev.len() && prev[j] == x;
                assert(done[j] == x);
            }
            if x == x0 {
                assert(done[i] == x);
            }
        }
        assert(states[i].spec_allocator(space).wf());
        assert(states[m].spec_allocator(space).wf());
        let s0 = tables[0].slots(space);
        assert(i + 1 == m);
        assert(tables[i].slots(space).len() == s0.len());
        assert(tables[m].slots(space) == tables[i].slots(space).update(x0 as int, None));
        assert forall|j: int| 0 <= j < s0.len() implies #[trigger] tables[m].slots(space)[j] == (if done.contains(
            j as u16,
        ) {
            None
        } else {
            s0[j]
        }) by {
            if j != x0 as int {
                assert(tables[m].slots(space)[j] == tables[i].slots(space)[j]);
                assert((j as u16) != x0);
            }
        }
        let cd_before = states[i].spec_allocator(space).spec_cooldown();
        let cd_after = states[m].spec_allocator(space).spec_cooldown();
        assert forall|x: u16| #[trigger] done.contains(x) && x != RESERVED_INDEX implies in_cooldown(cd_after, x)
            && !states[m].spec_allocator(space).spec_occupied()[x as int] by {
            if x0 != RESERVED_INDEX {
                if x == x0 {
                    assert(cd_after[cd_before.len() as int] == (x0, now));
                } else {
                    assert(prev.contains(x));
                    let j = choose|j: int| 0 <= j < cd_before.len() && (#[trigger] cd_before[j]).0 == x;
                    assert(cd_after[j] == cd_before[j]);
                }
            } else {
                assert(prev.contains(x));
            }
        }
        assert(states[m].spec_dict(other_space(space)) == states[i].spec_dict(other_space(space)));
    }
}

/// The sweep that opens a relay tick retires exactly the stale entries:
/// afterwards a slot of either space is empty where its entry had not
/// been refreshed within `expiry_ms` of `now_ms` (an entry refreshed at
/// exactly the deadline stays) and as it was otherwise; each retired
/// index is unbound from its dictionary and unmarked, and each retired
/// index other than the reserved one is free and resting.
pub proof fn lemma_sweep_retires_exactly_the_stale(
    i0: Indexes,
    t0: RoutingTable<RoutingEntry>,
    i1: Indexes,
    t1: RoutingTable<RoutingEntry>,
    now_ms: u64,
    expiry_ms: u64,
    now: Instant,
    space: Space,
)
    requires
        i0.wf(),
        t0.wf(),
        sweep_outcome(i0, t0, i1, t1, now_ms, expiry_ms, now),
    ensures
        forall|j: int|
            0 <= j < INDEX_SPACE ==> #[trigger] t1.slots(space)[j] == (if stale_slot(
                t0.slots(space)[j],
                expiry_ms,
                now_ms,
            ) {
                None
            } else {
                t0.slots(space)[j]
            }),
        forall|x: u16|
            #[trigger] i1.spec_dict(space).spec_forward().dom().contains(x) <==> (i0.spec_dict(
                space,
            ).spec_forward().dom().contains(x) && !stale_slot(t0.slots(space)[x as int], expiry_ms, now_ms)),
        forall|x: u16|
            #[trigger] i1.spec_dict(space).spec_forward().dom().contains(x) ==> i1.spec_dict(space).spec_forward()[x]
                == i0.spec_dict(space).spec_forward()[x],
        forall|x: u16|
            #[trigger] i1.tracker.pending(space).contains(x) <==> (i0.tracker.pending(space).contains(x)
                && !stale_slot(t0.slots(space)[x as int], expiry_ms, now_ms)),
        forall|x: u16|
            #[trigger] stale_slot(t0.slots(space)[x as int], expiry_ms, now_ms) && x != RESERVED_INDEX
                ==> in_cooldown(i1.spec_allocator(space).spec_cooldown(), x)
                && !i1.spec_allocator(space).spec_occupied()[x as int],
{
    let (us, ut, ns, nt) = choose|us: Seq<Indexes>, ut: Seq<RoutingTable<RoutingEntry>>, ns: Seq<Indexes>, nt: Seq<RoutingTable<RoutingEntry>>|
        #![trigger retire_run(us, ut, Space::User, expired_in(t0, Space::User, expiry_ms, now_ms), now), retire_run(ns, nt, Space::Node, expired_in(ut.last(), Space::Node, expiry_ms, now_ms), now)]
        {
            &&& retire_run(us, ut, Space::User, expired_in(t0, Space::User, expiry_ms, now_ms), now)
            &&& us[0] == i0
            &&& ut[0] == t0
            &&& retire_run(ns, nt, Space::Node, expired_in(ut.last(), Space::Node, expiry_ms, now_ms), now)
            &&& ns[0] == us.last()
            &&& nt[0] == ut.last()
            &&& ns.last() == i1
            &&& nt.last() == t1
        };
    t0.lemma_slot_counts();
    let eu = expired_in(t0, Space::User, expiry_ms, now_ms);
    lemma_retire_run_prefix(us, ut, Space::User, eu, now, eu.len() as int);
    assert(eu.take(eu.len() as int) =~= eu);
    let mid = ut.last();
    let en = expired_in(mid, Space::Node, expiry_ms, now_ms);
    lemma_retire_run_prefix(ns, nt, Space::Node, en, now, en.len() as int);
    assert(en.take(en.len() as int) =~= en);
    assert(mid.slots(Space::Node) == t0.slots(Space::Node));
    let su = slot_updates(t0, Space::User);
    let sn = slot_updates(mid, Space::Node);
    lemma_stale_indexes_members(su, expiry_ms, now_ms, INDEX_SPACE as int);
    lemma_stale_indexes_members(sn, expiry_ms, now_ms, INDEX_SPACE as int);
    assert forall|x: u16| eu.contains(x) <==> stale_slot(t0.slots(Space::User)[x as int], expiry_ms, now_ms) by {
        assert(su[x as int] == match t0.slots(Space::User)[x as int] {
            Some(e) => Some(e.last_update),
            None => None,
        });
    }
    assert forall|x: u16| en.contains(x) <==> stale_slot(t0.slots(Space::Node)[x as int], expiry_ms, now_ms) by {
        assert(sn[x as int] == match t0.slots(Space::Node)[x as int] {
            Some(e) => Some(e.last_update),
            None => None,
        });
    }
    assert(ns.last() == i1 && nt.last() == t1);
    assert forall|x: u16|
        #[trigger] stale_slot(t0.slots(space)[x as int], expiry_ms, now_ms) && x != RESERVED_INDEX implies in_cooldown(
            i1.spec_allocator(space).spec_cooldown(),
            x,
        ) && !i1.spec_allocator(space).spec_occupied()[x as int] by {
        match space {
            Space::User => {
                assert(eu.take(eu.len() as int).contains(x));
                assert(i1.spec_allocator(Space::User) == us.last().spec_allocator(Space::User));
            },
            Space::Node => {
                assert(en.take(en.len() as int).contains(x));
            },
        }
    }
}

/// Whether the target at `idx` of `space` is a gateway node: a node
/// whose record says so.
pub open spec fn target_is_gateway(indexes: Indexes, records: Records, space: Space, idx: u16) -> bool {
    let fwd = indexes.node_dict.spec_forward();
    &&& space == Space::Node
    &&& fwd.dom().contains(idx)
    &&& records.nodes@.dom().contains(spec_id_key(fwd[idx]))
    &&& records.nodes@[spec_id_key(fwd[idx])].1.is_gateway
}

/// The entry the table holds at `idx` of `space`, as the relay tick
/// reads it: its next hop resolved through the node dictionary, and
/// whether its target is a gateway node.
pub open spec fn relay_candidate(
    indexes: Indexes,
    records: Records,
    table: RoutingTable<RoutingEntry>,
    space: Space,
    idx: u16,
) -> Option<RelayCandidate> {
    match table.slots(space)[idx as int] {
        None => None,
        Some(e) => {
            let fwd = indexes.node_dict.spec_forward();
            Some(
                RelayCandidate {
                    space,
                    own_idx: idx,
                    next_hop_id: if fwd.dom().contains(e.next_hop) {
                        Some(fwd[e.next_hop])
                    } else {
                        None
                    },
                    transport: e.transport,
                    target: space,
                    target_is_gateway: target_is_gateway(indexes, records, space, idx),
                    seq: e.seq_num.0,
                    metric: e.metric,
                    hop_count: e.hop_count,
                    local_only: e.local_only,
                },
            )
        },
    }
}

/// The entries of the queued slots that the table still holds, in queue
/// order.
pub open spec fn candidates_of(
    indexes: Indexes,
    records: Records,
    table: RoutingTable<RoutingEntry>,
    queue: Seq<(Space, u16)>,
) -> Seq<RelayCandidate>
    decreases queue.len(),
{
    if queue.len() == 0 {
        seq![]
    } else {
        let rest = candidates_of(indexes, records, table, queue.drop_last());
        match relay_candidate(indexes, records, table, queue.last().0, queue.last().1) {
            Some(c) => rest.push(c),
            None => rest,
        }
    }
}

/// Whether the node dictionary binds `idx` to a node whose record says
/// it is a gateway.
pub open spec fn bound_to_gateway(indexes: Indexes, records: Records, idx: u16) -> bool {
    let fwd = indexes.node_dict.spec_forward();
    fwd.dom().contains(idx) && records.nodes@.dom().contains(spec_id_key(fwd[idx]))
        && records.nodes@[spec_id_key(fwd[idx])].1.is_gateway
}

/// The relay tick's membrane toward the Internet: a queued entry the
/// relay tick reads is let into the Internet sphere exactly when it is of
/// the node space and its index is bound to a node whose record says it
/// is a gateway; so no entry relayed over an Internet transport leads to
/// a user, or to a node whose record says it is not a gateway. Each
/// candidate is the entry the table holds at a queued slot.
pub proof fn lemma_internet_relay_only_gateways(
    indexes: Indexes,
    records: Records,
    table: RoutingTable<RoutingEntry>,
    queue: Seq<(Space, u16)>,
)
    ensures
        ({
            let cs = candidates_of(indexes, records, table, queue);
            forall|i: int|
                0 <= i < cs.len() ==> {
                    &&& spec_should_propagate(#[trigger] cs[i], Sphere::Internet) <==> (cs[i].space == Space::Node
                        && bound_to_gateway(indexes, records, cs[i].own_idx))
                    &&& queue.contains((cs[i].space, cs[i].own_idx))
                    &&& table.slots(cs[i].space)[cs[i].own_idx as int] is Some
                }
        }),
    decreases queue.len(),
{
    if queue.len() > 0 {
        let d = queue.drop_last();
        lemma_internet_relay_only_gateways(indexes, records, table, d);
        let cs = candidates_of(indexes, records, table, queue);
        let rest = candidates_of(indexes, records, table, d);
        assert forall|i: int| 0 <= i < cs.len() implies {
            &&& spec_should_propagate(#[trigger] cs[i], Sphere::Internet) <==> (cs[i].space == Space::Node
                && bound_to_gateway(indexes, records, cs[i].own_idx))
            &&& queue.contains((cs[i].space, cs[i].own_idx))
            &&& table.slots(cs[i].space)[cs[i].own_idx as int] is Some
        } by {
            if i < rest.len() {
                assert(cs[i] == rest[i]);
                let j = choose|j: int| 0 <= j < d.len() && d[j] == (rest[i].space, rest[i].own_idx);
                assert(queue[j] == d[j]);
            } else {
                assert(queue[queue.len() - 1] == queue.last());
            }
        }
    }
}

/// The introductions `ms` of `space` with whether each target is a
/// gateway node.
pub open spec fn intro_candidates(ms: Seq<Mapping>, records: Records, space: Space) -> Seq<IntroCandidate> {
    Seq::new(
        ms.len(),
        |i: int|
            IntroCandidate {
                abs_idx: ms[i].abs_idx,
                target_id: ms[i].target_id,
                version: ms[i].version,
                is_gateway: space == Space::Node && records.nodes@.dom().contains(spec_id_key(ms[i].target_id))
                    && records.nodes@[spec_id_key(ms[i].target_id)].1.is_gateway,
            },
    )
}

/// Queues the slot at `idx` of `space` for the next relay tick, unless
/// it is queued already.
pub fn enqueue(queue: &mut Vec<(Space, u16)>, space: Space, idx: u16)
    ensures
        old(queue)@.contains((space, idx)) ==> final(queue)@ == old(queue)@,
        !old(queue)@.contains((space, idx)) ==> final(queue)@ == old(queue)@.push((space, idx)),
{
    let n = queue.len();
    let mut i = 0usize;
    while i < n
        invariant
            n == queue@.len(),
            queue@ == old(queue)@,
            i <= n,
            forall|j: int| 0 <= j < i ==> queue@[j] != (space, idx),
        decreases n - i,
    {
        let (s, x) = queue[i];
        if s == space && x == idx {
            assert(queue@[i as int] == (space, idx));
            return;
        }
        i += 1;
    }
    queue.push((space, idx));
}

/// Whether the target at `idx` of `space` is a gateway node.
fn gateway_at(indexes: &Indexes, records: &Records, space: Space, idx: u16) -> (r: bool)
    requires
        indexes.wf(),
        records.wf(),
    ensures
        r == target_is_gateway(*indexes, *records, space, idx),
{
    match space {
        Space::User => false,
        Space::Node => match indexes.node_dict.id_of(idx) {
            None => false,
            Some(id) => match records.nodes.get(&id) {
                Some(n) => n.is_gateway,
                None => false,
            },
        },
    }
}

/// The queued slots' entries the table still holds, in queue order.
fn gather_candidates(
    indexes: &Indexes,
    records: &Records,
    table: &RoutingTable<RoutingEntry>,
    queue: &Vec<(Space, u16)>,
) -> (r: Vec<RelayCandidate>)
    requires
        indexes.wf(),
        records.wf(),
        table.wf(),
    ensures
        r@ == candidates_of(*indexes, *records, *table, queue@),
{
    let mut out: Vec<RelayCandidate> = Vec::new();
    let n = queue.len();
    let mut i = 0usize;
    while i < n
        invariant
            indexes.wf(),
            records.wf(),
            table.wf(),
            n == queue@.len(),
            i <= n,
            out@ == candidates_of(*indexes, *records, *table, queue@.take(i as int)),
        decreases n - i,
    {
        let (space, idx) = queue[i];
        proof {
            assert(queue@.take(i as int + 1).drop_last() =~= queue@.take(i as int));
        }
        match table.get(space, idx) {
            Some(e) => {
                let c = RelayCandidate {
                    space,
                    own_idx: idx,
                    next_hop_id: indexes.node_dict.id_of(e.next_hop),
                    transport: e.transport,
                    target: space,
                    target_is_gateway: gateway_at(indexes, records, space, idx),
                    seq: e.seq_num.0,
                    metric: e.metric,
                    hop_count: e.hop_count,
                    local_only: e.local_only,
                };
                out.push(c);
            },
            None => {},
        }
        i += 1;
    }
    proof {
        assert(queue@.take(n as int) =~= queue@);
    }
    out
}

/// The introductions `ms` of `space` with whether each target is a
/// gateway node.
fn to_intro_candidates(ms: &Vec<Mapping>, records: &Records, space: Space) -> (r: Vec<IntroCandidate>)
    requires
        records.wf(),
    ensures
        r@ == intro_candidates(ms@, *records, space),
{
    let mut out: Vec<IntroCandidate> = Vec::new();
    let n = ms.len();
    let mut i = 0usize;
    while i < n
        invariant
            records.wf(),
            n == ms@.len(),
            i <= n,
            out@ == intro_candidates(ms@, *records, space).take(i as int),
        decreases n - i,
    {
        let m = ms[i];
        let is_gateway = match space {
            Space::User => false,
            Space::Node => match records.nodes.get(&m.target_id) {
                Some(n) => n.is_gateway,
                None => false,
            },
        };
        out.push(IntroCandidate { abs_idx: m.abs_idx, target_id: m.target_id, version: m.version, is_gateway });
        i += 1;
        proof {
            assert(out@ =~= intro_candidates(ms@, *records, space).take(i as int));
        }
    }
    proof {
        assert(intro_candidates(ms@, *records, space).take(n as int) =~= intro_candidates(ms@, *records, space));
    }
    out
}

/// The introductions a relay tick takes from the marks `pending` of
/// `space`, with whether each target is a gateway node.
pub open spec fn taken_intros(indexes: Indexes, records: Records, space: Space, pending: Seq<u16>) -> Seq<IntroCandidate> {
    intro_candidates(
        sort_mappings_by_idx(resolved_intros(pending, intro_targets(indexes, records, space, pending))),
        records,
        space,
    )
}

/// The relay tick: the expiry sweep runs first; then the queue is
/// drained, and each (neighbour, node id, transport) of `pairs` gets, in
/// order, the frame of the ROUTING_UPDATE carrying the pending
/// introductions its sphere lets through and those queued slots' entries
/// the table still holds that go to it (see `relay_to_pairs`). The marks
/// taken are left only on the introductions that reached no pair.
pub fn tick_relay<P: Copy>(
    indexes: &mut Indexes,
    table: &mut RoutingTable<RoutingEntry>,
    records: &Records,
    queue: &mut Vec<(Space, u16)>,
    pairs: &Vec<(P, [u8; 8], ConnectionModule)>,
    now_ms: u64,
    expiry_ms: u64,
    now: Instant,
) -> (r: Vec<(P, ConnectionModule, Vec<u8>)>)
    requires
        old(indexes).wf(),
        old(table).wf(),
        records.wf(),
    ensures
        final(indexes).wf(),
        final(table).wf(),
        final(queue)@.len() == 0,
        exists|mid: Indexes, pu: Seq<u16>, pn: Seq<u16>|
            #![trigger sweep_outcome(*old(indexes), *old(table), mid, *final(table), now_ms, expiry_ms, now), taken_intros(mid, *records, Space::User, pu), taken_intros(mid, *records, Space::Node, pn)]
            {
                let ui = taken_intros(mid, *records, Space::User, pu);
                let ni = taken_intros(mid, *records, Space::Node, pn);
                &&& sweep_outcome(*old(indexes), *old(table), mid, *final(table), now_ms, expiry_ms, now)
                &&& final(indexes).user_dict == mid.user_dict
                &&& final(indexes).node_dict == mid.node_dict
                &&& final(indexes).users_allocator == mid.users_allocator
                &&& final(indexes).node_allocator == mid.node_allocator
                &&& pu.no_duplicates() && pu.to_set() == mid.tracker.pending(Space::User)
                &&& pn.no_duplicates() && pn.to_set() == mid.tracker.pending(Space::Node)
                &&& frames_view(r@) == relay_frames(pairs@, ui, ni, candidates_of(mid, *records, *final(table), old(queue)@))
                &&& final(indexes).tracker.pending(Space::User) == unreached_intros(ui, Space::User, pairs@)
                &&& final(indexes).tracker.pending(Space::Node) == unreached_intros(ni, Space::Node, pairs@)
            },
{
    sweep_expired(indexes, table, now_ms, expiry_ms, now);
    let ghost mid = *indexes;
    let mut drained: Vec<(Space, u16)> = Vec::new();
    std::mem::swap(&mut drained, queue);
    let candidates = gather_candidates(indexes, records, table, &drained);
    let users = take_introductions(indexes, records, Space::User);
    let ghost after_users = *indexes;
    let nodes = take_introductions(indexes, records, Space::Node);
    let ui = to_intro_candidates(&users, records, Space::User);
    let ni = to_intro_candidates(&nodes, records, Space::Node);
    let ghost before_tick = *indexes;
    let r = relay_to_pairs(indexes, &ui, &ni, &candidates, pairs);
    proof {
        let pu = choose|pending: Seq<u16>|
            {
                &&& pending.no_duplicates()
                &&& pending.to_set() == mid.tracker.pending(Space::User)
                &&& users@ == sort_mappings_by_idx(
                    resolved_intros(pending, intro_targets(mid, *records, Space::User, pending)),
                )
            };
        let pn = choose|pending: Seq<u16>|
            {
                &&& pending.no_duplicates()
                &&& pending.to_set() == after_users.tracker.pending(Space::Node)
                &&& nodes@ == sort_mappings_by_idx(
                    resolved_intros(pending, intro_targets(after_users, *records, Space::Node, pending)),
                )
            };
        assert(intro_targets(after_users, *records, Space::Node, pn) =~= intro_targets(mid, *records, Space::Node, pn));
        assert(ui@ == taken_intros(mid, *records, Space::User, pu));
        assert(ni@ == taken_intros(mid, *records, Space::Node, pn));
        assert(before_tick.tracker.pending(Space::User) =~= Set::<u16>::empty());
        assert(before_tick.tracker.pending(Space::User).union(unreached_intros(ui@, Space::User, pairs@)) =~= unreached_intros(ui@, Space::User, pairs@));
        assert(before_tick.tracker.pending(Space::Node).union(unreached_intros(ni@, Space::Node, pairs@)) =~= unreached_intros(ni@, Space::Node, pairs@));
    }
    r
}


/// What introducing the binding at `idx` of `space` carries: the id
/// bound there, its record's version (a user's profile version, a node's
/// committed manifest version; 0 where the record is missing), and
/// whether it is a gateway node.
pub open spec fn binding_candidate(indexes: Indexes, records: Records, space: Space, idx: u16) -> IntroCandidate {
    let id = indexes.spec_dict(space).spec_forward()[idx];
    let k = spec_id_key(id);
    match space {
        Space::User => IntroCandidate {
            abs_idx: idx,
            target_id: id,
            version: if records.users@.dom().contains(k) {
                records.users@[k].1.profile_version
            } else {
                0
            },
            is_gateway: false,
        },
        Space::Node => IntroCandidate {
            abs_idx: idx,
            target_id: id,
            version: if records.nodes@.dom().contains(k) {
                records.nodes@[k].1.manifest_version
            } else {
                0
            },
            is_gateway: records.nodes@.dom().contains(k) && records.nodes@[k].1.is_gateway,
        },
    }
}

/// Whether `r` carries every binding of `space`'s dictionary once, each
/// as `binding_candidate` gives it, ascending by index.
pub open spec fn gathers_bindings(indexes: Indexes, records: Records, space: Space, r: Seq<IntroCandidate>) -> bool {
    exists|bound: Seq<u16>|
        #![trigger bound.to_set()]
        {
            &&& bound.to_set() == indexes.spec_dict(space).spec_forward().dom()
            &&& forall|i: int, j: int| 0 <= i < j < bound.len() ==> bound[i] < bound[j]
            &&& r.len() == bound.len()
            &&& forall|i: int| 0 <= i < r.len() ==> r[i] == binding_candidate(indexes, records, space, #[trigger] bound[i])
        }
}

/// A strictly ascending run of 16-bit values has at most 65536 of them.
proof fn lemma_ascending_u16_len(s: Seq<u16>)
    requires
        forall|i: int, j: int| 0 <= i < j < s.len() ==> s[i] < s[j],
    ensures
        s.len() <= 0x10000,
{
    if s.len() > 0 {
        assert forall|i: int| 0 <= i < s.len() implies s[i] >= i by {
            lemma_ascending_at_least(s, i);
        }
        assert(s[s.len() - 1] >= s.len() - 1);
    }
}

proof fn lemma_ascending_at_least(s: Seq<u16>, i: int)
    requires
        forall|a: int, b: int| 0 <= a < b < s.len() ==> s[a] < s[b],
        0 <= i < s.len(),
    ensures
        s[i] >= i,
    decreases i,
{
    if i > 0 {
        lemma_ascending_at_least(s, i - 1);
        assert(s[i - 1] < s[i]);
    }
}

/// Every binding of `space`'s dictionary with what introducing it
/// carries, ascending by index.
pub fn gather_bindings(indexes: &Indexes, records: &Records, space: Space) -> (r: Vec<IntroCandidate>)
    requires
        indexes.wf(),
        records.wf(),
    ensures
        gathers_bindings(*indexes, *records, space, r@),
        r@.len() <= 0x10000,
{
    let bound = match space {
        Space::User => indexes.user_dict.bound_indexes(),
        Space::Node => indexes.node_dict.bound_indexes(),
    };
    let mut out: Vec<IntroCandidate> = Vec::new();
    let n = bound.len();
    let mut i = 0usize;
    while i < n
        invariant
            indexes.wf(),
            records.wf(),
            n == bound@.len(),
            bound@.to_set() == indexes.spec_dict(space).spec_forward().dom(),
            i <= n,
            out@.len() == i,
            forall|j: int| 0 <= j < i ==> out@[j] == binding_candidate(*indexes, *records, space, #[trigger] bound@[j]),
        decreases n - i,
    {
        let idx = bound[i];
        proof {
            assert(bound@.to_set().contains(idx));
        }
        let id = match space {
            Space::User => indexes.user_dict.id_of(idx),
            Space::Node => indexes.node_dict.id_of(idx),
        };
        let id = match id {
            Some(id) => id,
            None => [0u8; 8],
        };
        let c = match space {
            Space::User => {
                let version = match records.users.get(&id) {
                    Some(u) => u.profile_version,
                    None => 0,
                };
                IntroCandidate { abs_idx: idx, target_id: id, version, is_gateway: false }
            },
            Space::Node => match records.nodes.get(&id) {
                Some(nr) => IntroCandidate { abs_idx: idx, target_id: id, version: nr.manifest_version, is_gateway: nr.is_gateway },
                None => IntroCandidate { abs_idx: idx, target_id: id, version: 0, is_gateway: false },
            },
        };
        out.push(c);
        i += 1;
    }
    proof {
        lemma_ascending_u16_len(bound@);
    }
    out
}

/// What a neighbour that connects over `transport` is sent: the frames
/// of the INDEX_DUMPs of every binding of this node's two dictionaries
/// (see `bootstrap_dumps`) — none over BLE.
pub fn on_neighbour_connect(indexes: &Indexes, records: &Records, transport: ConnectionModule) -> (r: Vec<Vec<u8>>)
    requires
        indexes.wf(),
        records.wf(),
    ensures
        exists|users: Seq<IntroCandidate>, nodes: Seq<IntroCandidate>, dumps: Seq<IndexDump>|
            #![trigger bootstrap_outcome(transport, users, nodes, dumps)]
            {
                &&& gathers_bindings(*indexes, *records, Space::User, users)
                &&& gathers_bindings(*indexes, *records, Space::Node, nodes)
                &&& bootstrap_outcome(transport, users, nodes, dumps)
                &&& dump_frames_outcome(dumps, r@)
            },
{
    let users = gather_bindings(indexes, records, Space::User);
    let nodes = gather_bindings(indexes, records, Space::Node);
    let dumps = bootstrap_dumps(transport, &users, &nodes);
    index_dump_frames(&dumps)
}

} // verus!
