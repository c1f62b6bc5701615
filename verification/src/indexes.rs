//! The index bookkeeping of this node: its own dictionary and allocator in
//! each space, the marks of indexes still to be introduced, and the
//! operations that keep them in step with the routing table.

use vstd::prelude::*;

use std::time::Instant;

use crate::dictionary::{
    bound_index, lemma_bound_after_bind, lemma_bound_index_unique, spec_bind, IndexDictionary,
    ReintroductionTracker,
};
use crate::error::RoutingV2Error;
use crate::index::{allocation, IndexAllocator, RESERVED_INDEX};
use crate::mirror::NeighbourInfo;
use crate::sphere::{binds_reserved_user_index, FormTransition, PropagationForm, Space};
use crate::receive::{evaluate_entry, spec_evaluate_entry, EntryArg, EntryVerdict, StoredRoute, MAX_HOP_COUNT};
use crate::seq::SeqNum;
use crate::sphere::ConnectionModule;
use crate::table::{RoutingEntry, RoutingTable};

verus! {

/// The id a neighbour's mirror binds at `idx` of `space`; none when the
/// neighbour is unknown.
pub open spec fn mirrored_id(mirror: Option<&NeighbourInfo>, space: Space, idx: u16) -> Option<[u8; 8]> {
    match mirror {
        None => None,
        Some(n) => {
            let m = match space {
                Space::User => n.users.spec_bindings(),
                Space::Node => n.nodes.spec_bindings(),
            };
            if m.dom().contains(idx) {
                Some(m[idx])
            } else {
                None
            }
        },
    }
}

/// The other index space.
pub open spec fn other_space(space: Space) -> Space {
    match space {
        Space::User => Space::Node,
        Space::Node => Space::User,
    }
}

/// This node's dictionaries, allocators and introduction marks.
pub struct Indexes {
    pub user_dict: IndexDictionary,
    pub node_dict: IndexDictionary,
    pub users_allocator: IndexAllocator,
    pub node_allocator: IndexAllocator,
    pub tracker: ReintroductionTracker,
}

/// What finding or making this node's index for `id` in `space` does:
/// an id already bound keeps its index and nothing changes; else an index
/// is allocated, bound to the id and marked for introduction, or, with
/// every index taken, the allocator reports exhaustion.
pub open spec fn own_index_outcome(
    before: Indexes,
    after: Indexes,
    space: Space,
    id: [u8; 8],
    r: Result<u16, RoutingV2Error>,
) -> bool {
    match bound_index(before.spec_dict(space).spec_forward(), id) {
        Some(i) => r == Ok::<u16, RoutingV2Error>(i) && after == before,
        None => {
            &&& after.untouched_except(before, space)
            &&& match r {
                Ok(a) => {
                    &&& allocation(before.spec_allocator(space), after.spec_allocator(space), Some(a))
                    &&& after.spec_dict(space).spec_forward() == spec_bind(
                        before.spec_dict(space).spec_forward(),
                        a,
                        id,
                    )
                    &&& after.tracker.pending(space) == before.tracker.pending(space).insert(a)
                },
                Err(e) => {
                    &&& e is AllocatorExhausted
                    &&& allocation(before.spec_allocator(space), after.spec_allocator(space), None)
                    &&& after.spec_dict(space) == before.spec_dict(space)
                    &&& after.tracker.pending(space) == before.tracker.pending(space)
                },
            }
        },
    }
}

/// What translating a neighbour's index does: an index the neighbour's
/// mirror does not bind is an unknown mapping and changes nothing; else
/// the id it binds gets this node's index for it.
pub open spec fn translation(
    before: Indexes,
    after: Indexes,
    mirror: Option<&NeighbourInfo>,
    space: Space,
    incoming_idx: u16,
    r: Result<u16, RoutingV2Error>,
) -> bool {
    match mirrored_id(mirror, space, incoming_idx) {
        None => r == Err::<u16, RoutingV2Error>(RoutingV2Error::UnknownMapping(incoming_idx)) && after == before,
        Some(id) => own_index_outcome(before, after, space, id, r),
    }
}

/// What retiring index `idx` of `space`, released at `now`, does: its
/// table slot is emptied, its binding and mark dropped, and, unless it is
/// the reserved index, the allocator frees it and lets it rest.
pub open spec fn retirement<T>(
    before: Indexes,
    after: Indexes,
    table_before: RoutingTable<T>,
    table_after: RoutingTable<T>,
    space: Space,
    idx: u16,
    now: Instant,
) -> bool {
    &&& after.untouched_except(before, space)
    &&& table_after.slots(space) == table_before.slots(space).update(idx as int, None)
    &&& table_after.slots(other_space(space)) == table_before.slots(other_space(space))
    &&& after.spec_dict(space).spec_forward() == before.spec_dict(space).spec_forward().remove(idx)
    &&& after.tracker.pending(space) == before.tracker.pending(space).remove(idx)
    &&& after.spec_allocator(space).spec_cursor() == before.spec_allocator(space).spec_cursor()
    &&& idx != RESERVED_INDEX ==> {
        &&& after.spec_allocator(space).spec_occupied() == before.spec_allocator(
            space,
        ).spec_occupied().update(idx as int, false)
        &&& after.spec_allocator(space).spec_cooldown() == before.spec_allocator(
            space,
        ).spec_cooldown().push((idx, now))
    }
    &&& idx == RESERVED_INDEX ==> after.spec_allocator(space) == before.spec_allocator(space)
}

/// What releasing the index `id` holds in `space` does: nothing where it
/// holds none, else that index is retired.
pub open spec fn release_outcome<T>(
    before: Indexes,
    after: Indexes,
    table_before: RoutingTable<T>,
    table_after: RoutingTable<T>,
    space: Space,
    id: [u8; 8],
    now: Instant,
) -> bool {
    match bound_index(before.spec_dict(space).spec_forward(), id) {
        None => after == before && table_after == table_before,
        Some(i) => retirement(before, after, table_before, table_after, space, i, now),
    }
}

/// `states` and `tables` step through releasing the indexes of `ids` in
/// `space`, one after the other.
pub open spec fn release_run<T>(
    states: Seq<Indexes>,
    tables: Seq<RoutingTable<T>>,
    space: Space,
    ids: Seq<[u8; 8]>,
    now: Instant,
) -> bool {
    &&& states.len() == ids.len() + 1
    &&& tables.len() == ids.len() + 1
    &&& forall|i: int|
        #![trigger ids[i]]
        0 <= i < ids.len() ==> release_outcome(states[i], states[i + 1], tables[i], tables[i + 1], space, ids[i], now)
}

/// What releasing the indexes of `ids` in `space`, one after the other,
/// does.
pub open spec fn releases<T>(
    before: Indexes,
    after: Indexes,
    table_before: RoutingTable<T>,
    table_after: RoutingTable<T>,
    space: Space,
    ids: Seq<[u8; 8]>,
    now: Instant,
) -> bool {
    exists|states: Seq<Indexes>, tables: Seq<RoutingTable<T>>|
        #![trigger release_run(states, tables, space, ids, now)]
        {
            &&& release_run(states, tables, space, ids, now)
            &&& states[0] == before
            &&& tables[0] == table_before
            &&& states.last() == after
            &&& tables.last() == table_after
        }
}

/// `states` and `tables` step through retiring the indexes `idxs` of
/// `space`, one after the other.
pub open spec fn retire_run<T>(
    states: Seq<Indexes>,
    tables: Seq<RoutingTable<T>>,
    space: Space,
    idxs: Seq<u16>,
    now: Instant,
) -> bool {
    &&& states.len() == idxs.len() + 1
    &&& tables.len() == idxs.len() + 1
    &&& forall|i: int|
        #![trigger idxs[i]]
        0 <= i < idxs.len() ==> retirement(states[i], states[i + 1], tables[i], tables[i + 1], space, idxs[i], now)
}

/// What binding `id` at the reserved index of `space` does: the binding
/// and its mark, nothing else.
pub open spec fn reserved_binding(before: Indexes, after: Indexes, space: Space, id: [u8; 8]) -> bool {
    &&& after.untouched_except(before, space)
    &&& after.spec_allocator(space) == before.spec_allocator(space)
    &&& after.spec_dict(space).spec_forward() == spec_bind(before.spec_dict(space).spec_forward(), RESERVED_INDEX, id)
    &&& after.tracker.pending(space) == before.tracker.pending(space).insert(RESERVED_INDEX)
}

/// What the table holds for a slot, as the receive path compares it.
pub open spec fn stored_route(slot: Option<RoutingEntry>) -> Option<StoredRoute> {
    match slot {
        None => None,
        Some(e) => Some(StoredRoute { seq_num: e.seq_num, metric: e.metric, local_only: e.local_only }),
    }
}

/// The node index, in `dict`, of the neighbour an entry came from; none
/// when the neighbour is gone.
pub open spec fn next_hop_index(dict: Map<u16, [u8; 8]>, mirror: Option<&NeighbourInfo>) -> Option<u16> {
    match mirror {
        None => None,
        Some(n) => bound_index(dict, n.node_id),
    }
}

/// What finding this node's index for the target of a received entry
/// does: an entry that travelled too far, or whose index the neighbour's
/// mirror does not bind, has none and changes nothing; else the target's
/// own index is found or made.
pub open spec fn target_step(
    before: Indexes,
    after: Indexes,
    mirror: Option<&NeighbourInfo>,
    space: Space,
    entry: EntryArg,
    r: Result<Option<u16>, RoutingV2Error>,
) -> bool {
    &&& entry.hop_count >= MAX_HOP_COUNT ==> r == Ok::<Option<u16>, RoutingV2Error>(None) && after == before
    &&& entry.hop_count < MAX_HOP_COUNT ==> match mirrored_id(mirror, space, entry.abs_idx) {
        None => r == Ok::<Option<u16>, RoutingV2Error>(None) && after == before,
        Some(id) => match r {
            Ok(Some(i)) => own_index_outcome(before, after, space, id, Ok(i)),
            Ok(None) => false,
            Err(e) => own_index_outcome(before, after, space, id, Err(e)),
        },
    }
}

/// What settling an entry at `own_idx` of `space` does to the table:
/// judged against what the table holds there, and, when accepted and the
/// neighbour it came from has a node index, stored with that neighbour as
/// next hop, received at `now`; else nothing.
pub open spec fn settle_step(
    indexes: Indexes,
    before: RoutingTable<RoutingEntry>,
    after: RoutingTable<RoutingEntry>,
    mirror: Option<&NeighbourInfo>,
    space: Space,
    own_idx: u16,
    entry: EntryArg,
    transport: ConnectionModule,
    rssi_dbm: Option<i8>,
    now: u64,
    stored: bool,
) -> bool {
    let verdict = spec_evaluate_entry(entry, transport, rssi_dbm, stored_route(before.slots(space)[own_idx as int]));
    let hop = next_hop_index(indexes.node_dict.spec_forward(), mirror);
    match (verdict, hop) {
        (EntryVerdict::Accept { seq, metric, hop_count, local_only }, Some(h)) => {
            &&& stored
            &&& after.slots(space) == before.slots(space).update(
                own_idx as int,
                Some(
                    RoutingEntry {
                        target_index: own_idx,
                        seq_num: SeqNum(seq),
                        metric,
                        next_hop: h,
                        transport,
                        last_update: now,
                        hop_count,
                        local_only,
                    },
                ),
            )
            &&& after.slots(other_space(space)) == before.slots(other_space(space))
        },
        _ => !stored && after == before,
    }
}

impl Indexes {
    pub open spec fn wf(&self) -> bool {
        &&& self.user_dict.wf()
        &&& self.node_dict.wf()
        &&& self.users_allocator.wf()
        &&& self.node_allocator.wf()
        &&& self.tracker.wf()
    }

    /// The dictionary of a space.
    pub open spec fn spec_dict(&self, space: Space) -> IndexDictionary {
        match space {
            Space::User => self.user_dict,
            Space::Node => self.node_dict,
        }
    }

    /// The allocator of a space.
    pub open spec fn spec_allocator(&self, space: Space) -> IndexAllocator {
        match space {
            Space::User => self.users_allocator,
            Space::Node => self.node_allocator,
        }
    }

    /// Everything of the other space is as in `before`.
    pub open spec fn untouched_except(&self, before: Indexes, space: Space) -> bool {
        &&& self.wf()
        &&& self.spec_dict(other_space(space)) == before.spec_dict(other_space(space))
        &&& self.spec_allocator(other_space(space)) == before.spec_allocator(other_space(space))
        &&& self.tracker.pending(other_space(space)) == before.tracker.pending(other_space(space))
    }

    /// Nothing bound, nothing marked, every index free.
    pub fn new() -> (s: Indexes)
        ensures
            s.wf(),
            s.user_dict.spec_forward() == Map::<u16, [u8; 8]>::empty(),
            s.node_dict.spec_forward() == Map::<u16, [u8; 8]>::empty(),
            s.tracker.pending(Space::User) == Set::<u16>::empty(),
            s.tracker.pending(Space::Node) == Set::<u16>::empty(),
            s.users_allocator.spec_cursor() == 0,
            s.users_allocator.spec_cooldown() == Seq::<(u16, Instant)>::empty(),
            s.users_allocator.spec_occupied() == Seq::new(65536, |i: int| false),
            s.node_allocator.spec_cursor() == 0,
            s.node_allocator.spec_cooldown() == Seq::<(u16, Instant)>::empty(),
            s.node_allocator.spec_occupied() == Seq::new(65536, |i: int| false),
    {
        Indexes {
            user_dict: IndexDictionary::new(),
            node_dict: IndexDictionary::new(),
            users_allocator: IndexAllocator::new(),
            node_allocator: IndexAllocator::new(),
            tracker: ReintroductionTracker::new(),
        }
    }

    /// This node's index for `id` in `space`: the one it is bound at, or a
    /// freshly allocated one, bound and marked for introduction.
    pub fn own_index(&mut self, space: Space, id: [u8; 8]) -> (r: Result<u16, RoutingV2Error>)
        requires
            old(self).wf(),
        ensures
            final(self).wf(),
            own_index_outcome(*old(self), *final(self), space, id, r),
    {
        match space {
            Space::User => own_index_in(&mut self.user_dict, &mut self.users_allocator, &mut self.tracker, space, id),
            Space::Node => own_index_in(&mut self.node_dict, &mut self.node_allocator, &mut self.tracker, space, id),
        }
    }

    /// This node's index for the target a neighbour announced at
    /// `incoming_idx` of `space`.
    pub fn translate_incoming(&mut self, mirror: Option<&NeighbourInfo>, space: Space, incoming_idx: u16) -> (r:
        Result<u16, RoutingV2Error>)
        requires
            old(self).wf(),
            mirror matches Some(n) ==> n.wf(),
        ensures
            final(self).wf(),
            translation(*old(self), *final(self), mirror, space, incoming_idx, r),
    {
        let id = match mirror {
            None => {
                return Err(RoutingV2Error::UnknownMapping(incoming_idx));
            },
            Some(n) => match n.mirror(space).id_of(incoming_idx) {
                None => {
                    return Err(RoutingV2Error::UnknownMapping(incoming_idx));
                },
                Some(id) => id,
            },
        };
        self.own_index(space, id)
    }

    /// Retires index `idx` of `space`, released at `now`: empties its
    /// table slot, drops its binding and mark, and frees it in the
    /// allocator unless it is the reserved index.
    pub fn retire_index<T>(&mut self, table: &mut RoutingTable<T>, space: Space, idx: u16, now: Instant)
        requires
            old(self).wf(),
            old(table).wf(),
        ensures
            final(self).wf(),
            final(table).wf(),
            retirement(*old(self), *final(self), *old(table), *final(table), space, idx, now),
    {
        match space {
            Space::User => retire_in(&mut self.user_dict, &mut self.users_allocator, &mut self.tracker, table, space, idx, now),
            Space::Node => retire_in(&mut self.node_dict, &mut self.node_allocator, &mut self.tracker, table, space, idx, now),
        }
    }

    /// Releases the index `id` holds in `space`, if it holds one, and
    /// returns it; afterwards `id` is bound nowhere.
    pub fn release_index<T>(&mut self, table: &mut RoutingTable<T>, space: Space, id: &[u8; 8], now: Instant) -> (r:
        Option<u16>)
        requires
            old(self).wf(),
            old(table).wf(),
        ensures
            final(self).wf(),
            final(table).wf(),
            r == bound_index(old(self).spec_dict(space).spec_forward(), *id),
            release_outcome(*old(self), *final(self), *old(table), *final(table), space, *id, now),
            bound_index(final(self).spec_dict(space).spec_forward(), *id) is None,
    {
        let found = match space {
            Space::User => self.user_dict.idx_of(id),
            Space::Node => self.node_dict.idx_of(id),
        };
        match found {
            None => None,
            Some(i) => {
                self.retire_index(table, space, i, now);
                proof {
                    old(self).spec_dict(space).lemma_injective();
                    let m = old(self).spec_dict(space).spec_forward();
                    let n = self.spec_dict(space).spec_forward();
                    if exists|k: u16| n.dom().contains(k) && #[trigger] n[k] == *id {
                        let k = choose|k: u16| n.dom().contains(k) && #[trigger] n[k] == *id;
                        lemma_bound_index_unique(m, k);
                    }
                }
                Some(i)
            },
        }
    }

    /// The node bound at `next_hop` of the node space.
    pub fn next_hop_node_id(&self, next_hop: u16) -> (r: Option<[u8; 8]>)
        requires
            self.wf(),
        ensures
            r == (if self.node_dict.spec_forward().dom().contains(next_hop) {
                Some(self.node_dict.spec_forward()[next_hop])
            } else {
                None
            }),
    {
        self.node_dict.id_of(next_hop)
    }

    /// Marks the index of user `user_id`, if it has one, to be introduced
    /// again with its new profile version.
    pub fn mark_profile_version_bump(&mut self, user_id: &[u8; 8])
        requires
            old(self).wf(),
        ensures
            final(self).wf(),
            final(self).user_dict == old(self).user_dict,
            final(self).node_dict == old(self).node_dict,
            final(self).users_allocator == old(self).users_allocator,
            final(self).node_allocator == old(self).node_allocator,
            final(self).tracker.pending(Space::Node) == old(self).tracker.pending(Space::Node),
            final(self).tracker.pending(Space::User) == match bound_index(
                old(self).user_dict.spec_forward(),
                *user_id,
            ) {
                Some(i) => old(self).tracker.pending(Space::User).insert(i),
                None => old(self).tracker.pending(Space::User),
            },
    {
        match self.user_dict.idx_of(user_id) {
            Some(i) => self.tracker.mark(Space::User, i),
            None => {},
        }
    }

    /// Binds hosted user `user_id` at the reserved user index, when this
    /// node names its users by user entries and another holds that index
    /// or none does, and marks it for introduction; returns whether it did.
    pub fn claim_reserved_user_index(&mut self, form: PropagationForm, user_id: [u8; 8]) -> (claimed: bool)
        requires
            old(self).wf(),
        ensures
            final(self).wf(),
            claimed == (form == PropagationForm::User && !(old(self).user_dict.spec_forward().dom().contains(
                RESERVED_INDEX,
            ) && old(self).user_dict.spec_forward()[RESERVED_INDEX] == user_id)),
            !claimed ==> *final(self) == *old(self),
            claimed ==> reserved_binding(*old(self), *final(self), Space::User, user_id),
    {
        let holder = self.user_dict.id_of(RESERVED_INDEX);
        if !binds_reserved_user_index(form, holder, user_id) {
            return false;
        }
        self.bind_reserved(Space::User, user_id);
        true
    }

    /// Binds `id` at the reserved index of `space` and marks it for
    /// introduction.
    pub fn bind_reserved(&mut self, space: Space, id: [u8; 8])
        requires
            old(self).wf(),
        ensures
            final(self).wf(),
            reserved_binding(*old(self), *final(self), space, id),
    {
        match space {
            Space::User => self.user_dict.bind(RESERVED_INDEX, id),
            Space::Node => self.node_dict.bind(RESERVED_INDEX, id),
        }
        self.tracker.mark(space, RESERVED_INDEX);
    }

    /// Releases the indexes `ids` hold in `space`, one after the other.
    pub fn release_all<T>(&mut self, table: &mut RoutingTable<T>, space: Space, ids: &Vec<[u8; 8]>, now: Instant)
        requires
            old(self).wf(),
            old(table).wf(),
        ensures
            final(self).wf(),
            final(table).wf(),
            releases(*old(self), *final(self), *old(table), *final(table), space, ids@, now),
    {
        let n = ids.len();
        let mut k = 0usize;
        let ghost mut states: Seq<Indexes> = seq![*self];
        let ghost mut tables: Seq<RoutingTable<T>> = seq![*table];
        while k < n
            invariant
                self.wf(),
                table.wf(),
                n == ids@.len(),
                k <= n,
                release_run(states, tables, space, ids@.take(k as int), now),
                states[0] == *old(self),
                tables[0] == *old(table),
                states.last() == *self,
                tables.last() == *table,
            decreases n - k,
        {
            let _ = self.release_index(table, space, &ids[k], now);
            proof {
                let done = ids@.take(k as int + 1);
                let before = ids@.take(k as int);
                let states2 = states.push(*self);
                let tables2 = tables.push(*table);
                assert forall|i: int| #![trigger done[i]] 0 <= i < done.len() implies release_outcome(
                    states2[i],
                    states2[i + 1],
                    tables2[i],
                    tables2[i + 1],
                    space,
                    done[i],
                    now,
                ) by {
                    if i < k {
                        assert(done[i] == before[i]);
                    }
                }
                states = states2;
                tables = tables2;
            }
            k += 1;
        }
        proof {
            assert(ids@.take(n as int) =~= ids@);
            assert(release_run(states, tables, space, ids@, now));
        }
    }

    /// Retires the indexes `expired` of `space`, one after the other: the
    /// indexes whose entries went stale.
    pub fn retire_expired<T>(&mut self, table: &mut RoutingTable<T>, space: Space, expired: &Vec<u16>, now: Instant)
        requires
            old(self).wf(),
            old(table).wf(),
        ensures
            final(self).wf(),
            final(table).wf(),
            exists|states: Seq<Indexes>, tables: Seq<RoutingTable<T>>|
                #![trigger retire_run(states, tables, space, expired@, now)]
                {
                    &&& retire_run(states, tables, space, expired@, now)
                    &&& states[0] == *old(self)
                    &&& tables[0] == *old(table)
                    &&& states.last() == *final(self)
                    &&& tables.last() == *final(table)
                },
    {
        let n = expired.len();
        let mut k = 0usize;
        let ghost mut states: Seq<Indexes> = seq![*self];
        let ghost mut tables: Seq<RoutingTable<T>> = seq![*table];
        while k < n
            invariant
                self.wf(),
                table.wf(),
                n == expired@.len(),
                k <= n,
                retire_run(states, tables, space, expired@.take(k as int), now),
                states[0] == *old(self),
                tables[0] == *old(table),
                states.last() == *self,
                tables.last() == *table,
            decreases n - k,
        {
            self.retire_index(table, space, expired[k], now);
            proof {
                let done = expired@.take(k as int + 1);
                let before = expired@.take(k as int);
                let states2 = states.push(*self);
                let tables2 = tables.push(*table);
                assert forall|i: int| #![trigger done[i]] 0 <= i < done.len() implies retirement(
                    states2[i],
                    states2[i + 1],
                    tables2[i],
                    tables2[i + 1],
                    space,
                    done[i],
                    now,
                ) by {
                    if i < k {
                        assert(done[i] == before[i]);
                    }
                }
                states = states2;
                tables = tables2;
            }
            k += 1;
        }
        proof {
            assert(expired@.take(n as int) =~= expired@);
            assert(retire_run(states, tables, space, expired@, now));
        }
    }

    /// This node's index for the target of an entry received from a
    /// neighbour: none for an entry that travelled too far, which is
    /// dropped before its target is looked at, or whose index the
    /// neighbour's mirror does not bind.
    pub fn entry_target(&mut self, mirror: Option<&NeighbourInfo>, space: Space, entry: &EntryArg) -> (r: Result<
        Option<u16>,
        RoutingV2Error,
    >)
        requires
            old(self).wf(),
            mirror matches Some(n) ==> n.wf(),
        ensures
            final(self).wf(),
            target_step(*old(self), *final(self), mirror, space, *entry, r),
    {
        if entry.hop_count >= MAX_HOP_COUNT {
            return Ok(None);
        }
        match self.translate_incoming(mirror, space, entry.abs_idx) {
            Ok(i) => Ok(Some(i)),
            Err(RoutingV2Error::UnknownMapping(_)) => Ok(None),
            Err(e) => Err(e),
        }
    }

    /// Settles an entry whose target holds index `own_idx` of `space`:
    /// judged against what the table holds there, and, when accepted and
    /// the neighbour it came from has a node index, stored with that
    /// neighbour as next hop, received at `now`. Returns whether it was
    /// stored.
    pub fn settle_entry(
        &self,
        table: &mut RoutingTable<RoutingEntry>,
        mirror: Option<&NeighbourInfo>,
        space: Space,
        own_idx: u16,
        entry: &EntryArg,
        transport: ConnectionModule,
        rssi_dbm: Option<i8>,
        now: u64,
    ) -> (stored: bool)
        requires
            self.wf(),
            old(table).wf(),
        ensures
            final(table).wf(),
            settle_step(*self, *old(table), *final(table), mirror, space, own_idx, *entry, transport, rssi_dbm, now, stored),
    {
        let stored = match table.get(space, own_idx) {
            None => None,
            Some(e) => Some(StoredRoute { seq_num: e.seq_num, metric: e.metric, local_only: e.local_only }),
        };
        let verdict = evaluate_entry(*entry, transport, rssi_dbm, stored);
        match verdict {
            EntryVerdict::Accept { seq, metric, hop_count, local_only } => {
                let hop = match mirror {
                    None => None,
                    Some(n) => self.node_dict.idx_of(&n.node_id),
                };
                match hop {
                    None => false,
                    Some(h) => {
                        table.set(
                            space,
                            own_idx,
                            RoutingEntry {
                                target_index: own_idx,
                                seq_num: SeqNum(seq),
                                metric,
                                next_hop: h,
                                transport,
                                last_update: now,
                                hop_count,
                                local_only,
                            },
                        );
                        true
                    },
                }
            },
            _ => false,
        }
    }

    /// Carries out a change of propagation form: into node form the
    /// hosted users' indexes are released and this node takes the reserved
    /// node index; into user form this node's index is released and the
    /// first hosted user, if any, moves to the reserved user index.
    pub fn apply_form_transition<T>(&mut self, table: &mut RoutingTable<T>, transition: &FormTransition, now: Instant)
        requires
            old(self).wf(),
            old(table).wf(),
        ensures
            final(self).wf(),
            final(table).wf(),
            match *transition {
                FormTransition::Stay => *final(self) == *old(self) && *final(table) == *old(table),
                FormTransition::ToNode { release_users, bind_node } => exists|mid: Indexes|
                    #![trigger releases(*old(self), mid, *old(table), *final(table), Space::User, release_users@, now)]
                    releases(*old(self), mid, *old(table), *final(table), Space::User, release_users@, now)
                        && reserved_binding(mid, *final(self), Space::Node, bind_node),
                FormTransition::ToUser { release_node, reclaim_user } => exists|mid: Indexes, table_mid: RoutingTable<T>|
                    #![trigger release_outcome(*old(self), mid, *old(table), table_mid, Space::Node, release_node, now)]
                    release_outcome(*old(self), mid, *old(table), table_mid, Space::Node, release_node, now)
                        && match reclaim_user {
                        None => *final(self) == mid && *final(table) == table_mid,
                        Some(u) => exists|mid2: Indexes|
                            #![trigger release_outcome(mid, mid2, table_mid, *final(table), Space::User, u, now)]
                            release_outcome(mid, mid2, table_mid, *final(table), Space::User, u, now)
                                && reserved_binding(mid2, *final(self), Space::User, u),
                    },
            },
    {
        match transition {
            FormTransition::Stay => {},
            FormTransition::ToNode { release_users, bind_node } => {
                self.release_all(table, Space::User, release_users, now);
                let ghost mid = *self;
                self.bind_reserved(Space::Node, *bind_node);
                proof {
                    assert(releases(*old(self), mid, *old(table), *table, Space::User, release_users@, now));
                }
            },
            FormTransition::ToUser { release_node, reclaim_user } => {
                let _ = self.release_index(table, Space::Node, release_node, now);
                let ghost mid = *self;
                let ghost table_mid = *table;
                match reclaim_user {
                    None => {},
                    Some(u) => {
                        let _ = self.release_index(table, Space::User, u, now);
                        let ghost mid2 = *self;
                        self.bind_reserved(Space::User, *u);
                        proof {
                            assert(release_outcome(mid, mid2, table_mid, *table, Space::User, *u, now));
                        }
                    },
                }
                proof {
                    assert(release_outcome(*old(self), mid, *old(table), table_mid, Space::Node, *release_node, now));
                }
            },
        }
    }

    /// Releases the index of hosted user `user_id` as it stops being
    /// hosted; where it held the reserved user index, `next`, the first
    /// user still hosted, if any, moves there.
    pub fn release_hosted_user<T>(
        &mut self,
        table: &mut RoutingTable<T>,
        user_id: &[u8; 8],
        next: Option<[u8; 8]>,
        now: Instant,
    )
        requires
            old(self).wf(),
            old(table).wf(),
        ensures
            final(self).wf(),
            final(table).wf(),
            exists|mid: Indexes, table_mid: RoutingTable<T>|
                #![trigger release_outcome(*old(self), mid, *old(table), table_mid, Space::User, *user_id, now)]
                release_outcome(*old(self), mid, *old(table), table_mid, Space::User, *user_id, now) && if bound_index(
                    old(self).user_dict.spec_forward(),
                    *user_id,
                ) == Some(RESERVED_INDEX) && next is Some {
                    exists|mid2: Indexes|
                        #![trigger release_outcome(mid, mid2, table_mid, *final(table), Space::User, next->0, now)]
                        release_outcome(mid, mid2, table_mid, *final(table), Space::User, next->0, now)
                            && reserved_binding(mid2, *final(self), Space::User, next->0)
                } else {
                    *final(self) == mid && *final(table) == table_mid
                },
    {
        let held = self.user_dict.idx_of(user_id);
        let held_reserved = match held {
            Some(i) => i == RESERVED_INDEX,
            None => false,
        };
        let _ = self.release_index(table, Space::User, user_id, now);
        let ghost mid = *self;
        let ghost table_mid = *table;
        if held_reserved {
            match next {
                Some(n) => {
                    let _ = self.release_index(table, Space::User, &n, now);
                    let ghost mid2 = *self;
                    self.bind_reserved(Space::User, n);
                    proof {
                        assert(release_outcome(mid, mid2, table_mid, *table, Space::User, n, now));
                    }
                },
                None => {},
            }
        }
        proof {
            assert(release_outcome(*old(self), mid, *old(table), table_mid, Space::User, *user_id, now));
        }
    }
}

/// `own_index` within one space's dictionary and allocator.
fn own_index_in(
    dict: &mut IndexDictionary,
    alloc: &mut IndexAllocator,
    tracker: &mut ReintroductionTracker,
    space: Space,
    id: [u8; 8],
) -> (r: Result<u16, RoutingV2Error>)
    requires
        old(dict).wf(),
        old(alloc).wf(),
        old(tracker).wf(),
    ensures
        final(dict).wf(),
        final(alloc).wf(),
        final(tracker).wf(),
        forall|other: Space| other != space ==> final(tracker).pending(other) == old(tracker).pending(other),
        match bound_index(old(dict).spec_forward(), id) {
            Some(i) => r == Ok::<u16, RoutingV2Error>(i) && *final(dict) == *old(dict) && *final(alloc) == *old(
                alloc,
            ) && *final(tracker) == *old(tracker),
            None => match r {
                Ok(a) => {
                    &&& allocation(*old(alloc), *final(alloc), Some(a))
                    &&& final(dict).spec_forward() == spec_bind(old(dict).spec_forward(), a, id)
                    &&& final(tracker).pending(space) == old(tracker).pending(space).insert(a)
                },
                Err(e) => {
                    &&& e is AllocatorExhausted
                    &&& allocation(*old(alloc), *final(alloc), None)
                    &&& *final(dict) == *old(dict)
                    &&& *final(tracker) == *old(tracker)
                },
            },
        },
{
    if let Some(i) = dict.idx_of(&id) {
        return Ok(i);
    }
    match alloc.allocate() {
        None => Err(RoutingV2Error::AllocatorExhausted),
        Some(a) => {
            dict.bind(a, id);
            tracker.mark(space, a);
            Ok(a)
        },
    }
}

/// `retire_index` within one space's dictionary and allocator.
fn retire_in<T>(
    dict: &mut IndexDictionary,
    alloc: &mut IndexAllocator,
    tracker: &mut ReintroductionTracker,
    table: &mut RoutingTable<T>,
    space: Space,
    idx: u16,
    now: Instant,
)
    requires
        old(dict).wf(),
        old(alloc).wf(),
        old(tracker).wf(),
        old(table).wf(),
    ensures
        final(dict).wf(),
        final(alloc).wf(),
        final(tracker).wf(),
        final(table).wf(),
        final(table).slots(space) == old(table).slots(space).update(idx as int, None),
        forall|other: Space| other != space ==> final(table).slots(other) == old(table).slots(other),
        final(dict).spec_forward() == old(dict).spec_forward().remove(idx),
        final(tracker).pending(space) == old(tracker).pending(space).remove(idx),
        forall|other: Space| other != space ==> final(tracker).pending(other) == old(tracker).pending(other),
        final(alloc).spec_cursor() == old(alloc).spec_cursor(),
        idx != RESERVED_INDEX ==> {
            &&& final(alloc).spec_occupied() == old(alloc).spec_occupied().update(idx as int, false)
            &&& final(alloc).spec_cooldown() == old(alloc).spec_cooldown().push((idx, now))
        },
        idx == RESERVED_INDEX ==> *final(alloc) == *old(alloc),
{
    let _ = table.clear(space, idx);
    let _ = dict.unbind(idx);
    tracker.clear_mark(space, idx);
    if idx != RESERVED_INDEX {
        alloc.release(idx, now);
    }
}

/// Translating the same neighbour index twice, with the mirror unchanged,
/// gives the same own index, and the second translation changes nothing.
pub proof fn lemma_translate_is_idempotent(
    s0: Indexes,
    s1: Indexes,
    s2: Indexes,
    mirror: Option<&NeighbourInfo>,
    space: Space,
    incoming_idx: u16,
    i: u16,
    r2: Result<u16, RoutingV2Error>,
)
    requires
        translation(s0, s1, mirror, space, incoming_idx, Ok(i)),
        translation(s1, s2, mirror, space, incoming_idx, r2),
    ensures
        r2 == Ok::<u16, RoutingV2Error>(i),
        s2 == s1,
{
    let id = mirrored_id(mirror, space, incoming_idx)->0;
    let m0 = s0.spec_dict(space).spec_forward();
    if bound_index(m0, id) is None {
        lemma_bound_after_bind(m0, i, id);
    }
}

} // verus!
