//! What this node knows of each neighbour: the ids behind the neighbour's
//! indexes in each space, and the transports it is reached over.

use vstd::prelude::*;

use std::collections::HashSet;

use crate::keyed::{
    keyed_map, lemma_keyed_absent, lemma_keyed_insert, lemma_keyed_map_at, lemma_keyed_remove,
    lemma_keyed_update, strictly_sorted_by,
};
use crate::codec::messages::Mapping;
use crate::keyed::same_id;
use crate::sphere::{stale_after_chunk, ConnectionModule, DumpStaleIndexes, Space};

verus! {

/// The key of an index's binding.
pub open spec fn binding_key() -> spec_fn((u16, [u8; 8])) -> u64 {
    |b: (u16, [u8; 8])| b.0 as u64
}

/// A neighbour's dictionary as this node mirrors it: the id the neighbour
/// bound at each of its indexes.
pub struct MirrorIndexDictionary {
    bindings: Vec<(u16, [u8; 8])>,
}

impl MirrorIndexDictionary {
    /// The bindings by index.
    pub closed spec fn spec_bindings(&self) -> Map<u16, [u8; 8]> {
        Map::new(
            |i: u16| keyed_map(self.bindings@, binding_key()).dom().contains(i as u64),
            |i: u16| keyed_map(self.bindings@, binding_key())[i as u64].1,
        )
    }

    pub closed spec fn wf(&self) -> bool {
        &&& strictly_sorted_by(self.bindings@, binding_key())
        &&& forall|k: u64| #[trigger]
            keyed_map(self.bindings@, binding_key()).dom().contains(k) ==> keyed_map(
                self.bindings@,
                binding_key(),
            )[k].0 == k
    }

    /// Nothing bound.
    pub fn new() -> (d: MirrorIndexDictionary)
        ensures
            d.wf(),
            d.spec_bindings() == Map::<u16, [u8; 8]>::empty(),
    {
        let d = MirrorIndexDictionary { bindings: Vec::new() };
        assert(keyed_map(d.bindings@, binding_key()) =~= Map::<u64, (u16, [u8; 8])>::empty());
        assert(d.spec_bindings() =~= Map::<u16, [u8; 8]>::empty());
        d
    }

    /// Where the binding of `idx` sits, or would go.
    fn slot(&self, idx: u16) -> (r: (usize, bool))
        requires
            self.wf(),
        ensures
            r.0 <= self.bindings@.len(),
            forall|i: int| 0 <= i < r.0 ==> binding_key()(#[trigger] self.bindings@[i]) < idx as u64,
            r.1 ==> r.0 < self.bindings@.len() && self.bindings@[r.0 as int].0 == idx,
            !r.1 ==> forall|i: int| r.0 <= i < self.bindings@.len() ==> (idx as u64) < binding_key()(
                #[trigger] self.bindings@[i],
            ),
    {
        let n = self.bindings.len();
        let mut i = 0usize;
        while i < n
            invariant
                self.wf(),
                n == self.bindings@.len(),
                i <= n,
                forall|j: int| 0 <= j < i ==> binding_key()(#[trigger] self.bindings@[j]) < idx as u64,
            decreases n - i,
        {
            let b = self.bindings[i].0;
            if b == idx {
                return (i, true);
            }
            if b > idx {
                assert forall|j: int| i <= j < n implies (idx as u64) < binding_key()(#[trigger] self.bindings@[j]) by {
                    if j > i {
                        assert(binding_key()(self.bindings@[i as int]) < binding_key()(self.bindings@[j]));
                    }
                }
                return (i, false);
            }
            i += 1;
        }
        (i, false)
    }

    /// The id bound at `idx`, if any.
    pub fn id_of(&self, idx: u16) -> (r: Option<[u8; 8]>)
        requires
            self.wf(),
        ensures
            self.spec_bindings().dom().contains(idx) ==> r == Some(self.spec_bindings()[idx]),
            !self.spec_bindings().dom().contains(idx) ==> r is None,
    {
        let (i, found) = self.slot(idx);
        if found {
            proof {
                lemma_keyed_map_at(self.bindings@, binding_key(), i as int);
            }
            Some(self.bindings[i].1)
        } else {
            proof {
                lemma_keyed_absent(self.bindings@, binding_key(), i as int, idx as u64);
            }
            None
        }
    }

    /// The lowest index `id` is bound at, if any.
    pub fn index_bound_to(&self, id: &[u8; 8]) -> (r: Option<u16>)
        requires
            self.wf(),
        ensures
            r matches Some(i) ==> self.spec_bindings().dom().contains(i) && self.spec_bindings()[i] == *id,
            r is None ==> forall|k: u16| #[trigger]
                self.spec_bindings().dom().contains(k) ==> self.spec_bindings()[k] != *id,
    {
        let n = self.bindings.len();
        let mut i = 0usize;
        while i < n
            invariant
                self.wf(),
                n == self.bindings@.len(),
                i <= n,
                forall|j: int| 0 <= j < i ==> (#[trigger] self.bindings@[j]).1 != *id,
            decreases n - i,
        {
            if same_id(&self.bindings[i].1, id) {
                proof {
                    lemma_keyed_map_at(self.bindings@, binding_key(), i as int);
                }
                return Some(self.bindings[i].0);
            }
            i += 1;
        }
        proof {
            assert forall|k: u16| #[trigger] self.spec_bindings().dom().contains(k) implies self.spec_bindings()[k]
                != *id by {
                let j = choose|j: int|
                    0 <= j < self.bindings@.len() && binding_key()(#[trigger] self.bindings@[j]) == k as u64;
                lemma_keyed_map_at(self.bindings@, binding_key(), j);
            }
        }
        None
    }

    /// Binds `id` at `idx`, replacing what was bound there.
    pub fn bind(&mut self, idx: u16, id: [u8; 8])
        requires
            old(self).wf(),
        ensures
            final(self).wf(),
            final(self).spec_bindings() == old(self).spec_bindings().insert(idx, id),
    {
        let (i, found) = self.slot(idx);
        let ghost s = self.bindings@;
        proof {
            if found {
                lemma_keyed_update(s, binding_key(), i as int, (idx, id));
            } else {
                lemma_keyed_insert(s, binding_key(), i as int, (idx, id));
            }
        }
        if found {
            self.bindings.set(i, (idx, id));
        } else {
            self.bindings.insert(i, (idx, id));
        }
        proof {
            let m = keyed_map(self.bindings@, binding_key());
            assert(m =~= keyed_map(s, binding_key()).insert(idx as u64, (idx, id)));
            assert(self.spec_bindings() =~= old(self).spec_bindings().insert(idx, id));
        }
    }

    /// Removes the binding at `idx`; returns the id that was bound.
    pub fn unbind(&mut self, idx: u16) -> (r: Option<[u8; 8]>)
        requires
            old(self).wf(),
        ensures
            final(self).wf(),
            final(self).spec_bindings() == old(self).spec_bindings().remove(idx),
            old(self).spec_bindings().dom().contains(idx) ==> r == Some(old(self).spec_bindings()[idx]),
            !old(self).spec_bindings().dom().contains(idx) ==> r is None,
    {
        let (i, found) = self.slot(idx);
        let ghost s = self.bindings@;
        if found {
            proof {
                lemma_keyed_map_at(s, binding_key(), i as int);
                lemma_keyed_remove(s, binding_key(), i as int);
            }
            let (_, id) = self.bindings.remove(i);
            proof {
                assert(self.spec_bindings() =~= old(self).spec_bindings().remove(idx));
            }
            Some(id)
        } else {
            proof {
                lemma_keyed_absent(s, binding_key(), i as int, idx as u64);
                assert(self.spec_bindings() =~= old(self).spec_bindings().remove(idx));
            }
            None
        }
    }

    /// The bound indexes, ascending.
    pub fn bound_indexes(&self) -> (r: Vec<u16>)
        requires
            self.wf(),
        ensures
            r@.to_set() == self.spec_bindings().dom(),
            forall|i: int, j: int| 0 <= i < j < r@.len() ==> r@[i] < r@[j],
    {
        let mut out: Vec<u16> = Vec::new();
        let n = self.bindings.len();
        let mut i = 0usize;
        while i < n
            invariant
                self.wf(),
                n == self.bindings@.len(),
                i <= n,
                out@.len() == i,
                forall|j: int| 0 <= j < i ==> (#[trigger] out@[j]) == self.bindings@[j].0,
            decreases n - i,
        {
            out.push(self.bindings[i].0);
            i += 1;
        }
        proof {
            assert forall|x: u16| #[trigger] out@.to_set().contains(x) <==> self.spec_bindings().dom().contains(x) by {
                if out@.contains(x) {
                    let j = choose|j: int| 0 <= j < out@.len() && out@[j] == x;
                    lemma_keyed_map_at(self.bindings@, binding_key(), j);
                }
                if self.spec_bindings().dom().contains(x) {
                    let j = choose|j: int|
                        0 <= j < self.bindings@.len() && binding_key()(#[trigger] self.bindings@[j]) == x as u64;
                    assert(out@[j] == x);
                    assert(out@.contains(x));
                }
            }
            assert(out@.to_set() =~= self.spec_bindings().dom());
            assert forall|i: int, j: int| 0 <= i < j < out@.len() implies out@[i] < out@[j] by {
                assert(binding_key()(self.bindings@[i]) < binding_key()(self.bindings@[j]));
            }
        }
        out
    }

    /// Removes the bindings of every index in `idxs`.
    pub fn unbind_all(&mut self, idxs: &HashSet<u16>)
        requires
            old(self).wf(),
        ensures
            final(self).wf(),
            final(self).spec_bindings() == old(self).spec_bindings().remove_keys(idxs@),
    {
        let bound = self.bound_indexes();
        let ghost start = self.spec_bindings();
        let n = bound.len();
        let mut k = 0usize;
        while k < n
            invariant
                self.wf(),
                n == bound@.len(),
                k <= n,
                bound@.to_set() == start.dom(),
                self.spec_bindings() == start.remove_keys(idxs@.intersect(bound@.take(k as int).to_set())),
            decreases n - k,
        {
            let idx = bound[k];
            let ghost before = self.spec_bindings();
            if idxs.contains(&idx) {
                self.unbind(idx);
            }
            proof {
                assert(bound@.take(k as int + 1) =~= bound@.take(k as int).push(idx));
                bound@.take(k as int).lemma_push_to_set_commute(idx);
                assert(self.spec_bindings() =~= start.remove_keys(
                    idxs@.intersect(bound@.take(k as int + 1).to_set()),
                ));
            }
            k += 1;
        }
        proof {
            assert(bound@.take(n as int) =~= bound@);
            assert(start.remove_keys(idxs@.intersect(start.dom())) =~= start.remove_keys(idxs@));
        }
    }

    /// The bound indexes.
    pub fn indexes(&self) -> (r: HashSet<u16>)
        requires
            self.wf(),
        ensures
            r@ == self.spec_bindings().dom(),
    {
        broadcast use vstd::std_specs::hash::group_hash_axioms;

        let mut out: HashSet<u16> = HashSet::new();
        let n = self.bindings.len();
        let mut i = 0usize;
        while i < n
            invariant
                self.wf(),
                n == self.bindings@.len(),
                i <= n,
                forall|x: u16| #[trigger] out@.contains(x) <==> exists|j: int|
                    0 <= j < i && self.bindings@[j].0 == x,
            decreases n - i,
        {
            out.insert(self.bindings[i].0);
            i += 1;
        }
        proof {
            assert forall|x: u16| #[trigger] out@.contains(x) <==> self.spec_bindings().dom().contains(x) by {
                if out@.contains(x) {
                    let j = choose|j: int| 0 <= j < n && self.bindings@[j].0 == x;
                    lemma_keyed_map_at(self.bindings@, binding_key(), j);
                }
                if self.spec_bindings().dom().contains(x) {
                    let j = choose|j: int|
                        0 <= j < self.bindings@.len() && binding_key()(#[trigger] self.bindings@[j]) == x as u64;
                    assert(self.bindings@[j].0 == x);
                }
            }
            assert(out@ =~= self.spec_bindings().dom());
        }
        out
    }
}

/// Everything known of one neighbour.
pub struct NeighbourInfo {
    pub node_id: [u8; 8],
    pub users: MirrorIndexDictionary,
    pub nodes: MirrorIndexDictionary,
    /// the transports it is reached over, each once
    pub transports: Vec<ConnectionModule>,
    pub dump_stale: DumpStaleIndexes,
}

impl NeighbourInfo {
    /// The transports the neighbour is reached over, each once.
    pub open spec fn spec_transports(&self) -> Set<ConnectionModule> {
        self.transports@.to_set()
    }

    pub open spec fn wf(&self) -> bool {
        &&& self.users.wf()
        &&& self.nodes.wf()
        &&& self.transports@.no_duplicates()
    }

    /// A neighbour first reached over `transport`, with nothing mirrored.
    pub fn new(node_id: [u8; 8], transport: ConnectionModule) -> (n: NeighbourInfo)
        ensures
            n.wf(),
            n.node_id == node_id,
            n.spec_transports() == Set::<ConnectionModule>::empty().insert(transport),
            n.users.spec_bindings() == Map::<u16, [u8; 8]>::empty(),
            n.nodes.spec_bindings() == Map::<u16, [u8; 8]>::empty(),
            n.dump_stale.users@ == Set::<u16>::empty(),
            n.dump_stale.nodes@ == Set::<u16>::empty(),
    {
        let n = NeighbourInfo {
            node_id,
            users: MirrorIndexDictionary::new(),
            nodes: MirrorIndexDictionary::new(),
            transports: vec![transport],
            dump_stale: DumpStaleIndexes::default(),
        };
        assert(n.transports@ =~= seq![transport]);
        assert(seq![transport].to_set() =~= Set::<ConnectionModule>::empty().insert(transport)) by {
            assert(seq![transport][0] == transport);
            assert(seq![transport].contains(transport));
        }
        n
    }

    /// The mirror of a space.
    pub fn mirror(&self, space: Space) -> (m: &MirrorIndexDictionary)
        ensures
            space == Space::User ==> *m == self.users,
            space == Space::Node ==> *m == self.nodes,
    {
        match space {
            Space::User => &self.users,
            Space::Node => &self.nodes,
        }
    }

    /// Binds a mapping the neighbour announced in `space`; returns the id
    /// the neighbour had bound at that index before.
    pub fn bind_mapping(&mut self, space: Space, mapping: &Mapping) -> (previous: Option<[u8; 8]>)
        requires
            old(self).wf(),
        ensures
            final(self).wf(),
            final(self).node_id == old(self).node_id,
            final(self).transports == old(self).transports,
            space == Space::User ==> {
                &&& final(self).users.spec_bindings() == old(self).users.spec_bindings().insert(
                    mapping.abs_idx,
                    mapping.target_id,
                )
                &&& final(self).nodes == old(self).nodes
                &&& previous == (if old(self).users.spec_bindings().dom().contains(mapping.abs_idx) {
                    Some(old(self).users.spec_bindings()[mapping.abs_idx])
                } else {
                    None
                })
            },
            space == Space::Node ==> {
                &&& final(self).nodes.spec_bindings() == old(self).nodes.spec_bindings().insert(
                    mapping.abs_idx,
                    mapping.target_id,
                )
                &&& final(self).users == old(self).users
                &&& previous == (if old(self).nodes.spec_bindings().dom().contains(mapping.abs_idx) {
                    Some(old(self).nodes.spec_bindings()[mapping.abs_idx])
                } else {
                    None
                })
            },
    {
        match space {
            Space::User => {
                let previous = self.users.id_of(mapping.abs_idx);
                self.users.bind(mapping.abs_idx, mapping.target_id);
                previous
            },
            Space::Node => {
                let previous = self.nodes.id_of(mapping.abs_idx);
                self.nodes.bind(mapping.abs_idx, mapping.target_id);
                previous
            },
        }
    }

    /// Takes one INDEX_DUMP chunk announcing `user_idxs` and `node_idxs`:
    /// a first chunk marks every bound index stale, and each chunk clears
    /// the indexes it announces. Returns whether it was the last chunk.
    pub fn track_dump(&mut self, chunk_index: u8, chunk_count: u8, user_idxs: &Vec<u16>, node_idxs: &Vec<u16>) -> (is_last:
        bool)
        requires
            old(self).wf(),
        ensures
            final(self).wf(),
            final(self).users == old(self).users,
            final(self).nodes == old(self).nodes,
            final(self).node_id == old(self).node_id,
            final(self).transports == old(self).transports,
            final(self).dump_stale.users@ == stale_after_chunk(
                old(self).dump_stale.users@,
                chunk_index == 0,
                old(self).users.spec_bindings().dom(),
                user_idxs@.to_set(),
            ),
            final(self).dump_stale.nodes@ == stale_after_chunk(
                old(self).dump_stale.nodes@,
                chunk_index == 0,
                old(self).nodes.spec_bindings().dom(),
                node_idxs@.to_set(),
            ),
            is_last == (chunk_index + 1 >= chunk_count),
    {
        let bound_users = self.users.bound_indexes();
        let bound_nodes = self.nodes.bound_indexes();
        self.dump_stale.track_chunk(chunk_index, chunk_count, &bound_users, &bound_nodes, user_idxs, node_idxs)
    }

    /// Drops the mirror bindings a finished dump left stale: those the
    /// neighbour no longer announces.
    pub fn prune_stale_mirror(&mut self)
        requires
            old(self).wf(),
        ensures
            final(self).wf(),
            final(self).users.spec_bindings() == old(self).users.spec_bindings().remove_keys(
                old(self).dump_stale.users@,
            ),
            final(self).nodes.spec_bindings() == old(self).nodes.spec_bindings().remove_keys(
                old(self).dump_stale.nodes@,
            ),
            final(self).dump_stale.users@ == Set::<u16>::empty(),
            final(self).dump_stale.nodes@ == Set::<u16>::empty(),
            final(self).node_id == old(self).node_id,
            final(self).transports == old(self).transports,
    {
        let (users, nodes) = self.dump_stale.take_stale();
        self.users.unbind_all(&users);
        self.nodes.unbind_all(&nodes);
    }

    /// Whether the neighbour is reached over `transport`.
    pub fn has_transport(&self, transport: ConnectionModule) -> (r: bool)
        ensures
            r == self.spec_transports().contains(transport),
    {
        let mut i = 0usize;
        while i < self.transports.len()
            invariant
                i <= self.transports@.len(),
                forall|j: int| 0 <= j < i ==> self.transports@[j] != transport,
            decreases self.transports@.len() - i,
        {
            if self.transports[i] == transport {
                proof {
                    assert(self.transports@.contains(transport));
                }
                return true;
            }
            i += 1;
        }
        false
    }

    /// The number of transports the neighbour is reached over.
    pub fn transport_count(&self) -> (n: usize)
        requires
            self.wf(),
        ensures
            n == self.spec_transports().len(),
    {
        proof {
            self.transports@.unique_seq_to_set();
        }
        self.transports.len()
    }

    /// Records that the neighbour is reached over `transport`; returns
    /// whether it was not before.
    pub fn add_transport(&mut self, transport: ConnectionModule) -> (new: bool)
        requires
            old(self).wf(),
        ensures
            final(self).wf(),
            new == !old(self).spec_transports().contains(transport),
            final(self).spec_transports() == old(self).spec_transports().insert(transport),
            final(self).node_id == old(self).node_id,
            final(self).users == old(self).users,
            final(self).nodes == old(self).nodes,
    {
        if self.has_transport(transport) {
            proof {
                assert(self.spec_transports() =~= self.spec_transports().insert(transport));
            }
            return false;
        }
        let ghost before = self.transports@;
        self.transports.push(transport);
        proof {
            before.lemma_push_to_set_commute(transport);
            assert(!before.contains(transport));
        }
        true
    }

    /// Records that the neighbour is no longer reached over `transport`;
    /// returns whether it is now reached over none.
    pub fn remove_transport(&mut self, transport: ConnectionModule) -> (now_empty: bool)
        requires
            old(self).wf(),
        ensures
            final(self).wf(),
            final(self).spec_transports() == old(self).spec_transports().remove(transport),
            now_empty == (final(self).spec_transports().len() == 0),
            final(self).node_id == old(self).node_id,
            final(self).users == old(self).users,
            final(self).nodes == old(self).nodes,
    {
        let ghost before = self.transports@;
        let mut kept: Vec<ConnectionModule> = Vec::new();
        let mut i = 0usize;
        while i < self.transports.len()
            invariant
                self.transports@ == before,
                before.no_duplicates(),
                i <= before.len(),
                kept@.no_duplicates(),
                forall|t: ConnectionModule| #[trigger] kept@.contains(t) <==> (exists|j: int|
                    0 <= j < i && before[j] == t) && t != transport,
            decreases before.len() - i,
        {
            let t = self.transports[i];
            if t != transport {
                proof {
                    assert(!kept@.contains(t)) by {
                        if kept@.contains(t) {
                            let j = choose|j: int| 0 <= j < i && before[j] == t;
                            assert(before[j] == before[i as int]);
                        }
                    }
                }
                let ghost k0 = kept@;
                kept.push(t);
                proof {
                    assert forall|u: ConnectionModule| #[trigger] kept@.contains(u) <==> (exists|j: int|
                        0 <= j < i + 1 && before[j] == u) && u != transport by {
                        if kept@.contains(u) {
                            let p = choose|p: int| 0 <= p < kept@.len() && kept@[p] == u;
                            if p < k0.len() {
                                assert(k0.contains(u));
                            }
                        }
                        if (exists|j: int| 0 <= j < i + 1 && before[j] == u) && u != transport {
                            let j = choose|j: int| 0 <= j < i + 1 && before[j] == u;
                            if j < i {
                                assert(k0.contains(u));
                                let p = choose|p: int| 0 <= p < k0.len() && k0[p] == u;
                                assert(kept@[p] == u);
                            } else {
                                assert(kept@[k0.len() as int] == u);
                            }
                        }
                    }
                }
            }
            i += 1;
        }
        self.transports = kept;
        proof {
            assert(self.spec_transports() =~= before.to_set().remove(transport)) by {
                assert forall|u: ConnectionModule| #[trigger] self.spec_transports().contains(u)
                    == before.to_set().remove(transport).contains(u) by {
                    if before.to_set().contains(u) {
                        let j = choose|j: int| 0 <= j < before.len() && before[j] == u;
                    }
                }
            }
            self.transports@.unique_seq_to_set();
        }
        self.transports.len() == 0
    }
}

} // verus!
