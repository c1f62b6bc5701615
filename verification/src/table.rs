//! The routing table's containers: one slot per index in each index
//! space, and the records of known users and nodes by id.

use vstd::prelude::*;

use std::collections::HashMap;

use vstd::std_specs::hash::spec_keys_iter;
use vstd::std_specs::iter::IteratorSpec;

use crate::keyed::{id_key, spec_id_key};
use crate::seq::SeqNum;
use crate::sphere::{ConnectionModule, Space};

verus! {

/// The number of indexes in an index space.
pub const INDEX_SPACE: usize = 65_536;

/// A route the table holds. Its target is what the dictionary of the
/// slot's space binds at `target_index`.
#[derive(Debug, Clone, Copy)]
pub struct RoutingEntry {
    /// the index of the target in its space
    pub target_index: u16,
    /// the origin's sequence number
    pub seq_num: SeqNum,
    pub metric: u16,
    /// the node index, in this node's dictionary, of the neighbour that is
    /// the next hop
    pub next_hop: u16,
    /// the transport the entry was received over
    pub transport: ConnectionModule,
    /// when it was received, in ms
    pub last_update: u64,
    pub hop_count: u8,
    pub local_only: bool,
}

/// One slot per index in each space, holding the entry for that index's
/// target, if any.
pub struct RoutingTable<T> {
    user_entries: Vec<Option<T>>,
    node_entries: Vec<Option<T>>,
}

impl<T> RoutingTable<T> {
    /// The slots of a space.
    pub closed spec fn slots(&self, space: Space) -> Seq<Option<T>> {
        match space {
            Space::User => self.user_entries@,
            Space::Node => self.node_entries@,
        }
    }

    pub closed spec fn wf(&self) -> bool {
        &&& self.user_entries@.len() == INDEX_SPACE
        &&& self.node_entries@.len() == INDEX_SPACE
    }

    /// A well-formed table has a slot for every index of each space.
    pub proof fn lemma_slot_counts(&self)
        requires
            self.wf(),
        ensures
            self.slots(Space::User).len() == INDEX_SPACE,
            self.slots(Space::Node).len() == INDEX_SPACE,
    {
    }

    /// A table with every slot of both spaces empty.
    pub fn new() -> (t: RoutingTable<T>)
        ensures
            t.wf(),
            forall|i: int| 0 <= i < INDEX_SPACE ==> (#[trigger] t.slots(Space::User)[i]) is None,
            forall|i: int| 0 <= i < INDEX_SPACE ==> (#[trigger] t.slots(Space::Node)[i]) is None,
    {
        let mut user_entries: Vec<Option<T>> = Vec::new();
        let mut node_entries: Vec<Option<T>> = Vec::new();
        let mut i = 0usize;
        while i < INDEX_SPACE
            invariant
                i <= INDEX_SPACE,
                user_entries@.len() == i,
                node_entries@.len() == i,
                forall|j: int| 0 <= j < i ==> (#[trigger] user_entries@[j]) is None,
                forall|j: int| 0 <= j < i ==> (#[trigger] node_entries@[j]) is None,
            decreases INDEX_SPACE - i,
        {
            user_entries.push(None);
            node_entries.push(None);
            i += 1;
        }
        RoutingTable { user_entries, node_entries }
    }

    /// The number of slots of a space.
    pub fn slot_count(&self, space: Space) -> (n: usize)
        ensures
            n == self.slots(space).len(),
    {
        match space {
            Space::User => self.user_entries.len(),
            Space::Node => self.node_entries.len(),
        }
    }

    /// The entry at `idx` of `space`, if any.
    pub fn get(&self, space: Space, idx: u16) -> (r: Option<&T>)
        requires
            self.wf(),
        ensures
            match self.slots(space)[idx as int] {
                Some(e) => r == Some(&e),
                None => r is None,
            },
    {
        match space {
            Space::User => self.user_entries[idx as usize].as_ref(),
            Space::Node => self.node_entries[idx as usize].as_ref(),
        }
    }

    /// Puts `entry` at `idx` of `space`, replacing what was there.
    pub fn set(&mut self, space: Space, idx: u16, entry: T)
        requires
            old(self).wf(),
        ensures
            final(self).wf(),
            final(self).slots(space) == old(self).slots(space).update(idx as int, Some(entry)),
            forall|other: Space| other != space ==> final(self).slots(other) == old(self).slots(other),
    {
        match space {
            Space::User => self.user_entries.set(idx as usize, Some(entry)),
            Space::Node => self.node_entries.set(idx as usize, Some(entry)),
        }
    }

    /// Empties the slot at `idx` of `space`; returns what it held.
    pub fn clear(&mut self, space: Space, idx: u16) -> (r: Option<T>)
        requires
            old(self).wf(),
        ensures
            final(self).wf(),
            r == old(self).slots(space)[idx as int],
            final(self).slots(space) == old(self).slots(space).update(idx as int, None),
            forall|other: Space| other != space ==> final(self).slots(other) == old(self).slots(other),
    {
        match space {
            Space::User => self.user_entries[idx as usize].take(),
            Space::Node => self.node_entries[idx as usize].take(),
        }
    }
}

/// Records by 8-byte id: the users or nodes the table knows, in a hash
/// map keyed by the big-endian value of the id.
pub struct IdMap<T> {
    records: HashMap<u64, ([u8; 8], T)>,
}

impl<T> View for IdMap<T> {
    type V = Map<u64, ([u8; 8], T)>;

    /// The records by the key of their id.
    closed spec fn view(&self) -> Map<u64, ([u8; 8], T)> {
        self.records@
    }
}

impl<T> IdMap<T> {
    /// Each record sits under the key of its own id.
    pub closed spec fn wf(&self) -> bool {
        forall|k: u64| #[trigger] self.records@.dom().contains(k) ==> spec_id_key(self.records@[k].0) == k
    }

    /// Each record of a well-formed map sits under the key of its id.
    pub proof fn lemma_keys_match(&self)
        requires
            self.wf(),
        ensures
            forall|k: u64| #[trigger] self@.dom().contains(k) ==> spec_id_key(self@[k].0) == k,
    {
    }

    /// No records.
    pub fn new() -> (m: IdMap<T>)
        ensures
            m.wf(),
            m@ == Map::<u64, ([u8; 8], T)>::empty(),
    {
        IdMap { records: HashMap::new() }
    }

    /// The number of records.
    pub fn len(&self) -> (n: usize)
        requires
            self.wf(),
        ensures
            n == self@.dom().len(),
    {
        broadcast use vstd::std_specs::hash::group_hash_axioms;

        self.records.len()
    }

    /// The record of `id`, if any.
    pub fn get(&self, id: &[u8; 8]) -> (r: Option<&T>)
        requires
            self.wf(),
        ensures
            self@.dom().contains(spec_id_key(*id)) ==> r == Some(&self@[spec_id_key(*id)].1),
            !self@.dom().contains(spec_id_key(*id)) ==> r is None,
    {
        broadcast use vstd::std_specs::hash::group_hash_axioms;

        let k = id_key(id);
        match self.records.get(&k) {
            Some(e) => Some(&e.1),
            None => None,
        }
    }

    /// Whether there is a record of `id`.
    pub fn contains(&self, id: &[u8; 8]) -> (r: bool)
        requires
            self.wf(),
        ensures
            r == self@.dom().contains(spec_id_key(*id)),
    {
        self.get(id).is_some()
    }

    /// Puts the record of `id`, replacing any previous one.
    pub fn insert(&mut self, id: [u8; 8], value: T)
        requires
            old(self).wf(),
        ensures
            final(self).wf(),
            final(self)@ == old(self)@.insert(spec_id_key(id), (id, value)),
    {
        broadcast use vstd::std_specs::hash::group_hash_axioms;

        let k = id_key(&id);
        let _ = self.records.insert(k, (id, value));
    }

    /// Removes the record of `id`; returns it.
    pub fn remove(&mut self, id: &[u8; 8]) -> (r: Option<T>)
        requires
            old(self).wf(),
        ensures
            final(self).wf(),
            final(self)@ == old(self)@.remove(spec_id_key(*id)),
            old(self)@.dom().contains(spec_id_key(*id)) ==> r == Some(old(self)@[spec_id_key(*id)].1),
            !old(self)@.dom().contains(spec_id_key(*id)) ==> r is None,
    {
        broadcast use vstd::std_specs::hash::group_hash_axioms;

        let k = id_key(id);
        match self.records.remove(&k) {
            Some(e) => Some(e.1),
            None => None,
        }
    }

    /// The ids of all records, each once, in the order the map walks them.
    pub fn ids(&self) -> (r: Vec<[u8; 8]>)
        requires
            self.wf(),
        ensures
            r@.no_duplicates(),
            r@.len() == self@.dom().len(),
            forall|i: int| 0 <= i < r@.len() ==> self@.dom().contains(spec_id_key(#[trigger] r@[i])),
            forall|k: u64| #[trigger] self@.dom().contains(k) ==> exists|i: int|
                0 <= i < r@.len() && spec_id_key(#[trigger] r@[i]) == k,
    {
        broadcast use vstd::std_specs::hash::group_hash_axioms;

        let ghost keys = IteratorSpec::remaining(&spec_keys_iter(&self.records)).unref();
        let mut out: Vec<[u8; 8]> = Vec::new();
        for k in it: self.records.keys()
            invariant
                self.wf(),
                out@.len() == it.index(),
                it.seq() == IteratorSpec::remaining(&spec_keys_iter(&self.records)),
                keys == it.seq().unref(),
                forall|j: int| 0 <= j < it.index() ==> (#[trigger] out@[j]) == self.records@[keys[j]].0,
        {
            assert(self.records@.dom().contains(*k));
            let e = self.records.get(k);
            match e {
                Some(e) => out.push(e.0),
                None => {},
            }
        }
        proof {
            assert forall|j: int| 0 <= j < out@.len() implies self.records@.dom().contains(keys[j])
                && spec_id_key(#[trigger] out@[j]) == keys[j] by {
                assert(keys.to_set().contains(keys[j]));
            }
            assert forall|i: int, j: int| 0 <= i < out@.len() && 0 <= j < out@.len() && i != j implies out@[i]
                != out@[j] by {
                assert(spec_id_key(out@[i]) == keys[i]);
                assert(spec_id_key(out@[j]) == keys[j]);
            }
            assert forall|k: u64| #[trigger] self@.dom().contains(k) implies exists|i: int|
                0 <= i < out@.len() && spec_id_key(#[trigger] out@[i]) == k by {
                assert(keys.to_set().contains(k));
                let i = choose|i: int| 0 <= i < keys.len() && keys[i] == k;
                assert(spec_id_key(out@[i]) == k);
            }
        }
        out
    }
}

} // verus!
