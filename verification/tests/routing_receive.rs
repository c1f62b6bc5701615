use std::collections::HashMap;

use qaul_router::error::RoutingV2Error;
use qaul_router::inbound::{apply_entry, EntryStep};
use qaul_router::records::{NodeRecord, Records, UserRecord};
use qaul_router::indexes::Indexes;
use qaul_router::mirror::NeighbourInfo;
use qaul_router::receive::EntryArg;
use qaul_router::seq::SeqNum;
use qaul_router::sphere::{ConnectionModule, Space};
use qaul_router::table::{RoutingEntry, RoutingTable};

const NEIGHBOUR_NODE_ID: [u8; 8] = [77; 8];
const NEIGHBOUR_IDX_IN_NODE_DICT: u16 = 500;

/// What the receive path of a node reads and writes: its indexes and
/// table, the mirror of each neighbour, and the records of known targets.
struct Receiver {
    indexes: Indexes,
    table: RoutingTable<RoutingEntry>,
    mirrors: HashMap<u32, NeighbourInfo>,
    users: HashMap<[u8; 8], u32>,
    nodes: HashMap<[u8; 8], u32>,
    next_peer: u32,
}

/// The neighbour an update came from, over what, and when.
struct ReceiveCtx {
    neighbour: u32,
    transport: ConnectionModule,
    rssi_dbm: Option<i8>,
    now: u64,
}

fn fresh_state() -> Receiver {
    Receiver {
        indexes: Indexes::new(),
        table: RoutingTable::new(),
        mirrors: HashMap::new(),
        users: HashMap::new(),
        nodes: HashMap::new(),
        next_peer: 1,
    }
}

fn default_ctx(peer: u32, now: u64) -> ReceiveCtx {
    ReceiveCtx { neighbour: peer, transport: ConnectionModule::Lan, rssi_dbm: None, now }
}

fn wire_entry(abs_idx: u16, seq: u16, metric: u16, hop_count: u8, local_only: bool) -> EntryArg {
    EntryArg { abs_idx, seq, metric, hop_count, local_only }
}

impl Receiver {
    fn add_neighbour(&mut self, node_id: [u8; 8]) -> u32 {
        let peer = self.next_peer;
        self.next_peer += 1;
        self.mirrors.insert(peer, NeighbourInfo::new(node_id, ConnectionModule::Lan));
        peer
    }

    fn bind_mirror(&mut self, peer: u32, space: Space, idx: u16, id: [u8; 8]) {
        let nm = self.mirrors.get_mut(&peer).unwrap();
        match space {
            Space::Node => nm.nodes.bind(idx, id),
            Space::User => nm.users.bind(idx, id),
        }
    }

    fn bind_own_dict(&mut self, space: Space, idx: u16, id: [u8; 8]) {
        match space {
            Space::Node => self.indexes.node_dict.bind(idx, id),
            Space::User => self.indexes.user_dict.bind(idx, id),
        }
    }

    /// Receives the entry from the neighbour: its target is translated,
    /// checked for a record, and the entry settled in the table.
    fn apply_entry(&mut self, ctx: &ReceiveCtx, space: Space, entry: EntryArg) -> Result<bool, RoutingV2Error> {
        let Some(mirror) = self.mirrors.get(&ctx.neighbour) else {
            return Ok(false);
        };
        let mut records = Records::new();
        for (id, v) in self.users.iter() {
            records.users.insert(*id, UserRecord { profile_version: *v, public_key: None, is_hosted: false });
        }
        for (id, v) in self.nodes.iter() {
            records.nodes.insert(*id, NodeRecord::stub(*v));
        }
        let mut queue = Vec::new();
        let step = apply_entry(
            &mut self.indexes,
            &mut self.table,
            &mut queue,
            &records,
            mirror,
            space,
            &entry,
            ctx.transport,
            ctx.rssi_dbm,
            ctx.now,
        )?;
        Ok(matches!(step, EntryStep::Stored(_)))
    }
}

fn setup_target(state: &mut Receiver, space: Space, abs_idx: u16, own_idx: u16, target_id: [u8; 8]) -> u32 {
    let peer = state.add_neighbour(NEIGHBOUR_NODE_ID);
    state.bind_mirror(peer, space, abs_idx, target_id);
    state.bind_own_dict(space, own_idx, target_id);
    state.bind_own_dict(Space::Node, NEIGHBOUR_IDX_IN_NODE_DICT, NEIGHBOUR_NODE_ID);
    match space {
        Space::User => state.users.insert(target_id, 0),
        Space::Node => state.nodes.insert(target_id, 0),
    };
    peer
}

#[test]
fn unknown_mapping_drops_silently() {
    let mut state = fresh_state();
    let peer = state.add_neighbour(NEIGHBOUR_NODE_ID);
    state.bind_own_dict(Space::Node, NEIGHBOUR_IDX_IN_NODE_DICT, NEIGHBOUR_NODE_ID);

    state.apply_entry(&default_ctx(peer, 1_000), Space::User, wire_entry(5, 1, 10, 1, false)).unwrap();

    assert!(state.users.len() == 0);
    assert!((0..state.table.slot_count(Space::User)).all(|i| state.table.get(Space::User, i as u16).is_none()));
}

#[test]
fn missing_user_target_record_drops() {
    let mut state = fresh_state();
    let target_id = [1; 8];
    let peer = state.add_neighbour(NEIGHBOUR_NODE_ID);
    state.bind_mirror(peer, Space::User, 5, target_id);
    state.bind_own_dict(Space::User, 42, target_id);
    state.bind_own_dict(Space::Node, NEIGHBOUR_IDX_IN_NODE_DICT, NEIGHBOUR_NODE_ID);

    state.apply_entry(&default_ctx(peer, 1_000), Space::User, wire_entry(5, 1, 10, 1, false)).unwrap();

    assert!(state.table.get(Space::User, 42).is_none());
}

#[test]
fn neighbour_node_id_not_in_node_dict_drops() {
    let mut state = fresh_state();
    let target_id = [1; 8];
    let peer = state.add_neighbour(NEIGHBOUR_NODE_ID);
    state.bind_mirror(peer, Space::User, 5, target_id);
    state.bind_own_dict(Space::User, 42, target_id);
    state.users.insert(target_id, 0);

    state.apply_entry(&default_ctx(peer, 1_000), Space::User, wire_entry(5, 1, 10, 1, false)).unwrap();

    assert!(state.table.get(Space::User, 42).is_none());
}

#[test]
fn empty_slot_accept_for_node_target_stores_entry() {
    let mut state = fresh_state();
    let target_id = [2; 8];
    let peer = setup_target(&mut state, Space::Node, 5, 42, target_id);

    state.apply_entry(&default_ctx(peer, 500), Space::Node, wire_entry(5, 1, 10, 0, false)).unwrap();

    let stored = state.table.get(Space::Node, 42).expect("slot must be occupied");
    assert_eq!(stored.target_index, 42);
}

#[test]
fn settled_entry_carries_every_field() {
    let mut state = fresh_state();
    let target_id = [1; 8];
    let peer = setup_target(&mut state, Space::User, 5, 42, target_id);

    assert!(state.apply_entry(&default_ctx(peer, 1_234), Space::User, wire_entry(5, 7, 10, 2, false)).unwrap());

    let stored = state.table.get(Space::User, 42).expect("slot must be occupied");
    assert_eq!(stored.target_index, 42);
    assert_eq!(stored.seq_num, SeqNum::from(7u16));
    assert_eq!(stored.metric, 20);
    assert_eq!(stored.next_hop, NEIGHBOUR_IDX_IN_NODE_DICT);
    assert_eq!(stored.transport, ConnectionModule::Lan);
    assert_eq!(stored.last_update, 1_234);
    assert_eq!(stored.hop_count, 3);
    assert!(!stored.local_only);
}

#[test]
fn worse_metric_at_same_seq_leaves_the_stored_entry() {
    let mut state = fresh_state();
    let target_id = [1; 8];
    let peer = setup_target(&mut state, Space::User, 5, 42, target_id);

    assert!(state.apply_entry(&default_ctx(peer, 1_000), Space::User, wire_entry(5, 7, 10, 2, false)).unwrap());
    assert!(!state.apply_entry(&default_ctx(peer, 2_000), Space::User, wire_entry(5, 7, 30, 2, false)).unwrap());
    assert_eq!(state.table.get(Space::User, 42).unwrap().last_update, 1_000);
}

#[test]
fn fresh_target_gets_an_index_and_a_mark() {
    let mut state = fresh_state();
    let target_id = [3; 8];
    let peer = state.add_neighbour(NEIGHBOUR_NODE_ID);
    state.bind_mirror(peer, Space::User, 9, target_id);
    state.bind_own_dict(Space::Node, NEIGHBOUR_IDX_IN_NODE_DICT, NEIGHBOUR_NODE_ID);
    state.users.insert(target_id, 0);

    assert!(state.apply_entry(&default_ctx(peer, 1_000), Space::User, wire_entry(9, 1, 10, 0, true)).unwrap());

    let own = state.indexes.user_dict.idx_of(&target_id).expect("target translated");
    assert!(state.table.get(Space::User, own).unwrap().local_only);
    assert_eq!(state.indexes.tracker.take_pending(Space::User), vec![own]);
}

#[test]
fn too_far_entry_allocates_nothing() {
    let mut state = fresh_state();
    let target_id = [3; 8];
    let peer = state.add_neighbour(NEIGHBOUR_NODE_ID);
    state.bind_mirror(peer, Space::User, 9, target_id);

    assert!(!state.apply_entry(&default_ctx(peer, 1_000), Space::User, wire_entry(9, 1, 10, 63, false)).unwrap());
    assert_eq!(state.indexes.user_dict.idx_of(&target_id), None);
    assert!(state.indexes.tracker.take_pending(Space::User).is_empty());
}
