use qaul_router::expiry::{collect_expired, is_stale};

#[test]
fn stale_means_the_window_closed_before_now() {
    assert!(!is_stale(1_000, 500, 1_500));
    assert!(is_stale(1_000, 500, 1_501));
    assert!(!is_stale(u64::MAX - 1, 500, u64::MAX), "the deadline saturates");
}

#[test]
fn expired_indexes_come_in_ascending_order() {
    let slots = vec![None, Some(0), Some(900), None, Some(100)];
    assert_eq!(collect_expired(&slots, 500, 1_000), vec![1, 4]);
    assert!(collect_expired(&vec![], 500, 1_000).is_empty());
}

const EXPIRY_MS: u64 = 35_000;

#[test]
fn entry_past_threshold_is_removed() {
    let now: u64 = 100_000;
    let slots = vec![None, None, None, None, None, Some(now - EXPIRY_MS - 1)];
    assert_eq!(collect_expired(&slots, EXPIRY_MS, now), vec![5]);
}

#[test]
fn entry_within_threshold_is_kept() {
    let now: u64 = 100_000;
    let slots = vec![None, None, None, None, None, Some(now - EXPIRY_MS + 1)];
    assert!(collect_expired(&slots, EXPIRY_MS, now).is_empty());
}

#[test]
fn entry_at_exact_boundary_is_kept() {
    let now: u64 = 100_000;
    let slots = vec![None, None, None, None, None, Some(now - EXPIRY_MS)];
    assert!(collect_expired(&slots, EXPIRY_MS, now).is_empty());
}

#[test]
fn mixed_entries_only_expired_are_removed() {
    let now: u64 = 100_000;
    let slots = vec![Some(now - EXPIRY_MS - 1), Some(now), Some(now - EXPIRY_MS - 10), Some(now - 1)];
    assert_eq!(collect_expired(&slots, EXPIRY_MS, now), vec![0, 2]);
}

#[test]
fn sweep_on_empty_state_is_a_noop() {
    assert!(collect_expired(&vec![None, None], EXPIRY_MS, 1_000_000).is_empty());
}

#[test]
fn node_space_expiry_is_independent_from_user_space() {
    let now: u64 = 100_000;
    let users = vec![Some(now)];
    let nodes = vec![Some(now - EXPIRY_MS - 1)];
    assert!(collect_expired(&users, EXPIRY_MS, now).is_empty());
    assert_eq!(collect_expired(&nodes, EXPIRY_MS, now), vec![0]);
}

use qaul_router::indexes::Indexes;
use qaul_router::sphere::Space;
use qaul_router::table::RoutingTable;
use std::sync::{Arc, Weak};
use std::time::Instant;

/// The table and indexes a sweep works on; each entry holds its last
/// update.
struct Swept {
    indexes: Indexes,
    table: RoutingTable<Arc<u64>>,
}

fn fresh_swept() -> Swept {
    Swept { indexes: Indexes::new(), table: RoutingTable::new() }
}

fn install_entry(state: &mut Swept, space: Space, idx: u16, target_id: [u8; 8], last_update: u64) -> Weak<u64> {
    let arc = Arc::new(last_update);
    let weak = Arc::downgrade(&arc);
    state.table.set(space, idx, arc);
    match space {
        Space::User => state.indexes.user_dict.bind(idx, target_id),
        Space::Node => state.indexes.node_dict.bind(idx, target_id),
    }
    weak
}

fn sweep_expired(state: &mut Swept, now: u64) {
    for space in [Space::User, Space::Node] {
        let slots: Vec<Option<u64>> = (0..state.table.slot_count(space))
            .map(|i| state.table.get(space, i as u16).map(|e| **e))
            .collect();
        let expired = collect_expired(&slots, EXPIRY_MS, now);
        state.indexes.retire_expired(&mut state.table, space, &expired, Instant::now());
    }
}

#[test]
fn expired_entry_unbinds_the_dictionary() {
    let mut state = fresh_swept();
    let now: u64 = 100_000;
    install_entry(&mut state, Space::User, 5, [1; 8], now - EXPIRY_MS - 1);

    assert_eq!(state.indexes.user_dict.id_of(5), Some([1; 8]));

    sweep_expired(&mut state, now);

    assert_eq!(state.indexes.user_dict.id_of(5), None);
    assert_eq!(state.indexes.user_dict.idx_of(&[1; 8]), None);
}

#[test]
fn expired_entry_pushes_idx_into_allocator_cooldown() {
    let mut state = fresh_swept();
    let now: u64 = 100_000;
    install_entry(&mut state, Space::User, 5, [1; 8], now - EXPIRY_MS - 1);

    assert!(!state.indexes.users_allocator.idx_in_cooldown(5));

    sweep_expired(&mut state, now);

    assert!(
        state.indexes.users_allocator.idx_in_cooldown(5),
        "released idx must enter cooldown so the allocator doesn't rebind it immediately",
    );
}

#[test]
fn expired_entry_makes_user_weak_routing_entry_dangle() {
    let mut state = fresh_swept();
    let now: u64 = 100_000;
    let weak = install_entry(&mut state, Space::User, 5, [1; 8], now - EXPIRY_MS - 1);
    let routing_entry = Some(weak.clone());

    assert!(weak.upgrade().is_some(), "weak must upgrade before sweep");

    sweep_expired(&mut state, now);

    assert!(weak.upgrade().is_none(), "weak must dangle after sweep drops the table's Arc");
    assert!(routing_entry.is_some());
}

#[test]
fn sweep_keeps_fresh_entries_and_their_bindings() {
    let mut state = fresh_swept();
    let now: u64 = 100_000;
    install_entry(&mut state, Space::Node, 7, [9; 8], now - EXPIRY_MS - 1);
    install_entry(&mut state, Space::User, 3, [1; 8], now);

    sweep_expired(&mut state, now);

    assert!(state.table.get(Space::Node, 7).is_none());
    assert!(state.table.get(Space::User, 3).is_some());
    assert!(state.indexes.node_allocator.idx_in_cooldown(7));
    assert!(!state.indexes.users_allocator.idx_in_cooldown(3));
    assert_eq!(state.indexes.user_dict.id_of(3), Some([1; 8]));
}

use qaul_router::seq::SeqNum;
use qaul_router::sphere::ConnectionModule;
use qaul_router::table::RoutingEntry;
use qaul_router::tick::sweep_expired as sweep_table;

fn entry_at(idx: u16, last_update: u64) -> RoutingEntry {
    RoutingEntry {
        target_index: idx,
        seq_num: SeqNum(1),
        metric: 5,
        next_hop: 0,
        transport: ConnectionModule::Lan,
        last_update,
        hop_count: 1,
        local_only: false,
    }
}

#[test]
fn sweep_retires_stale_entries_of_both_spaces_and_keeps_fresh_ones() {
    let now: u64 = 100_000;
    let mut indexes = Indexes::new();
    let mut table: RoutingTable<RoutingEntry> = RoutingTable::new();
    table.set(Space::User, 5, entry_at(5, now - EXPIRY_MS - 1));
    indexes.user_dict.bind(5, [1; 8]);
    table.set(Space::User, 6, entry_at(6, now));
    indexes.user_dict.bind(6, [2; 8]);
    table.set(Space::Node, 7, entry_at(7, now - EXPIRY_MS - 1));
    indexes.node_dict.bind(7, [3; 8]);

    sweep_table(&mut indexes, &mut table, now, EXPIRY_MS, Instant::now());

    assert!(table.get(Space::User, 5).is_none());
    assert_eq!(indexes.user_dict.id_of(5), None);
    assert!(indexes.users_allocator.idx_in_cooldown(5));
    assert!(table.get(Space::User, 6).is_some(), "a fresh entry stays");
    assert_eq!(indexes.user_dict.id_of(6), Some([2; 8]));
    assert!(table.get(Space::Node, 7).is_none());
    assert_eq!(indexes.node_dict.idx_of(&[3; 8]), None);
}
