use qaul_router::propagation::{
    blocked_by_split_horizon, relay_entries_for, should_propagate, RelayCandidate,
};
use qaul_router::sphere::{ConnectionModule, Space, Sphere};

fn cand(space: Space, idx: u16, next_hop: Option<[u8; 8]>, transport: ConnectionModule, gateway: bool) -> RelayCandidate {
    RelayCandidate {
        space,
        own_idx: idx,
        next_hop_id: next_hop,
        transport,
        target: space,
        target_is_gateway: gateway,
        seq: 1,
        metric: 10,
        hop_count: 4,
        local_only: true,
    }
}

#[test]
fn split_horizon_blocks_the_learning_neighbour_and_unknown_hops() {
    let c = cand(Space::User, 1, Some([7; 8]), ConnectionModule::Lan, false);
    assert!(blocked_by_split_horizon(&c, [7; 8]));
    assert!(!blocked_by_split_horizon(&c, [8; 8]));
    let unknown = cand(Space::User, 1, None, ConnectionModule::Lan, false);
    assert!(blocked_by_split_horizon(&unknown, [8; 8]));
}

#[test]
fn membrane_lets_local_entries_in_locally_and_gateways_out() {
    let local = cand(Space::Node, 1, Some([7; 8]), ConnectionModule::Lan, false);
    let internet = cand(Space::Node, 2, Some([7; 8]), ConnectionModule::Internet, true);
    assert!(should_propagate(&local, Sphere::Local));
    assert!(!should_propagate(&local, Sphere::Internet));
    assert!(!should_propagate(&internet, Sphere::Local));
    assert!(should_propagate(&internet, Sphere::Internet));
}

#[test]
fn relay_selection_filters_adjusts_and_sorts() {
    let cs = vec![
        cand(Space::User, 30, Some([1; 8]), ConnectionModule::Lan, false),
        cand(Space::User, 10, Some([1; 8]), ConnectionModule::Ble1m, false),
        cand(Space::User, 20, Some([9; 8]), ConnectionModule::Lan, false),
        cand(Space::Node, 5, Some([1; 8]), ConnectionModule::Lan, true),
        cand(Space::User, 40, Some([1; 8]), ConnectionModule::Internet, false),
    ];
    let users = relay_entries_for(&cs, Space::User, [9; 8], Sphere::Local);
    let idx: Vec<u16> = users.iter().map(|e| e.abs_idx).collect();
    assert_eq!(idx, vec![10, 30], "sorted; learnt-from and Internet entries withheld");
    assert!(users.iter().all(|e| e.local_only && e.hop_count == 4));

    let nodes = relay_entries_for(&cs, Space::Node, [9; 8], Sphere::Internet);
    assert_eq!(nodes.len(), 1);
    assert_eq!(nodes[0].abs_idx, 5);
    assert!(!nodes[0].local_only);
    assert_eq!(nodes[0].hop_count, 0, "hop count restarts across the membrane");
}

#[test]
fn node_space_entries_must_lead_to_nodes() {
    let mut c = cand(Space::Node, 5, Some([1; 8]), ConnectionModule::Lan, false);
    c.target = Space::User;
    assert!(relay_entries_for(&vec![c], Space::Node, [9; 8], Sphere::Local).is_empty());
}

#[test]
fn split_horizon_blocks_when_next_hop_is_outgoing_neighbour() {
    let entry = cand(Space::User, 1, Some([42; 8]), ConnectionModule::Lan, false);
    assert!(blocked_by_split_horizon(&entry, [42; 8]));
}

#[test]
fn split_horizon_allows_when_next_hop_is_different_neighbour() {
    let entry = cand(Space::User, 1, Some([42; 8]), ConnectionModule::Lan, false);
    assert!(!blocked_by_split_horizon(&entry, [99; 8]));
}

#[test]
fn split_horizon_blocks_when_next_hop_unresolvable() {
    let entry = cand(Space::User, 1, None, ConnectionModule::Lan, false);
    assert!(blocked_by_split_horizon(&entry, [42; 8]));
}

#[test]
fn should_propagate_local_outgoing_allows_local_learned() {
    let entry = cand(Space::User, 1, Some([7; 8]), ConnectionModule::Lan, false);
    assert!(should_propagate(&entry, Sphere::Local));
}

#[test]
fn should_propagate_local_outgoing_blocks_internet_learned() {
    let entry = cand(Space::User, 1, Some([7; 8]), ConnectionModule::Internet, false);
    assert!(!should_propagate(&entry, Sphere::Local));
}

#[test]
fn should_propagate_internet_outgoing_allows_gateway_node() {
    let entry = cand(Space::Node, 1, Some([7; 8]), ConnectionModule::Lan, true);
    assert!(should_propagate(&entry, Sphere::Internet));
}

#[test]
fn should_propagate_internet_outgoing_blocks_non_gateway_node() {
    let entry = cand(Space::Node, 1, Some([7; 8]), ConnectionModule::Lan, false);
    assert!(!should_propagate(&entry, Sphere::Internet));
}

#[test]
fn should_propagate_internet_outgoing_blocks_user_targets() {
    let entry = cand(Space::User, 1, Some([7; 8]), ConnectionModule::Internet, false);
    assert!(!should_propagate(&entry, Sphere::Internet));
}

fn queued(space: Space, own_idx: u16, next_hop: [u8; 8], target_gateway: bool, local_only: bool) -> RelayCandidate {
    RelayCandidate {
        space,
        own_idx,
        next_hop_id: Some(next_hop),
        transport: ConnectionModule::Lan,
        target: space,
        target_is_gateway: target_gateway,
        seq: 1,
        metric: 10,
        hop_count: 2,
        local_only,
    }
}

#[test]
fn empty_queue_pushes_nothing() {
    assert!(relay_entries_for(&vec![], Space::User, [77; 8], Sphere::Local).is_empty());
    assert!(relay_entries_for(&vec![], Space::Node, [77; 8], Sphere::Local).is_empty());
}

#[test]
fn queued_entry_routed_to_neighbour() {
    let mut c = queued(Space::User, 5, [88; 8], false, false);
    c.seq = 3;
    c.metric = 20;
    let out = relay_entries_for(&vec![c], Space::User, [77; 8], Sphere::Local);
    assert_eq!(out.len(), 1);
    assert_eq!(out[0].abs_idx, 5);
    assert_eq!(out[0].seq, 3);
    assert_eq!(out[0].metric, 20);
    assert_eq!(out[0].hop_count, 2);
}

#[test]
fn split_horizon_blocks_return_to_source_neighbour() {
    let cs = vec![queued(Space::User, 5, [77; 8], false, false)];
    assert!(relay_entries_for(&cs, Space::User, [77; 8], Sphere::Local).is_empty());
    assert_eq!(relay_entries_for(&cs, Space::User, [88; 8], Sphere::Local).len(), 1);
}

#[test]
fn sphere_filter_drops_user_target_on_internet_outgoing() {
    let cs = vec![queued(Space::User, 5, [88; 8], false, false)];
    assert!(relay_entries_for(&cs, Space::User, [77; 8], Sphere::Internet).is_empty());
}

#[test]
fn sphere_filter_allows_gateway_node_on_internet_outgoing() {
    let cs = vec![queued(Space::Node, 5, [88; 8], true, false)];
    assert_eq!(relay_entries_for(&cs, Space::Node, [77; 8], Sphere::Internet).len(), 1);
}

#[test]
fn local_only_stripped_for_internet_outgoing() {
    let cs = vec![queued(Space::Node, 5, [88; 8], true, true)];
    let out = relay_entries_for(&cs, Space::Node, [77; 8], Sphere::Internet);
    assert!(!out[0].local_only, "Internet-outgoing must strip local_only");
}

#[test]
fn local_only_preserved_for_local_outgoing() {
    let cs = vec![queued(Space::User, 5, [88; 8], false, true)];
    let out = relay_entries_for(&cs, Space::User, [77; 8], Sphere::Local);
    assert!(out[0].local_only);
}

#[test]
fn wire_entries_sorted_by_abs_idx() {
    let cs: Vec<RelayCandidate> = [50u16, 10, 200].iter().map(|i| queued(Space::User, *i, [88; 8], false, false)).collect();
    let idxs: Vec<u16> = relay_entries_for(&cs, Space::User, [77; 8], Sphere::Local).iter().map(|e| e.abs_idx).collect();
    assert_eq!(idxs, vec![10, 50, 200]);
}

use qaul_router::codec::messages::Mapping;
use qaul_router::propagation::{relay_update_for, unsent_introductions, IntroCandidate};

fn intro(idx: u16, id: u8, version: u32) -> IntroCandidate {
    IntroCandidate { abs_idx: idx, target_id: [id; 8], version, is_gateway: false }
}

#[test]
fn pending_introductions_attached_to_message() {
    let cs = vec![queued(Space::User, 5, [88; 8], false, false)];
    let u = relay_update_for(&vec![intro(7, 11, 3)], &vec![], &cs, [77; 8], Sphere::Local).expect("one outbound");
    assert_eq!(u.user_mappings.len(), 1);
    assert_eq!(u.user_mappings[0].abs_idx, 7);
    assert_eq!(u.user_mappings[0].target_id, [11; 8]);
    assert_eq!(u.user_mappings[0].version, 3);
    assert_eq!(u.user_entries.len(), 1);
}

#[test]
fn introductions_alone_produce_outbound() {
    let u = relay_update_for(&vec![intro(7, 11, 3)], &vec![], &vec![], [77; 8], Sphere::Local).expect("one outbound");
    assert_eq!(u.user_mappings.len(), 1);
    assert!(u.user_entries.is_empty());
}

#[test]
fn empty_batch_shortcut_suppresses_purely_empty_message() {
    let cs = vec![queued(Space::User, 5, [77; 8], false, false)];
    assert!(relay_update_for(&vec![], &vec![], &cs, [77; 8], Sphere::Local).is_none());
}

#[test]
fn multi_transport_neighbour_gets_one_message_per_transport() {
    let cs = vec![queued(Space::Node, 5, [88; 8], true, true)];
    let lan = relay_update_for(&vec![], &vec![], &cs, [77; 8], Sphere::Local).expect("lan");
    let internet = relay_update_for(&vec![], &vec![], &cs, [77; 8], Sphere::Internet).expect("internet");
    assert!(lan.node_entries[0].local_only);
    assert!(!internet.node_entries[0].local_only);
}

#[test]
fn user_introductions_do_not_cross_into_the_internet_sphere() {
    assert!(relay_update_for(&vec![intro(7, 11, 3)], &vec![], &vec![], [77; 8], Sphere::Internet).is_none());
}

#[test]
fn introductions_that_reached_nobody_are_marked_again() {
    let intros = vec![
        Mapping { abs_idx: 7, target_id: [1; 8], version: 1 },
        Mapping { abs_idx: 9, target_id: [2; 8], version: 1 },
    ];
    assert_eq!(unsent_introductions(&intros, &vec![9]), vec![7]);
    assert!(unsent_introductions(&intros, &vec![7, 9]).is_empty());
}

use qaul_router::codec::messages::RoutingUpdate;
use qaul_router::codec::Header;
use qaul_router::indexes::Indexes;
use qaul_router::tick::relay_to_pairs;

fn update_of(frame: &[u8]) -> RoutingUpdate {
    let (header, body) = Header::decode(frame).expect("frame header");
    RoutingUpdate::decode(&body[..header.payload_len as usize]).expect("routing-update body")
}

#[test]
fn relay_to_pairs_sends_each_pair_what_its_sphere_lets_through() {
    let mut indexes = Indexes::new();
    let cs = vec![queued(Space::User, 5, [88; 8], false, true), queued(Space::Node, 6, [88; 8], true, true)];
    let pairs = vec![(1u32, [77; 8], ConnectionModule::Lan), (2u32, [77; 8], ConnectionModule::Internet), (3u32, [88; 8], ConnectionModule::Lan)];
    let out = relay_to_pairs(&mut indexes, &vec![intro(7, 11, 3)], &vec![], &cs, &pairs);
    assert_eq!(out.len(), 3);
    let lan = update_of(&out[0].2);
    assert_eq!(out[0].0, 1);
    assert_eq!(lan.user_mappings.len(), 1);
    assert_eq!(lan.user_entries.len(), 1);
    assert_eq!(lan.node_entries.len(), 1);
    let internet = update_of(&out[1].2);
    assert!(internet.user_mappings.is_empty(), "user introductions stay local");
    assert!(internet.user_entries.is_empty());
    assert_eq!(internet.node_entries.len(), 1);
    assert!(!internet.node_entries[0].local_only, "Internet-outgoing must strip local_only");
    let back = update_of(&out[2].2);
    assert!(back.user_entries.is_empty() && back.node_entries.is_empty(), "split horizon");
    assert_eq!(back.user_mappings.len(), 1);
    assert!(indexes.tracker.take_pending(Space::User).is_empty(), "introduced somewhere: not marked again");
}

#[test]
fn relay_to_pairs_marks_again_what_reached_nobody() {
    let mut indexes = Indexes::new();
    let pairs = vec![(1u32, [77; 8], ConnectionModule::Internet)];
    let out = relay_to_pairs(&mut indexes, &vec![intro(7, 11, 3)], &vec![], &vec![], &pairs);
    assert!(out.is_empty(), "nothing to send over the Internet");
    assert_eq!(indexes.tracker.take_pending(Space::User), vec![7]);
    let mut none = Indexes::new();
    let out = relay_to_pairs(&mut none, &vec![intro(4, 1, 1)], &vec![], &vec![], &Vec::<(u32, [u8; 8], ConnectionModule)>::new());
    assert!(out.is_empty());
    assert_eq!(none.tracker.take_pending(Space::User), vec![4]);
}

use qaul_router::records::{Records, UserRecord};
use qaul_router::seq::SeqNum;
use qaul_router::table::{RoutingEntry, RoutingTable};
use qaul_router::tick::{enqueue, tick_relay};
use std::time::Instant;

const EXPIRY_MS: u64 = 35_000;

struct Relay {
    indexes: Indexes,
    table: RoutingTable<RoutingEntry>,
    records: Records,
    queue: Vec<(Space, u16)>,
    pairs: Vec<(u32, [u8; 8], ConnectionModule)>,
}

fn fresh_relay() -> Relay {
    let mut indexes = Indexes::new();
    indexes.node_dict.bind(501, [88; 8]);
    Relay {
        indexes,
        table: RoutingTable::new(),
        records: Records::new(),
        queue: Vec::new(),
        pairs: vec![(1, [77; 8], ConnectionModule::Lan)],
    }
}

fn queue_user_entry(r: &mut Relay, own_idx: u16, id: [u8; 8], last_update: u64, local_only: bool) {
    r.records.users.insert(id, UserRecord { profile_version: 0, public_key: None, is_hosted: false });
    r.indexes.user_dict.bind(own_idx, id);
    r.table.set(
        Space::User,
        own_idx,
        RoutingEntry {
            target_index: own_idx,
            seq_num: SeqNum(1),
            metric: 10,
            next_hop: 501,
            transport: ConnectionModule::Lan,
            last_update,
            hop_count: 1,
            local_only,
        },
    );
    enqueue(&mut r.queue, Space::User, own_idx);
}

fn relay(r: &mut Relay, now_ms: u64) -> Vec<(u32, ConnectionModule, Vec<u8>)> {
    tick_relay(&mut r.indexes, &mut r.table, &r.records, &mut r.queue, &r.pairs, now_ms, EXPIRY_MS, Instant::now())
}

#[test]
fn relay_queue_drained_after_tick() {
    let mut r = fresh_relay();
    queue_user_entry(&mut r, 5, [1; 8], 5_000, false);
    assert_eq!(r.queue.len(), 1);
    let out = relay(&mut r, 5_000);
    assert!(r.queue.is_empty());
    assert_eq!(out.len(), 1);
    assert!(relay(&mut r, 5_000).is_empty(), "a drained queue relays nothing");
}

#[test]
fn tick_relay_sorts_queued_entries_by_index() {
    let mut r = fresh_relay();
    for (i, own_idx) in [50u16, 10, 200].iter().enumerate() {
        queue_user_entry(&mut r, *own_idx, [i as u8 + 1; 8], 5_000, false);
    }
    enqueue(&mut r.queue, Space::User, 10);
    assert_eq!(r.queue.len(), 3, "a slot is queued once");
    let out = relay(&mut r, 5_000);
    let idxs: Vec<u16> = update_of(&out[0].2).user_entries.iter().map(|e| e.abs_idx).collect();
    assert_eq!(idxs, vec![10, 50, 200]);
}

#[test]
fn tick_relay_sweeps_stale_entries_before_relaying() {
    let mut r = fresh_relay();
    queue_user_entry(&mut r, 5, [1; 8], 1_000, true);
    queue_user_entry(&mut r, 6, [2; 8], 100_000, true);
    let out = relay(&mut r, 100_000);
    let update = update_of(&out[0].2);
    let idxs: Vec<u16> = update.user_entries.iter().map(|e| e.abs_idx).collect();
    assert_eq!(idxs, vec![6], "the stale slot is retired, not relayed");
    assert!(update.user_entries[0].local_only);
    assert!(r.table.get(Space::User, 5).is_none());
}

#[test]
fn tick_relay_withholds_entries_from_the_neighbour_they_came_from() {
    let mut r = fresh_relay();
    r.pairs = vec![(1, [88; 8], ConnectionModule::Lan)];
    queue_user_entry(&mut r, 5, [1; 8], 5_000, false);
    assert!(relay(&mut r, 5_000).is_empty());
}
