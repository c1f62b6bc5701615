use qaul_router::lookup::cheapest_transport;
use qaul_router::propagation::pending_introductions;
use qaul_router::sphere::ConnectionModule;

#[test]
fn pending_introductions_sorted_and_orphans_skipped() {
    let pending = vec![7u16, 2, 9, 4];
    let targets = vec![Some(([7; 8], 70)), None, Some(([9; 8], 90)), Some(([4; 8], 40))];
    let ms = pending_introductions(&pending, &targets);
    let idxs: Vec<u16> = ms.iter().map(|m| m.abs_idx).collect();
    assert_eq!(idxs, vec![4, 7, 9]);
    assert_eq!(ms[0].target_id, [4; 8]);
    assert_eq!(ms[0].version, 40);
    assert_eq!(ms[2].version, 90);
}

#[test]
fn pending_introductions_empty_when_no_marks() {
    assert!(pending_introductions(&vec![], &vec![]).is_empty());
}

#[test]
fn cheapest_transport_prefers_lowest_hop_cost() {
    assert_eq!(cheapest_transport(&vec![]), None);
    let ts = vec![ConnectionModule::Ble1m, ConnectionModule::Internet, ConnectionModule::Lan];
    assert_eq!(cheapest_transport(&ts), Some(ConnectionModule::Lan));
    let ts = vec![ConnectionModule::BleCoded, ConnectionModule::Ble1m];
    assert_eq!(cheapest_transport(&ts), Some(ConnectionModule::Ble1m));
}

#[test]
fn pending_introductions_returns_marked_user_with_correct_version() {
    let out = pending_introductions(&vec![7], &vec![Some(([3; 8], 42))]);
    assert_eq!(out.len(), 1);
    assert_eq!((out[0].abs_idx, out[0].target_id, out[0].version), (7, [3; 8], 42));
}

#[test]
fn pending_introductions_returns_marked_node_with_correct_version() {
    let out = pending_introductions(&vec![8], &vec![Some(([4; 8], 99))]);
    assert_eq!((out[0].abs_idx, out[0].target_id, out[0].version), (8, [4; 8], 99));
}

#[test]
fn pending_introductions_results_sorted_by_index() {
    let idxs = vec![50u16, 10, 200, 30, 80];
    let targets: Vec<Option<([u8; 8], u32)>> = (0..5).map(|i| Some(([i as u8 + 1; 8], i as u32))).collect();
    let out = pending_introductions(&idxs, &targets);
    let returned: Vec<u16> = out.iter().map(|m| m.abs_idx).collect();
    let mut expected = idxs.clone();
    expected.sort();
    assert_eq!(returned, expected);
}

#[test]
fn pending_introductions_skips_orphan_with_no_dict_binding() {
    assert!(pending_introductions(&vec![42], &vec![None]).is_empty());
}

#[test]
fn pending_introductions_skips_orphan_with_no_record() {
    assert!(pending_introductions(&vec![42], &vec![None]).is_empty());
}

#[test]
fn pending_introductions_mixed_healthy_and_orphan() {
    let out = pending_introductions(&vec![10, 99], &vec![Some(([1; 8], 7)), None]);
    assert_eq!(out.len(), 1);
    assert_eq!((out[0].abs_idx, out[0].target_id, out[0].version), (10, [1; 8], 7));
}

use qaul_router::indexes::Indexes;
use qaul_router::sphere::Space;
use std::collections::HashMap;

/// Drains the marks of `space` and resolves them through the dictionary
/// and the records' versions.
fn drain_introductions(
    indexes: &mut Indexes,
    versions: &HashMap<[u8; 8], u32>,
    space: Space,
) -> Vec<(u16, [u8; 8], u32)> {
    let pending = indexes.tracker.take_pending(space);
    let targets: Vec<Option<([u8; 8], u32)>> = pending
        .iter()
        .map(|idx| {
            let id = match space {
                Space::User => indexes.user_dict.id_of(*idx),
                Space::Node => indexes.node_dict.id_of(*idx),
            }?;
            versions.get(&id).map(|v| (id, *v))
        })
        .collect();
    pending_introductions(&pending, &targets)
        .into_iter()
        .map(|m| (m.abs_idx, m.target_id, m.version))
        .collect()
}

#[test]
fn pending_introductions_drains_only_requested_space() {
    let mut indexes = Indexes::new();
    let mut versions = HashMap::new();

    let user_id = [1; 8];
    versions.insert(user_id, 5);
    indexes.user_dict.bind(10, user_id);

    let node_id = [2; 8];
    versions.insert(node_id, 6);
    indexes.node_dict.bind(20, node_id);

    indexes.tracker.mark(Space::User, 10);
    indexes.tracker.mark(Space::Node, 20);

    let users = drain_introductions(&mut indexes, &versions, Space::User);
    assert_eq!(users, vec![(10, user_id, 5)]);

    let nodes = drain_introductions(&mut indexes, &versions, Space::Node);
    assert_eq!(nodes, vec![(20, node_id, 6)]);
}

#[test]
fn pending_introductions_second_call_returns_empty_after_drain() {
    let mut indexes = Indexes::new();
    let mut versions = HashMap::new();
    let id = [9; 8];
    versions.insert(id, 1);
    indexes.user_dict.bind(3, id);
    indexes.tracker.mark(Space::User, 3);

    let first = drain_introductions(&mut indexes, &versions, Space::User);
    assert!(!first.is_empty(), "first call should drain the mark");

    let second = drain_introductions(&mut indexes, &versions, Space::User);
    assert!(second.is_empty(), "second call should be empty after drain");
}
