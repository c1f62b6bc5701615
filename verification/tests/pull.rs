use qaul_router::pull::{
    allow_in_window, build_manifest_request, request_item, request_live, should_request_manifest,
    HeldManifest,
};
use std::collections::VecDeque;

#[test]
fn the_window_allows_up_to_the_limit_per_second() {
    let mut w = VecDeque::new();
    assert!(allow_in_window(&mut w, 1_000, 2));
    assert!(allow_in_window(&mut w, 1_500, 2));
    assert!(!allow_in_window(&mut w, 1_999, 2), "two already in the last second");
    assert_eq!(w.len(), 2);
    assert!(allow_in_window(&mut w, 2_000, 2), "the first left the window");
    assert_eq!(w, VecDeque::from(vec![1_500, 2_000]));
}

#[test]
fn a_zero_limit_allows_nothing() {
    let mut w = VecDeque::new();
    assert!(!allow_in_window(&mut w, 5, 0));
    assert!(w.is_empty());
}

#[test]
fn samples_from_the_future_stay_in_the_window() {
    let mut w = VecDeque::from(vec![9_000]);
    assert!(!allow_in_window(&mut w, 1_000, 1));
    assert_eq!(w, VecDeque::from(vec![9_000]));
}

#[test]
fn pulls_are_queued_only_for_fresher_foreign_manifests() {
    assert!(should_request_manifest(false, 3, 4, false));
    assert!(!should_request_manifest(true, 3, 4, false));
    assert!(!should_request_manifest(false, 4, 4, false));
    assert!(!should_request_manifest(false, 4, 3, false));
    assert!(!should_request_manifest(false, 3, 4, true));
    assert!(should_request_manifest(false, u32::MAX, 0, false), "versions wrap");
}

#[test]
fn request_items_say_what_we_hold() {
    let none = request_item([1; 8], None);
    assert_eq!((none.have_version, none.item_flags), (0, 1));
    assert!(none.have_none());
    let stub = request_item([1; 8], Some(HeldManifest { manifest_version: 0, has_entries: false }));
    assert_eq!((stub.have_version, stub.item_flags), (0, 1));
    let held = request_item([1; 8], Some(HeldManifest { manifest_version: 7, has_entries: true }));
    assert_eq!((held.have_version, held.item_flags), (7, 0));
    let empty_v0 = request_item([1; 8], Some(HeldManifest { manifest_version: 0, has_entries: true }));
    assert_eq!(empty_v0.item_flags, 0);
}

#[test]
fn requests_carry_at_most_255_items() {
    let origins: Vec<[u8; 8]> = (0..300u32).map(|i| [(i >> 8) as u8, i as u8, 0, 0, 0, 0, 0, 0]).collect();
    let held = vec![None; 300];
    let r = build_manifest_request(&origins, &held);
    assert_eq!(r.items.len(), 255);
    assert_eq!(r.items[254].origin_node_id, origins[254]);
    let r = build_manifest_request(&origins[..3].to_vec(), &held[..3].to_vec());
    assert_eq!(r.items.len(), 3);
}

#[test]
fn outstanding_requests_time_out() {
    assert!(request_live(1_999, 1_000, 1));
    assert!(!request_live(2_000, 1_000, 1));
    assert!(request_live(u64::MAX - 1, 5, u64::MAX), "deadlines saturate");
}
