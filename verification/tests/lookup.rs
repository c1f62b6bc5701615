use qaul_router::codec::messages::ManifestEntry;
use qaul_router::lookup::{next_hop_for_user, GatewayRoute};
use qaul_router::sphere::{desired_propagation_form, holds_foreign_delegation, ConnectionModule, PropagationForm};

fn gw(metric: u16, hop: Option<u8>, t: ConnectionModule) -> GatewayRoute {
    GatewayRoute { metric, next_hop_id: hop.map(|b| [b; 8]), transport: t }
}

#[test]
fn the_direct_route_wins() {
    let gws = vec![gw(1, Some(9), ConnectionModule::Internet)];
    assert_eq!(
        next_hop_for_user(Some(([3; 8], ConnectionModule::Lan)), &gws),
        Some(([3; 8], ConnectionModule::Lan))
    );
}

#[test]
fn else_the_first_cheapest_gateway_route() {
    let gws = vec![
        gw(30, Some(1), ConnectionModule::Lan),
        gw(10, Some(2), ConnectionModule::Ble1m),
        gw(10, Some(3), ConnectionModule::Internet),
    ];
    assert_eq!(next_hop_for_user(None, &gws), Some(([2; 8], ConnectionModule::Ble1m)));
    assert_eq!(next_hop_for_user(None, &vec![]), None);
    let unresolved = vec![gw(5, None, ConnectionModule::Lan), gw(6, Some(4), ConnectionModule::Lan)];
    assert_eq!(next_hop_for_user(None, &unresolved), None, "the cheapest must resolve");
}

fn entry(b: u8) -> ManifestEntry {
    ManifestEntry { user_id: [b; 8], timeout: 0, entry_signature: [0; 64], profile_version: 0 }
}

#[test]
fn foreign_delegations_are_entries_of_users_not_hosted() {
    assert!(!holds_foreign_delegation(&[entry(1)], &vec![[1; 8], [2; 8]]));
    assert!(holds_foreign_delegation(&[entry(1), entry(3)], &vec![[1; 8]]));
    assert!(!holds_foreign_delegation(&[], &vec![]));
}

#[test]
fn propagation_form_follows_the_triggers() {
    assert_eq!(desired_propagation_form(&vec![[1; 8]], false, &[entry(1)]), PropagationForm::User);
    assert_eq!(desired_propagation_form(&vec![[1; 8], [2; 8]], false, &[]), PropagationForm::Node);
    assert_eq!(desired_propagation_form(&vec![[1; 8]], true, &[]), PropagationForm::Node);
    assert_eq!(desired_propagation_form(&vec![[1; 8]], false, &[entry(2)]), PropagationForm::Node);
    assert_eq!(desired_propagation_form(&vec![], false, &[]), PropagationForm::User);
}

#[test]
fn unknown_user_returns_none() {
    assert_eq!(next_hop_for_user(None, &vec![]), None);
}

#[test]
fn known_user_with_no_routing_data_returns_none() {
    assert_eq!(next_hop_for_user(None, &vec![]), None);
}

#[test]
fn direct_routing_entry_resolves_next_hop_and_transport() {
    assert_eq!(
        next_hop_for_user(Some(([9; 8], ConnectionModule::Lan)), &vec![]),
        Some(([9; 8], ConnectionModule::Lan))
    );
}

#[test]
fn gateway_fallback_picks_lowest_metric() {
    let gws = vec![gw(30, Some(11), ConnectionModule::Lan), gw(10, Some(21), ConnectionModule::Internet)];
    assert_eq!(next_hop_for_user(None, &gws), Some(([21; 8], ConnectionModule::Internet)));
}

#[test]
fn direct_hop_beats_cheaper_gateway_routes() {
    let gws = vec![gw(5, Some(11), ConnectionModule::Internet)];
    assert_eq!(
        next_hop_for_user(Some(([50; 8], ConnectionModule::Lan)), &gws),
        Some(([50; 8], ConnectionModule::Lan))
    );
}

#[test]
fn dangling_direct_entry_falls_through_to_gateway() {
    let gws = vec![gw(5, Some(11), ConnectionModule::Internet)];
    assert_eq!(next_hop_for_user(None, &gws), Some(([11; 8], ConnectionModule::Internet)));
}

#[test]
fn dangling_gateway_is_skipped() {
    let gws = vec![gw(30, Some(11), ConnectionModule::Lan)];
    assert_eq!(next_hop_for_user(None, &gws), Some(([11; 8], ConnectionModule::Lan)));
}

#[test]
fn gateway_with_no_routing_entry_is_skipped() {
    let gws = vec![gw(5, Some(11), ConnectionModule::Lan)];
    assert_eq!(next_hop_for_user(None, &gws), Some(([11; 8], ConnectionModule::Lan)));
}
