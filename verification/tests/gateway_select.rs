use libp2p::identity::Keypair;
use qaul_router::delegation::{
    candidate_for, decline_remembered, eligible_gateways, has_live_subscription,
    select_delegation_target, subscribe_ack_outcome, subscribe_live, subscription_due_for_refresh,
    AckOutcome, DelegationRequest, GatewayRecord, NodeRoute, OutstandingSubscribe, Selection,
    Subscription,
};
use qaul_router::identity::{Multikey, SelfDelegation};

fn key() -> Option<Multikey> {
    Some(Keypair::generate_ed25519().public().into())
}

fn rec(id: u8, gw: bool, key: Option<Multikey>, route: Option<(u16, bool)>) -> GatewayRecord {
    GatewayRecord {
        node_id: [id; 8],
        is_gateway: gw,
        multikey: key,
        route: route.map(|(metric, local_only)| NodeRoute { metric, local_only }),
    }
}

fn sub(target: u8, timeout: u64) -> Subscription {
    Subscription { target_node_id: [target; 8], timeout, acked_at_ms: 0 }
}

#[test]
fn candidate_needs_gateway_flag_and_local_route() {
    assert!(candidate_for(rec(1, true, None, Some((5, true)))).is_some());
    assert!(candidate_for(rec(1, false, None, Some((5, true)))).is_none());
    assert!(candidate_for(rec(1, true, None, Some((5, false)))).is_none());
    assert!(candidate_for(rec(1, true, None, None)).is_none());
    assert_eq!(candidate_for(rec(1, true, None, Some((5, true)))).unwrap().metric, 5);
}

#[test]
fn eligible_gateways_sorted_by_metric_stably() {
    let rs = vec![
        rec(1, true, None, Some((30, true))),
        rec(2, false, None, Some((1, true))),
        rec(3, true, None, Some((10, true))),
        rec(4, true, None, Some((30, true))),
        rec(5, true, None, Some((2, false))),
    ];
    let ids: Vec<u8> = eligible_gateways(rs).iter().map(|c| c.node_id[0]).collect();
    assert_eq!(ids, vec![3, 1, 4]);
}

#[test]
fn refresh_window_and_liveness() {
    assert!(subscription_due_for_refresh(10_000, 5_000, 5));
    assert!(!subscription_due_for_refresh(10_001, 5_000, 5));
    assert!(subscription_due_for_refresh(u64::MAX, 1, u64::MAX));
    assert!(has_live_subscription(Some(sub(1, 100)), 99));
    assert!(!has_live_subscription(Some(sub(1, 100)), 100));
    assert!(!has_live_subscription(None, 0));
}

#[test]
fn select_waits_while_a_subscribe_is_outstanding() {
    let rs = vec![rec(1, true, key(), Some((1, true)))];
    assert!(matches!(select_delegation_target(true, &vec![], None, 60, rs, 0), Selection::Wait));
}

#[test]
fn select_picks_best_metric_not_declined() {
    let rs = vec![
        rec(1, true, key(), Some((10, true))),
        rec(2, true, key(), Some((3, true))),
        rec(3, true, key(), Some((5, true))),
    ];
    match select_delegation_target(false, &vec![[2; 8]], None, 60, rs, 0) {
        Selection::Subscribe(c) => assert_eq!(c.node_id, [3; 8]),
        other => panic!("unexpected {other:?}"),
    }
}

#[test]
fn select_fetches_missing_key_first() {
    let rs = vec![rec(1, true, None, Some((1, true))), rec(2, true, key(), Some((9, true)))];
    match select_delegation_target(false, &vec![], None, 60, rs, 0) {
        Selection::FetchKey(id) => assert_eq!(id, [1; 8]),
        other => panic!("unexpected {other:?}"),
    }
}

#[test]
fn select_keeps_a_subscription_not_yet_due() {
    let rs = vec![rec(1, true, key(), Some((1, true)))];
    let s = select_delegation_target(false, &vec![], Some(sub(1, 1_000_000)), 60, rs, 0);
    assert!(matches!(s, Selection::Wait));
}

#[test]
fn select_reissues_a_due_subscription_to_the_same_gateway() {
    let rs = vec![rec(1, true, key(), Some((1, true))), rec(2, true, key(), Some((40, true)))];
    match select_delegation_target(false, &vec![], Some(sub(2, 1_000)), 60, rs, 0) {
        Selection::Subscribe(c) => assert_eq!(c.node_id, [2; 8]),
        other => panic!("unexpected {other:?}"),
    }
}

#[test]
fn select_moves_on_when_current_gateway_stopped_qualifying() {
    let rs = vec![rec(1, true, key(), Some((1, true))), rec(2, false, key(), Some((40, true)))];
    match select_delegation_target(false, &vec![], Some(sub(2, 1_000)), 60, rs, 0) {
        Selection::Subscribe(c) => assert_eq!(c.node_id, [1; 8]),
        other => panic!("unexpected {other:?}"),
    }
}

#[test]
fn select_waits_when_no_gateway_is_open() {
    let rs = vec![rec(1, true, key(), Some((1, false)))];
    assert!(matches!(select_delegation_target(false, &vec![], None, 60, rs, 0), Selection::Wait));
}

fn outstanding(user: u8, target: u8, timeout: u64) -> OutstandingSubscribe {
    OutstandingSubscribe {
        request: DelegationRequest {
            user_id: [user; 8],
            target_node_id: [target; 8],
            delegation: SelfDelegation { timeout, entry_signature: [0; 64] },
        },
        sent_at_ms: 0,
    }
}

#[test]
fn ack_from_the_target_settles_the_subscribe() {
    match subscribe_ack_outcome(Some(outstanding(7, 2, 500)), [2; 8], true, true, 42) {
        AckOutcome::Subscribed { user_id, subscription } => {
            assert_eq!(user_id, [7; 8]);
            assert_eq!(subscription.target_node_id, [2; 8]);
            assert_eq!(subscription.timeout, 500);
            assert_eq!(subscription.acked_at_ms, 42);
        }
        other => panic!("unexpected {other:?}"),
    }
    match subscribe_ack_outcome(Some(outstanding(7, 2, 500)), [2; 8], true, false, 42) {
        AckOutcome::Declined { user_id, target_node_id, at_ms } => {
            assert_eq!(user_id, [7; 8]);
            assert_eq!(target_node_id, [2; 8]);
            assert_eq!(at_ms, 42);
        }
        other => panic!("unexpected {other:?}"),
    }
}

#[test]
fn ack_from_elsewhere_is_discarded() {
    assert!(matches!(
        subscribe_ack_outcome(Some(outstanding(7, 2, 500)), [3; 8], true, true, 42),
        AckOutcome::Discard
    ));
    assert!(matches!(
        subscribe_ack_outcome(Some(outstanding(7, 2, 500)), [2; 8], false, true, 42),
        AckOutcome::Discard
    ));
    assert!(matches!(subscribe_ack_outcome(None, [2; 8], true, true, 42), AckOutcome::Discard));
}

#[test]
fn subscribe_and_decline_expiry() {
    assert!(subscribe_live(1_000, 10_999, 10));
    assert!(!subscribe_live(1_000, 11_000, 10));
    assert!(decline_remembered(0, 299_999));
    assert!(!decline_remembered(0, 300_000));
    assert!(decline_remembered(u64::MAX - 1, u64::MAX - 1));
}

use qaul_router::delegation::broken_subscriptions;

#[test]
fn subscriptions_to_gateways_that_stopped_qualifying_are_broken() {
    let rs = vec![
        rec(1, true, None, Some((5, true))),
        rec(2, false, None, Some((5, true))),
        rec(3, true, None, Some((5, false))),
    ];
    let subs = vec![([10; 8], sub(1, 99)), ([11; 8], sub(2, 99)), ([12; 8], sub(3, 99)), ([13; 8], sub(4, 99))];
    let broken = broken_subscriptions(&subs, &rs);
    assert_eq!(broken, vec![([11; 8], [2; 8]), ([12; 8], [3; 8]), ([13; 8], [4; 8])]);
}
