use qaul_router::manifest::origin::{sweep_liveness, CarriedUser, UNREACHABLE_GRACE_MS};

fn c(b: u8, reachable: bool) -> CarriedUser {
    CarriedUser { user_id: [b; 8], reachable }
}

#[test]
fn reachable_users_restart_their_clock() {
    let (kept, expired) = sweep_liveness(&vec![c(1, true)], &vec![([1; 8], 5)], 1_000_000);
    assert_eq!(kept, vec![([1; 8], 1_000_000)]);
    assert!(expired.is_empty());
}

#[test]
fn first_unreachable_sighting_starts_the_clock() {
    let (kept, expired) = sweep_liveness(&vec![c(1, false)], &vec![], 1_000_000);
    assert_eq!(kept, vec![([1; 8], 1_000_000)]);
    assert!(expired.is_empty());
}

#[test]
fn unreachable_past_grace_is_dropped() {
    let now = 1_000_000;
    let liveness = vec![([1; 8], now - UNREACHABLE_GRACE_MS - 1), ([2; 8], now - UNREACHABLE_GRACE_MS)];
    let (kept, expired) = sweep_liveness(&vec![c(1, false), c(2, false)], &liveness, now);
    assert_eq!(expired, vec![[1; 8]]);
    assert_eq!(kept, vec![([2; 8], now - UNREACHABLE_GRACE_MS)]);
}

#[test]
fn records_of_users_no_longer_carried_are_dropped() {
    let (kept, expired) = sweep_liveness(&vec![], &vec![([9; 8], 1)], 10);
    assert!(kept.is_empty());
    assert!(expired.is_empty());
}
