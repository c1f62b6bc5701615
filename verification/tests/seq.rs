use qaul_router::seq::{is_fresher_u32, Acceptance, SeqNum};

fn is_fresher(new: u16, old: u16) -> bool {
    SeqNum::from(old).is_fresher(SeqNum::from(new))
}

fn is_reboot(new: u16, old: u16) -> bool {
    SeqNum::from(old).is_reboot(SeqNum::from(new))
}

fn acceptance(new: u16, old: u16) -> Acceptance {
    SeqNum::from(old).acceptance(SeqNum::from(new))
}

#[test]
fn is_fresher_handles_wrap_from_max_to_zero() {
    assert!(is_fresher(0, 65_535));
}

#[test]
fn is_fresher_normal_increment() {
    assert!(is_fresher(1, 0));
    assert!(is_fresher(100, 99));
}

#[test]
fn is_fresher_at_half_space_upper_edge() {
    assert!(is_fresher(32_767, 0));
}

#[test]
fn is_fresher_past_half_space_is_not_fresher() {
    assert!(!is_fresher(32_768, 0));
}

#[test]
fn is_fresher_equal_is_not_fresher() {
    for x in [0u16, 1, 100, 32_767, 32_768, 65_534, 65_535] {
        assert!(!is_fresher(x, x), "equal seqs must not be fresher (x={x})");
    }
}

#[test]
fn is_fresher_strictly_backward_is_not_fresher() {
    assert!(!is_fresher(0, 1));
    assert!(!is_fresher(50, 100));
}

#[test]
fn is_reboot_gap_above_threshold() {
    assert!(is_reboot(150, 30));
}

#[test]
fn is_reboot_gap_at_or_below_threshold_is_not_reboot() {
    assert!(!is_reboot(50, 30));
    assert!(!is_reboot(130, 30));
}

#[test]
fn is_reboot_backward_jump_is_huge_forward_distance() {
    assert!(is_reboot(30, 200));
}

#[test]
fn is_reboot_equal_seqs_is_not_reboot() {
    assert!(!is_reboot(42, 42));
}

#[test]
fn acceptance_no_change_when_equal() {
    assert_eq!(acceptance(30, 30), Acceptance::NoChange);
    assert_eq!(acceptance(0, 0), Acceptance::NoChange);
    assert_eq!(acceptance(65_535, 65_535), Acceptance::NoChange);
}

#[test]
fn acceptance_fresher_for_small_forward_gap() {
    assert_eq!(acceptance(50, 30), Acceptance::Fresher);
    assert_eq!(acceptance(1, 0), Acceptance::Fresher);
    assert_eq!(acceptance(130, 30), Acceptance::Fresher);
}

#[test]
fn acceptance_reboot_for_gap_above_threshold() {
    assert_eq!(acceptance(150, 30), Acceptance::Reboot);
    assert_eq!(acceptance(30, 200), Acceptance::Reboot);
}

#[test]
fn acceptance_bucket_boundary_at_100_and_101() {
    assert_eq!(acceptance(100, 0), Acceptance::Fresher);
    assert_eq!(acceptance(101, 0), Acceptance::Reboot);
}

#[test]
fn seq_num_new_is_not_constant() {
    let first = SeqNum::new();
    let any_different = (0..100).any(|_| SeqNum::new() != first);
    assert!(
        any_different,
        "SeqNum::new() returned the same value 100 times"
    );
}

#[test]
fn from_u16_round_trips_through_methods() {
    let s = SeqNum::from(7);
    assert!(s.is_fresher(SeqNum::from(8)));
    assert!(!s.is_fresher(SeqNum::from(7)));
    assert_eq!(s.acceptance(SeqNum::from(7)), Acceptance::NoChange);
}

#[test]
fn fresher_is_never_mutual() {
    for (a, b) in [(0u16, 1u16), (0, 32_768), (65_535, 0), (100, 100), (5, 40_000)] {
        assert!(!(is_fresher(a, b) && is_fresher(b, a)));
    }
}

#[test]
fn is_fresher_u32_wraps_and_splits_the_half_space() {
    assert!(is_fresher_u32(1, u32::MAX));
    assert!(is_fresher_u32(2_147_483_647, 0));
    assert!(!is_fresher_u32(2_147_483_648, 0));
    assert!(!is_fresher_u32(7, 7));
    assert!(is_fresher_u32(8, 7));
}
