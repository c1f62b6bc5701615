use qaul_router::identity::SigningKeys;
use libp2p::identity::Keypair;
use qaul_router::codec::messages::ManifestEntry;
use qaul_router::identity::Multikey;
use qaul_router::manifest::log::{LogRecord, ManifestLog};
use qaul_router::manifest::origin::{
    bump_allowed, delegations_due_for_refresh, fold_dirty_and_bump, resign_manifest,
};
use qaul_router::manifest::Manifest;
use qaul_router::sphere::BumpTrigger;

fn entry(b: u8, timeout: u64, pv: u32) -> ManifestEntry {
    ManifestEntry { user_id: [b; 8], timeout, entry_signature: [b; 64], profile_version: pv }
}

#[test]
fn a_bump_folds_the_changed_users_into_the_log() {
    let mut m = Manifest::new();
    m.set_manifest_version(4);
    m.set_entries(vec![entry(1, 10, 0), entry(2, 20, 0)]);
    let mut log = ManifestLog::default();
    let v = fold_dirty_and_bump(&mut m, &mut log, &vec![[2; 8], [3; 8]], 777);
    assert_eq!(v, 5);
    assert_eq!(m.manifest_version(), 5);
    let recs = log.records_after(4);
    assert_eq!(recs.len(), 2, "a delta from the old version carries both changes");
    match &recs[0] {
        LogRecord::Add { record_version, entry } => {
            assert_eq!(*record_version, 5);
            assert_eq!(entry.user_id, [2; 8]);
        }
        other => panic!("expected Add, got {other:?}"),
    }
    match &recs[1] {
        LogRecord::Tombstone { user_id, record_version, created_ms } => {
            assert_eq!((*user_id, *record_version, *created_ms), ([3; 8], 5, 777));
        }
        other => panic!("expected Tombstone, got {other:?}"),
    }
    assert!(log.records_after(5).is_empty());
}

#[test]
fn the_bumped_version_wraps() {
    let mut m = Manifest::new();
    m.set_manifest_version(u32::MAX);
    let mut log = ManifestLog::default();
    assert_eq!(fold_dirty_and_bump(&mut m, &mut log, &vec![[1; 8]], 0), 0);
    assert_eq!(log.records_after(u32::MAX).len(), 1);
}

#[test]
fn accumulated_bumps_wait_for_changes_and_the_rate_limit() {
    assert!(!bump_allowed(BumpTrigger::Accumulated, false, 100_000, 0, 60));
    assert!(!bump_allowed(BumpTrigger::Accumulated, true, 59_999, 0, 60));
    assert!(bump_allowed(BumpTrigger::Accumulated, true, 60_000, 0, 60));
    assert!(bump_allowed(BumpTrigger::ForcedRemoval, false, 0, 0, 60));
    assert!(bump_allowed(BumpTrigger::FormTransition, false, 0, 0, 60));
    assert!(!bump_allowed(BumpTrigger::Accumulated, true, u64::MAX - 1, 5, u64::MAX));
}

#[test]
fn resigning_stores_a_verifying_signature_and_chunks() {
    let kp = Keypair::generate_ed25519();
    let mk = Multikey::from(kp.public());
    let mut m = Manifest::new();
    m.set_entries(vec![entry(1, 10, 0)]);
    resign_manifest(&mut m, &SigningKeys::new(kp.clone()), mk.to_id(), &mk.encode());
    let sig = m.manifest_signature().expect("signed");
    assert!(mk.verify(&m.state_signing_input(&mk.encode()), &sig));
    let chunks = m.retained_chunks().as_ref().expect("chunked");
    assert_eq!(chunks.len(), 1);
    assert!(Manifest::verify_chunk(&chunks[0], &mk).is_ok());
}

#[test]
fn refresh_picks_delegations_expiring_within_the_window() {
    let mut m = Manifest::new();
    m.set_entries(vec![entry(1, 5_000, 3), entry(2, 20_000, 4), entry(3, 9_000, 5)]);
    assert_eq!(delegations_due_for_refresh(&m, 1_000, 8), vec![([1; 8], 3), ([3; 8], 5)]);
    assert_eq!(delegations_due_for_refresh(&m, 0, u64::MAX).len(), 3);
}
