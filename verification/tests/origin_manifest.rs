use qaul_router::identity::SigningKeys;
use libp2p::identity::Keypair;
use qaul_router::identity::{delegation_signing_input, Multikey, SelfDelegation};
use qaul_router::manifest::log::LogRecord;
use qaul_router::manifest::own::{HostManifestState, OriginManifest};
use qaul_router::manifest::Manifest;
use qaul_router::sphere::BumpTrigger;

/// `manifest_rate_limit` defaults to 60 s; the window is in ms.
const WINDOW_MS: u64 = 60_000;
const TTL_MS: u64 = 6 * 60 * 60 * 1000;

struct Host {
    keys: Keypair,
    mk: Multikey,
    origin: OriginManifest,
}

fn fresh_state() -> Host {
    let keys = Keypair::generate_ed25519();
    let mk = Multikey::from(keys.public());
    Host { keys, mk, origin: OriginManifest::new(60) }
}

struct Account {
    keys: Keypair,
}

impl Account {
    fn multikey(&self) -> Multikey {
        Multikey::from(self.keys.public())
    }
    fn routing_user_id(&self) -> [u8; 8] {
        self.multikey().to_id()
    }
    fn issue_self_delegation(&self, host_mk: &Multikey, timeout: u64) -> SelfDelegation {
        let input = delegation_signing_input(&host_mk.encode(), timeout);
        let sig = self.keys.sign(&input).unwrap();
        SelfDelegation { timeout, entry_signature: sig.try_into().unwrap() }
    }
}

fn fresh_account() -> Account {
    Account { keys: Keypair::generate_ed25519() }
}

fn delegate(state: &mut Host, account: &Account, now_ms: u64) -> [u8; 8] {
    let id = account.routing_user_id();
    let delegation = account.issue_self_delegation(&state.mk, now_ms + TTL_MS);
    state.origin.add_self_delegation(id, 0, delegation);
    id
}

fn bump(state: &mut Host, now_ms: u64, trigger: BumpTrigger) -> Option<u32> {
    state.origin.try_bump(now_ms, trigger, &SigningKeys::new(state.keys.clone()), &state.mk)
}

#[test]
fn stored_delegation_verifies_against_the_users_key() {
    let mut state = fresh_state();
    let account = fresh_account();
    let id = delegate(&mut state, &account, 0);
    let entry = *state.origin.manifest().entries().iter().find(|e| e.user_id == id).expect("entry stored");
    assert!(Manifest::verify_entry(&entry, &state.mk, &account.multikey()).is_ok());
}

#[test]
fn tampering_with_the_timeout_breaks_verification() {
    let mut state = fresh_state();
    let account = fresh_account();
    let id = delegate(&mut state, &account, 0);
    let mut entry = *state.origin.manifest().entries().iter().find(|e| e.user_id == id).unwrap();
    entry.timeout = entry.timeout.saturating_add(1);
    assert!(Manifest::verify_entry(&entry, &state.mk, &account.multikey()).is_err());
}

#[test]
fn a_delegation_does_not_verify_for_a_different_host() {
    let mut state = fresh_state();
    let other_host = fresh_state();
    let account = fresh_account();
    let id = delegate(&mut state, &account, 0);
    let entry = *state.origin.manifest().entries().iter().find(|e| e.user_id == id).unwrap();
    assert!(Manifest::verify_entry(&entry, &other_host.mk, &account.multikey()).is_err());
}

#[test]
fn adding_a_delegation_marks_dirty_without_bumping() {
    let mut state = fresh_state();
    let account = fresh_account();
    let id = delegate(&mut state, &account, 0);

    assert_eq!(state.origin.manifest().entries().len(), 1);
    assert_eq!(state.origin.manifest().manifest_version(), 0, "the add itself must not bump");
    assert!(state.origin.dirty().contains(&id));
}

#[test]
fn accumulated_bump_inside_the_window_is_declined() {
    let mut state = fresh_state();
    delegate(&mut state, &fresh_account(), 0);
    assert_eq!(bump(&mut state, 1_000, BumpTrigger::Accumulated), None, "still inside the 60s window");
    assert_eq!(state.origin.manifest().manifest_version(), 0);
}

#[test]
fn accumulated_bump_with_nothing_dirty_is_declined() {
    let mut state = fresh_state();
    assert_eq!(bump(&mut state, WINDOW_MS * 10, BumpTrigger::Accumulated), None, "no change to fold");
}

#[test]
fn accumulated_bump_after_the_window_folds_and_logs() {
    let mut state = fresh_state();
    let id = delegate(&mut state, &fresh_account(), 0);
    assert_eq!(bump(&mut state, WINDOW_MS, BumpTrigger::Accumulated), Some(1));
    assert_eq!(state.origin.manifest().manifest_version(), 1);
    assert!(state.origin.dirty().is_empty(), "the dirty set is consumed by the fold");

    let records = state.origin.log().records_after(0);
    assert_eq!(records.len(), 1);
    assert_eq!(records[0].record_version(), 1);
    assert_eq!(records[0].user_id(), id);
    assert!(matches!(records[0], LogRecord::Add { .. }));
}

#[test]
fn two_adds_in_one_window_fold_into_a_single_bump() {
    let mut state = fresh_state();
    let a = delegate(&mut state, &fresh_account(), 0);
    let b = delegate(&mut state, &fresh_account(), 1_000);
    assert_eq!(bump(&mut state, WINDOW_MS, BumpTrigger::Accumulated), Some(1), "both changes fold into one version");

    let records = state.origin.log().records_after(0);
    assert_eq!(records.len(), 2);
    assert!(records.iter().all(|r| r.record_version() == 1));
    let mut ids: Vec<[u8; 8]> = records.iter().map(|r| r.user_id()).collect();
    ids.sort();
    let mut expected = vec![a, b];
    expected.sort();
    assert_eq!(ids, expected);
}

#[test]
fn add_then_remove_in_one_window_folds_to_a_tombstone() {
    let mut state = fresh_state();
    let id = delegate(&mut state, &fresh_account(), 0);
    assert!(state.origin.remove_self_delegation(&id));
    assert_eq!(bump(&mut state, WINDOW_MS, BumpTrigger::Accumulated), Some(1));
    assert!(state.origin.manifest().entries().is_empty());
    let records = state.origin.log().records_after(0);
    assert_eq!(records.len(), 1);
    assert!(matches!(records[0], LogRecord::Tombstone { .. }));
}

#[test]
fn identical_redelegation_is_not_a_change() {
    let mut state = fresh_state();
    let account = fresh_account();
    let id = account.routing_user_id();
    let delegation = account.issue_self_delegation(&state.mk, TTL_MS);
    assert!(state.origin.add_self_delegation(id, 0, delegation));
    assert!(!state.origin.add_self_delegation(id, 0, delegation), "an identical re-issue must report no change");
    assert_eq!(state.origin.manifest().entries().len(), 1);
}

#[test]
fn redelegating_with_a_new_timeout_is_a_change() {
    let mut state = fresh_state();
    let account = fresh_account();
    let id = account.routing_user_id();
    let first = account.issue_self_delegation(&state.mk, TTL_MS);
    let second = account.issue_self_delegation(&state.mk, TTL_MS + 1);
    assert!(state.origin.add_self_delegation(id, 0, first));
    assert!(state.origin.add_self_delegation(id, 0, second));
    assert_eq!(state.origin.manifest().entries().len(), 1);
}

#[test]
fn removing_an_absent_delegation_is_not_a_change() {
    let mut state = fresh_state();
    assert!(!state.origin.remove_self_delegation(&[9; 8]));
    assert!(state.origin.dirty().is_empty());
}

#[test]
fn form_transition_bumps_inside_the_window_with_nothing_dirty() {
    let mut state = fresh_state();
    assert_eq!(bump(&mut state, 0, BumpTrigger::FormTransition), Some(1));
}

#[test]
fn forced_removal_bypasses_the_window() {
    let mut state = fresh_state();
    let id = delegate(&mut state, &fresh_account(), 0);
    state.origin.remove_self_delegation(&id);
    assert_eq!(bump(&mut state, 1_000, BumpTrigger::ForcedRemoval), Some(1));
}

#[test]
fn a_bump_restarts_the_rate_limit_window() {
    let mut state = fresh_state();
    delegate(&mut state, &fresh_account(), 0);
    assert_eq!(bump(&mut state, WINDOW_MS, BumpTrigger::Accumulated), Some(1));
    delegate(&mut state, &fresh_account(), WINDOW_MS + 1);
    assert_eq!(bump(&mut state, WINDOW_MS + 1_000, BumpTrigger::Accumulated), None, "the window restarted at the previous bump");
    assert_eq!(bump(&mut state, WINDOW_MS * 2, BumpTrigger::Accumulated), Some(2));
}

#[test]
fn snapshot_round_trips_version_and_entries() {
    let mut state = fresh_state();
    let account = fresh_account();
    let id = delegate(&mut state, &account, 0);
    bump(&mut state, WINDOW_MS, BumpTrigger::Accumulated);

    let snapshot = state.origin.snapshot();
    assert_eq!(snapshot.manifest_version, 1);
    assert_eq!(snapshot.entries.len(), 1);
    assert_eq!(snapshot.entries[0].entry_signature.len(), 64);

    let mut restarted = fresh_state();
    let (keys, mk) = (restarted.keys.clone(), Multikey::from(restarted.keys.public()));
    restarted.origin.restore(snapshot, &SigningKeys::new(keys), &mk);
    let manifest = restarted.origin.manifest();
    assert_eq!(manifest.manifest_version(), 1, "version must not regress");
    assert_eq!(manifest.entries().len(), 1);
    assert_eq!(manifest.entries()[0].user_id, id);
}

#[test]
fn default_host_state_restores_as_a_clean_origin() {
    let mut state = fresh_state();
    let (keys, mk) = (state.keys.clone(), Multikey::from(state.keys.public()));
    state.origin.restore(HostManifestState { manifest_version: 0, is_gateway: false, entries: vec![] }, &SigningKeys::new(keys), &mk);
    assert_eq!(state.origin.manifest().manifest_version(), 0);
    assert!(state.origin.manifest().entries().is_empty());
}
