use libp2p::identity::Keypair;
use qaul_router::admission::{
    admit_delegation, settle_delegation, Admission, DelegationAction, PendingDelegation, Settled,
};
use qaul_router::identity::{delegation_signing_input, Multikey};
use qaul_router::manifest::Manifest;

const HOST: [u8; 8] = [1; 8];

fn signed(user_kp: &Keypair, host_mk: &Multikey, timeout: u64) -> [u8; 64] {
    let input = delegation_signing_input(&host_mk.encode(), timeout);
    user_kp.sign(&input).unwrap().try_into().unwrap()
}

fn pending(action: DelegationAction, timeout: u64, signature: [u8; 64]) -> PendingDelegation {
    PendingDelegation { action, timeout, signature, parked_at_ms: 0 }
}

#[test]
fn malformed_or_misaddressed_requests_are_discarded() {
    let sig = [0u8; 64];
    let a = admit_delegation(DelegationAction::Subscribe, &[1; 7], &sig, 10, HOST, true, HOST, true, 0);
    assert!(matches!(a, Admission::Discard));
    let a = admit_delegation(DelegationAction::Subscribe, &[1; 8], &sig[..63], 10, HOST, true, HOST, true, 0);
    assert!(matches!(a, Admission::Discard));
    let a = admit_delegation(DelegationAction::Subscribe, &[1; 8], &sig, 10, [2; 8], true, HOST, true, 0);
    assert!(matches!(a, Admission::Discard));
    let a = admit_delegation(DelegationAction::Subscribe, &[1; 8], &sig, 10, HOST, false, HOST, true, 0);
    assert!(matches!(a, Admission::Discard));
}

#[test]
fn expired_subscription_is_rejected_but_revoke_is_not() {
    let sig = [0u8; 64];
    let a = admit_delegation(DelegationAction::Subscribe, &[1; 8], &sig, 10, HOST, true, HOST, true, 10);
    assert!(matches!(a, Admission::Reject));
    let a = admit_delegation(DelegationAction::Revoke, &[1; 8], &sig, 10, HOST, true, HOST, true, 10);
    assert!(matches!(a, Admission::Settle { .. }));
}

#[test]
fn request_without_user_key_is_parked() {
    let sig = [3u8; 64];
    match admit_delegation(DelegationAction::Subscribe, &[4; 8], &sig, 50, HOST, true, HOST, false, 7) {
        Admission::Park { user_id, pending } => {
            assert_eq!(user_id, [4; 8]);
            assert_eq!(pending.timeout, 50);
            assert_eq!(pending.signature, sig);
            assert_eq!(pending.parked_at_ms, 7);
        }
        other => panic!("unexpected {other:?}"),
    }
}

#[test]
fn verified_subscription_enters_manifest_and_revoke_removes_it() {
    let host_kp = Keypair::generate_ed25519();
    let host_mk = Multikey::from(host_kp.public());
    let user_kp = Keypair::generate_ed25519();
    let user_mk = Multikey::from(user_kp.public());
    let mut m = Manifest::new();

    let sig = signed(&user_kp, &host_mk, 1_000);
    let r = settle_delegation(&mut m, pending(DelegationAction::Subscribe, 1_000, sig), [9; 8], &host_mk, &user_mk, 3);
    assert!(matches!(r, Settled::SubscribeAck { accepted: true, changed: true }));
    assert_eq!(m.entries().len(), 1);
    assert_eq!(m.entries()[0].profile_version, 3);

    let r = settle_delegation(&mut m, pending(DelegationAction::Subscribe, 1_000, sig), [9; 8], &host_mk, &user_mk, 3);
    assert!(matches!(r, Settled::SubscribeAck { accepted: true, changed: false }));

    // a revocation for another timeout is answered but removes nothing
    let other = signed(&user_kp, &host_mk, 2_000);
    let r = settle_delegation(&mut m, pending(DelegationAction::Revoke, 2_000, other), [9; 8], &host_mk, &user_mk, 3);
    assert!(matches!(r, Settled::RevokeAck { done: true, removed: false }));
    assert_eq!(m.entries().len(), 1);

    let r = settle_delegation(&mut m, pending(DelegationAction::Revoke, 1_000, sig), [9; 8], &host_mk, &user_mk, 3);
    assert!(matches!(r, Settled::RevokeAck { done: true, removed: true }));
    assert!(m.entries().is_empty());
}

#[test]
fn unverified_requests_are_refused() {
    let host_kp = Keypair::generate_ed25519();
    let host_mk = Multikey::from(host_kp.public());
    let user_mk = Multikey::from(Keypair::generate_ed25519().public());
    let mut m = Manifest::new();
    let r = settle_delegation(&mut m, pending(DelegationAction::Subscribe, 1_000, [0; 64]), [9; 8], &host_mk, &user_mk, 0);
    assert!(matches!(r, Settled::SubscribeAck { accepted: false, changed: false }));
    let r = settle_delegation(&mut m, pending(DelegationAction::Revoke, 1_000, [0; 64]), [9; 8], &host_mk, &user_mk, 0);
    assert!(matches!(r, Settled::RevokeAck { done: false, removed: false }));
    assert!(m.entries().is_empty());
}
