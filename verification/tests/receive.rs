use libp2p::identity::Keypair;
use qaul_router::codec::messages::{DeltaAdd, DeltaRemove, ManifestDelta, ManifestEntry};
use qaul_router::identity::{delegation_signing_input, ChunkSigningCtx, Multikey};
use qaul_router::manifest::canonical_entry_bytes;
use qaul_router::receive::{
    apply_manifest_delta, classify_delegations, delta_scratch_entries, evaluate_entry, DeltaOutcome, EntryArg,
    EntryVerdict, StoredRoute,
};
use qaul_router::seq::SeqNum;
use qaul_router::sphere::ConnectionModule;

fn arg(seq: u16, metric: u16, hop_count: u8, local_only: bool) -> EntryArg {
    EntryArg { abs_idx: 1, seq, metric, hop_count, local_only }
}

fn stored(seq: u16, metric: u16, local_only: bool) -> Option<StoredRoute> {
    Some(StoredRoute { seq_num: SeqNum::from(seq), metric, local_only })
}

#[test]
fn entries_at_63_hops_are_dropped() {
    assert_eq!(evaluate_entry(arg(1, 0, 63, true), ConnectionModule::Lan, None, None), EntryVerdict::Dropped);
    assert!(matches!(
        evaluate_entry(arg(1, 0, 62, true), ConnectionModule::Lan, None, None),
        EntryVerdict::Accept { hop_count: 63, .. }
    ));
}

#[test]
fn a_new_target_is_accepted_with_the_link_cost_added() {
    assert_eq!(
        evaluate_entry(arg(7, 100, 2, true), ConnectionModule::Ble1m, Some(-80), None),
        EntryVerdict::Accept { seq: 7, metric: 160, hop_count: 3, local_only: true }
    );
    assert_eq!(
        evaluate_entry(arg(7, u16::MAX - 5, 0, false), ConnectionModule::Lan, None, None),
        EntryVerdict::Accept { seq: 7, metric: u16::MAX, hop_count: 1, local_only: false }
    );
}

#[test]
fn same_sequence_needs_a_strictly_better_metric() {
    // 40 + 10 (Lan) = 50
    assert_eq!(
        evaluate_entry(arg(5, 40, 0, true), ConnectionModule::Lan, None, stored(5, 50, true)),
        EntryVerdict::Rejected
    );
    assert!(matches!(
        evaluate_entry(arg(5, 39, 0, true), ConnectionModule::Lan, None, stored(5, 50, true)),
        EntryVerdict::Accept { metric: 49, .. }
    ));
}

#[test]
fn fresher_or_rebooted_sequences_replace_whatever_the_metric() {
    assert!(matches!(
        evaluate_entry(arg(6, 1000, 0, true), ConnectionModule::Lan, None, stored(5, 1, true)),
        EntryVerdict::Accept { seq: 6, .. }
    ));
    assert!(matches!(
        evaluate_entry(arg(300, 1000, 0, true), ConnectionModule::Lan, None, stored(5, 1, true)),
        EntryVerdict::Accept { seq: 300, .. }
    ));
}

#[test]
fn local_only_is_kept_only_while_both_sides_have_it() {
    assert!(matches!(
        evaluate_entry(arg(6, 0, 0, true), ConnectionModule::Lan, None, stored(5, 0, false)),
        EntryVerdict::Accept { local_only: false, .. }
    ));
    assert!(matches!(
        evaluate_entry(arg(6, 0, 0, true), ConnectionModule::Lan, None, stored(5, 0, true)),
        EntryVerdict::Accept { local_only: true, .. }
    ));
}

#[test]
fn a_redelivered_entry_is_rejected_the_second_time() {
    let e = arg(9, 20, 1, true);
    let first = evaluate_entry(e, ConnectionModule::Lan, None, None);
    let EntryVerdict::Accept { seq, metric, local_only, .. } = first else {
        panic!("first copy accepted")
    };
    let again = evaluate_entry(
        e,
        ConnectionModule::Lan,
        None,
        Some(StoredRoute { seq_num: SeqNum::from(seq), metric, local_only }),
    );
    assert_eq!(again, EntryVerdict::Rejected);
}

fn entry(b: u8, timeout: u64) -> ManifestEntry {
    ManifestEntry { user_id: [b; 8], timeout, entry_signature: [b; 64], profile_version: 0 }
}

#[test]
fn delta_scratch_removes_then_upserts() {
    let stored = vec![entry(1, 0), entry(2, 0), entry(4, 0)];
    let removes = vec![DeltaRemove { user_id: [2; 8], record_version: 5 }];
    let adds = vec![
        DeltaAdd { record_version: 5, entry: entry(3, 0) },
        DeltaAdd { record_version: 5, entry: entry(4, 9) },
        DeltaAdd { record_version: 5, entry: entry(2, 7) },
    ];
    let out = delta_scratch_entries(stored, &removes, &adds);
    let got: Vec<(u8, u64)> = out.iter().map(|e| (e.user_id[0], e.timeout)).collect();
    assert_eq!(got, vec![(1, 0), (2, 7), (3, 0), (4, 9)]);
}

fn signed_delta(kp: &Keypair, mk: &Multikey, stored: &[ManifestEntry], from: u32, flags: u8) -> ManifestDelta {
    let removes = vec![DeltaRemove { user_id: [1; 8], record_version: from + 1 }];
    let adds = vec![DeltaAdd { record_version: from + 1, entry: entry(5, 1) }];
    let result = delta_scratch_entries(stored.to_vec(), &removes, &adds);
    let bytes = canonical_entry_bytes(&result);
    let key = mk.encode();
    let ctx = ChunkSigningCtx {
        origin_multikey: &key,
        manifest_version: from + 1,
        chunk_index: 0,
        chunk_count: 1,
        flags: flags & 1,
        canonical_entries: &bytes,
    };
    let sig: [u8; 64] = kp.sign(&ctx.signing_input()).unwrap().try_into().unwrap();
    ManifestDelta {
        origin_node_id: mk.to_id(),
        from_version: from,
        to_version: from + 1,
        flags,
        manifest_signature: sig,
        adds,
        removes,
    }
}

#[test]
fn a_signed_delta_on_the_committed_version_applies() {
    let kp = Keypair::generate_ed25519();
    let mk = Multikey::from(kp.public());
    let stored = vec![entry(1, 0), entry(3, 0)];
    let msg = signed_delta(&kp, &mk, &stored, 4, 0x03);
    match apply_manifest_delta(stored, 4, &msg, &mk) {
        DeltaOutcome::Apply { entries, is_gateway } => {
            assert!(is_gateway);
            let ids: Vec<u8> = entries.iter().map(|e| e.user_id[0]).collect();
            assert_eq!(ids, vec![3, 5]);
        }
        other => panic!("expected Apply, got {other:?}"),
    }
}

#[test]
fn a_delta_on_another_version_is_stale() {
    let kp = Keypair::generate_ed25519();
    let mk = Multikey::from(kp.public());
    let stored = vec![entry(1, 0)];
    let msg = signed_delta(&kp, &mk, &stored, 4, 0);
    assert!(matches!(apply_manifest_delta(stored, 5, &msg, &mk), DeltaOutcome::Stale));
}

#[test]
fn a_delta_with_a_bad_signature_is_invalid() {
    let kp = Keypair::generate_ed25519();
    let mk = Multikey::from(kp.public());
    let stored = vec![entry(1, 0)];
    let mut msg = signed_delta(&kp, &mk, &stored, 4, 0);
    msg.manifest_signature[3] ^= 1;
    assert!(matches!(apply_manifest_delta(stored.clone(), 4, &msg, &mk), DeltaOutcome::Invalid));
    let other = Multikey::from(Keypair::generate_ed25519().public());
    let msg = signed_delta(&kp, &mk, &stored, 4, 0);
    assert!(matches!(apply_manifest_delta(stored, 4, &msg, &other), DeltaOutcome::Invalid));
}

#[test]
fn delegations_are_trusted_unverifiable_or_neither() {
    let host = Keypair::generate_ed25519();
    let host_mk = Multikey::from(host.public());
    let user = Keypair::generate_ed25519();
    let user_mk = Multikey::from(user.public());
    let signed = |id: u8, timeout: u64| {
        let sig: [u8; 64] = user
            .sign(&delegation_signing_input(&host_mk.encode(), timeout))
            .unwrap()
            .try_into()
            .unwrap();
        ManifestEntry { user_id: [id; 8], timeout, entry_signature: sig, profile_version: 0 }
    };
    let entries = vec![signed(1, 500), signed(2, 50), signed(3, 500), entry(4, 500), signed(5, 500)];
    let keys = vec![
        Some(user_mk.clone()),
        Some(user_mk.clone()),
        None,
        Some(user_mk.clone()),
        Some(Multikey::from(Keypair::generate_ed25519().public())),
    ];
    let (trusted, unverifiable) = classify_delegations(&entries, &keys, &host_mk, 100);
    assert_eq!(trusted, vec![[1; 8]]);
    assert_eq!(unverifiable, vec![[3; 8]]);
}

fn verdict_metric(v: EntryVerdict) -> Option<(u16, u16, u8, bool)> {
    match v {
        EntryVerdict::Accept { seq, metric, hop_count, local_only } => Some((seq, metric, hop_count, local_only)),
        _ => None,
    }
}

#[test]
fn ttl_drop_when_incoming_hop_count_is_63() {
    let v = evaluate_entry(arg(1, 10, 63, false), ConnectionModule::Lan, None, None);
    assert_eq!(v, EntryVerdict::Dropped);
}

#[test]
fn hop_count_62_is_accepted_and_stored_as_63() {
    let v = evaluate_entry(arg(1, 10, 62, false), ConnectionModule::Lan, None, None);
    assert_eq!(verdict_metric(v).unwrap().2, 63);
}

#[test]
fn empty_slot_accept_stores_entry_and_attaches_user_back_edge() {
    let v = evaluate_entry(arg(7, 10, 2, false), ConnectionModule::Lan, None, None);
    assert_eq!(v, EntryVerdict::Accept { seq: 7, metric: 20, hop_count: 3, local_only: false });
}

#[test]
fn fresher_seq_replaces_stored_entry() {
    let v = evaluate_entry(arg(20, 10, 1, false), ConnectionModule::Lan, None, stored(10, 50, false));
    let (seq, metric, _, _) = verdict_metric(v).unwrap();
    assert_eq!(seq, 20);
    assert_eq!(metric, 20);
}

#[test]
fn reboot_gap_accepts_new_entry() {
    let v = evaluate_entry(arg(30, 10, 1, false), ConnectionModule::Lan, None, stored(200, 50, false));
    assert_eq!(verdict_metric(v).unwrap().0, 30);
}

#[test]
fn backward_looking_seq_is_treated_as_reboot_and_accepted() {
    let v = evaluate_entry(arg(40, 10, 1, false), ConnectionModule::Lan, None, stored(50, 30, false));
    let (seq, metric, _, _) = verdict_metric(v).expect("reboot bucket must replace");
    assert_eq!(seq, 40);
    assert_eq!(metric, 20);
}

#[test]
fn same_seq_lower_metric_replaces_stored() {
    let v = evaluate_entry(arg(10, 5, 1, false), ConnectionModule::Lan, None, stored(10, 50, false));
    assert_eq!(verdict_metric(v).unwrap().1, 15);
}

#[test]
fn same_seq_equal_metric_drops() {
    let v = evaluate_entry(arg(10, 10, 5, false), ConnectionModule::Lan, None, stored(10, 20, false));
    assert_eq!(v, EntryVerdict::Rejected);
}

#[test]
fn same_seq_higher_metric_drops() {
    let v = evaluate_entry(arg(10, 30, 1, false), ConnectionModule::Lan, None, stored(10, 20, false));
    assert_eq!(v, EntryVerdict::Rejected);
}

#[test]
fn local_only_sticky_when_stored_is_false() {
    let v = evaluate_entry(arg(20, 10, 1, true), ConnectionModule::Lan, None, stored(10, 50, false));
    assert!(!verdict_metric(v).unwrap().3);
}

#[test]
fn local_only_transitions_to_false_when_incoming_is_false() {
    let v = evaluate_entry(arg(20, 10, 1, false), ConnectionModule::Lan, None, stored(10, 50, true));
    assert!(!verdict_metric(v).unwrap().3);
}

#[test]
fn local_only_empty_slot_uses_incoming_value() {
    let v = evaluate_entry(arg(1, 10, 1, true), ConnectionModule::Lan, None, None);
    assert!(verdict_metric(v).unwrap().3);
}
