use qaul_router::identity::SigningKeys;
use libp2p::identity::Keypair;
use qaul_router::codec::messages::ManifestEntry;
use qaul_router::identity::Multikey;
use qaul_router::manifest::serve::ChunkAssembler;
use qaul_router::manifest::Manifest;
use qaul_router::receive::{intake_node_manifest, ManifestIntake};
use qaul_router::sphere::{ConnectionModule, Sphere};

fn entry(b: u8) -> ManifestEntry {
    ManifestEntry { user_id: [b; 8], timeout: 5, entry_signature: [b; 64], profile_version: 1 }
}

fn signed_manifest(gateway: bool) -> (Multikey, Vec<qaul_router::codec::messages::NodeManifest>) {
    let kp = Keypair::generate_ed25519();
    let mk = Multikey::from(kp.public());
    let mut m = Manifest::new();
    m.set_entries(vec![entry(2), entry(1)]);
    m.set_gateway(gateway);
    m.bump_version();
    let chunks = m.build_chunks(mk.to_id(), &SigningKeys::new(kp.clone()), &mk.encode()).unwrap();
    (mk, chunks)
}

#[test]
fn intake_without_origin_key_fetches_profile() {
    let (mk, mut chunks) = signed_manifest(false);
    let mut a = ChunkAssembler::new();
    match intake_node_manifest(&mut a, None, chunks.remove(0), ConnectionModule::Lan) {
        ManifestIntake::FetchKey(id) => assert_eq!(id, mk.to_id()),
        _ => panic!("expected FetchKey"),
    }
}

#[test]
fn intake_of_forged_chunk_is_invalid() {
    let (mk, mut chunks) = signed_manifest(false);
    let mut a = ChunkAssembler::new();
    let mut c = chunks.remove(0);
    c.manifest_version += 1;
    assert!(matches!(
        intake_node_manifest(&mut a, Some(&mk), c, ConnectionModule::Lan),
        ManifestIntake::Invalid
    ));
}

#[test]
fn intake_of_single_chunk_stores_manifest_with_signature() {
    let (mk, mut chunks) = signed_manifest(true);
    let sig = chunks[0].manifest_signature;
    let mut a = ChunkAssembler::new();
    match intake_node_manifest(&mut a, Some(&mk), chunks.remove(0), ConnectionModule::Internet) {
        ManifestIntake::Stored(st) => {
            assert_eq!(st.manifest_version, 1);
            assert!(st.is_gateway);
            assert_eq!(st.entries.len(), 2);
            assert_eq!(st.entries[0].user_id, [1; 8]);
            assert_eq!(st.manifest_signature, Some(sig));
            assert_eq!(st.retained_chunks.len(), 1);
            assert_eq!(st.learn_sphere, Sphere::Internet);
        }
        _ => panic!("expected Stored"),
    }
}

use qaul_router::identity::delegation_signing_input;
use qaul_router::receive::classify_delegations;

fn keypair_and_multikey() -> (Keypair, Multikey) {
    let kp = Keypair::generate_ed25519();
    let mk = Multikey::from(kp.public());
    (kp, mk)
}

fn sign_entry(user_kp: &Keypair, host_mk: &Multikey, user_id: [u8; 8], timeout: u64) -> ManifestEntry {
    let sig = user_kp.sign(&delegation_signing_input(&host_mk.encode(), timeout)).unwrap();
    ManifestEntry { user_id, timeout, entry_signature: sig.try_into().unwrap(), profile_version: 0 }
}

fn build_signed_manifest(
    host_kp: &Keypair,
    host_mk: &Multikey,
    version: u32,
    is_gateway: bool,
    entries: Vec<ManifestEntry>,
) -> Vec<qaul_router::codec::messages::NodeManifest> {
    let mut manifest = Manifest::new();
    manifest.set_manifest_version(version);
    manifest.set_gateway(is_gateway);
    manifest.set_entries(entries);
    manifest.build_chunks(host_mk.to_id(), &SigningKeys::new(host_kp.clone()), &host_mk.encode()).unwrap()
}

fn stored(intake: ManifestIntake) -> qaul_router::receive::StoredManifest {
    match intake {
        ManifestIntake::Stored(st) => st,
        _ => panic!("expected the manifest to be stored"),
    }
}

#[test]
fn happy_path_commits_manifest_to_node_record() {
    let (host_kp, host_mk) = keypair_and_multikey();
    let (user_kp, user_mk) = keypair_and_multikey();
    let user_id = user_mk.to_id();
    let entries = vec![sign_entry(&user_kp, &host_mk, user_id, 1_000_000)];
    let chunks = build_signed_manifest(&host_kp, &host_mk, 5, true, entries);
    let mut a = ChunkAssembler::new();
    let st = stored(intake_node_manifest(&mut a, Some(&host_mk), chunks.into_iter().next().unwrap(), ConnectionModule::Lan));
    assert_eq!(st.manifest_version, 5);
    assert!(st.is_gateway);
    assert_eq!(st.entries.len(), 1);
    assert_eq!(st.entries[0].user_id, user_id);
    assert_eq!(st.entries[0].timeout, 1_000_000);
}

#[test]
fn origin_with_no_public_key_is_noop() {
    let (host_kp, host_mk) = keypair_and_multikey();
    let chunks = build_signed_manifest(&host_kp, &host_mk, 5, false, vec![]);
    let mut a = ChunkAssembler::new();
    assert!(matches!(
        intake_node_manifest(&mut a, None, chunks.into_iter().next().unwrap(), ConnectionModule::Lan),
        ManifestIntake::FetchKey(_)
    ));
}

#[test]
fn tampered_chunk_signature_dropped() {
    let (host_kp, host_mk) = keypair_and_multikey();
    let chunks = build_signed_manifest(&host_kp, &host_mk, 5, true, vec![]);
    let mut msg = chunks.into_iter().next().unwrap();
    msg.manifest_signature[0] ^= 0xFF;
    let mut a = ChunkAssembler::new();
    assert!(matches!(intake_node_manifest(&mut a, Some(&host_mk), msg, ConnectionModule::Lan), ManifestIntake::Invalid));
}

#[test]
fn bad_per_entry_signature_drops_only_that_entry() {
    let (host_kp, host_mk) = keypair_and_multikey();
    let (good_kp, good_mk) = keypair_and_multikey();
    let (bad_kp, bad_mk) = keypair_and_multikey();
    let good_id = good_mk.to_id();
    let bad_id = bad_mk.to_id();
    let good_entry = sign_entry(&good_kp, &host_mk, good_id, 1_000_000);
    let mut bad_entry = sign_entry(&bad_kp, &host_mk, bad_id, 1_000_000);
    bad_entry.entry_signature[0] ^= 0xFF;
    let chunks = build_signed_manifest(&host_kp, &host_mk, 1, false, vec![good_entry, bad_entry]);
    let mut a = ChunkAssembler::new();
    let st = stored(intake_node_manifest(&mut a, Some(&host_mk), chunks.into_iter().next().unwrap(), ConnectionModule::Lan));
    assert_eq!(st.entries.len(), 2, "both entries are stored byte-exact");
    let keys: Vec<Option<Multikey>> = st
        .entries
        .iter()
        .map(|e| if e.user_id == good_id { Some(good_mk.clone()) } else { Some(bad_mk.clone()) })
        .collect();
    let (trusted, _) = classify_delegations(&st.entries, &keys, &host_mk, 0);
    assert_eq!(trusted, vec![good_id], "a bad per-entry signature must not earn trust");
}

#[test]
fn expired_entry_dropped_at_receive_time() {
    let (host_kp, host_mk) = keypair_and_multikey();
    let (user_kp, user_mk) = keypair_and_multikey();
    let user_id = user_mk.to_id();
    let chunks = build_signed_manifest(&host_kp, &host_mk, 1, false, vec![sign_entry(&user_kp, &host_mk, user_id, 500)]);
    let mut a = ChunkAssembler::new();
    let st = stored(intake_node_manifest(&mut a, Some(&host_mk), chunks.into_iter().next().unwrap(), ConnectionModule::Lan));
    assert_eq!(st.entries.len(), 1);
    let (trusted, unverifiable) = classify_delegations(&st.entries, &vec![Some(user_mk)], &host_mk, 1_000);
    assert!(trusted.is_empty(), "an expired delegation must not earn a gateway");
    assert!(unverifiable.is_empty());
}

#[test]
fn is_gateway_flag_reflected_in_node_record() {
    let (host_kp, host_mk) = keypair_and_multikey();
    let chunks = build_signed_manifest(&host_kp, &host_mk, 2, true, vec![]);
    let mut a = ChunkAssembler::new();
    let st = stored(intake_node_manifest(&mut a, Some(&host_mk), chunks.into_iter().next().unwrap(), ConnectionModule::Lan));
    assert!(st.is_gateway);
}

#[test]
fn entry_for_user_with_unknown_key_is_stored_but_untrusted() {
    let (host_kp, host_mk) = keypair_and_multikey();
    let (user_kp, user_mk) = keypair_and_multikey();
    let user_id = user_mk.to_id();
    let chunks = build_signed_manifest(&host_kp, &host_mk, 1, false, vec![sign_entry(&user_kp, &host_mk, user_id, 1_000_000)]);
    let mut a = ChunkAssembler::new();
    let st = stored(intake_node_manifest(&mut a, Some(&host_mk), chunks.into_iter().next().unwrap(), ConnectionModule::Lan));
    assert_eq!(st.entries.len(), 1);
    let (trusted, unverifiable) = classify_delegations(&st.entries, &vec![None], &host_mk, 0);
    assert!(trusted.is_empty());
    assert_eq!(unverifiable, vec![user_id]);
}
