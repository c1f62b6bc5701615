use libp2p::identity::Keypair;
use libp2p::PeerId;
use qaul_router::error::RoutingV2Error;
use qaul_router::identity::{
    delegation_signing_input, id_from_peer_id, ChunkSigningCtx, Multikey, PeerMultihash, Profile,
};
use sha2::{Digest, Sha256};

fn sign_into_array(kp: &Keypair, input: &[u8]) -> [u8; 64] {
    kp.sign(input)
        .expect("ed25519 sign")
        .try_into()
        .expect("ed25519 signatures are 64 bytes")
}

fn fresh_profile(name: &str, version: u32) -> (Keypair, Profile) {
    let kp = Keypair::generate_ed25519();
    let multikey: Multikey = kp.public().into();
    let profile = Profile {
        multikey,
        version,
        name: name.into(),
        self_signature: [0u8; 64],
    };
    (kp, profile)
}

#[test]
fn multikey_to_id_is_deterministic() {
    let (_, profile) = fresh_profile("alice", 1);
    let id1 = profile.multikey.to_id();
    let id2 = profile.multikey.to_id();
    assert_eq!(id1, id2, "same multikey must always derive the same id");
}

#[test]
fn multikey_to_id_differs_across_keys() {
    let (_, p_a) = fresh_profile("alice", 1);
    let (_, p_b) = fresh_profile("alice", 1);
    assert_ne!(
        p_a.multikey.to_id(),
        p_b.multikey.to_id(),
        "distinct keypairs must produce distinct ids"
    );
}

#[test]
fn id_from_peer_id_matches_the_multikey_derivation() {
    let kp = Keypair::generate_ed25519();
    let peer = kp.public().to_peer_id();

    assert_eq!(
        id_from_peer_id(&PeerMultihash::of(&peer)),
        Some(Multikey::from(kp.public()).to_id()),
    );
}

#[test]
fn id_from_peer_id_is_stable_across_calls() {
    let peer = Keypair::generate_ed25519().public().to_peer_id();
    assert_eq!(id_from_peer_id(&PeerMultihash::of(&peer)), id_from_peer_id(&PeerMultihash::of(&peer)));
}

#[test]
fn id_from_peer_id_returns_none_when_the_key_is_hashed() {
    let digest = Sha256::digest(b"not a key");
    let multihash = libp2p::multihash::Multihash::<64>::wrap(0x12, &digest)
        .expect("sha2-256 digest fits in 64 bytes");
    let peer = PeerId::from_multihash(multihash).expect("sha2-256 is a valid peer id code");

    assert_eq!(id_from_peer_id(&PeerMultihash::of(&peer)), None);
}

#[test]
fn try_from_peer_id_agrees_with_direct_derivation() {
    let kp = Keypair::generate_ed25519();
    let peer = kp.public().to_peer_id();

    let recovered = Multikey::try_from_peer_id(&PeerMultihash::of(&peer)).expect("ed25519 key is inline");

    assert_eq!(
        recovered.to_id(),
        Multikey::from(kp.public()).to_id(),
        "id via PeerId must match id via public key"
    );
}

#[test]
fn try_from_peer_id_preserves_key_material() {
    let kp = Keypair::generate_ed25519();
    let peer = kp.public().to_peer_id();

    let recovered = Multikey::try_from_peer_id(&PeerMultihash::of(&peer)).expect("ed25519 key is inline");

    assert_eq!(
        recovered.encode(),
        Multikey::from(kp.public()).encode(),
        "recovered multikey must encode identically to the original"
    );
}

#[test]
fn try_from_peer_id_rejects_hashed_multihash() {
    let digest = Sha256::digest(b"not a key");
    let multihash = libp2p::multihash::Multihash::<64>::wrap(0x12, &digest)
        .expect("sha2-256 digest fits in 64 bytes");
    let peer = PeerId::from_multihash(multihash).expect("sha2-256 is a valid peer id code");

    match Multikey::try_from_peer_id(&PeerMultihash::of(&peer)) {
        Err(RoutingV2Error::PeerIdNotInlineKey(code)) => assert_eq!(code, 0x12),
        other => panic!("expected PeerIdNotInlineKey, got {other:?}"),
    }
}

#[test]
fn try_from_peer_id_rejects_identity_multihash_with_garbage() {
    let multihash = libp2p::multihash::Multihash::<64>::wrap(0, &[0xFFu8; 32])
        .expect("32 bytes fits in 64");
    let peer =
        PeerId::from_multihash(multihash).expect("identity code is valid, payload short");

    match Multikey::try_from_peer_id(&PeerMultihash::of(&peer)) {
        Err(RoutingV2Error::MultikeyErrror(_)) => {}
        other => panic!("expected a multikey decoding error, got {other:?}"),
    }
}

#[test]
fn multikey_encode_decode_roundtrips_through_protobuf() {
    let (_, profile) = fresh_profile("alice", 1);
    let bytes = profile.multikey.encode();
    let decoded = Multikey::decode(&bytes).expect("decode succeeds");
    assert_eq!(
        profile.multikey.to_id(),
        decoded.to_id(),
        "encode then decode must preserve the underlying key"
    );
}

#[test]
fn profile_sign_verify_roundtrip() {
    let (kp, mut profile) = fresh_profile("alice", 1);
    profile.self_signature = sign_into_array(&kp, &profile.sign_input());

    assert!(
        kp.public()
            .verify(&profile.sign_input(), &profile.self_signature),
        "signature must verify against the same input that produced it"
    );
}

#[test]
fn profile_verify_fails_on_tampered_name() {
    let (kp, mut profile) = fresh_profile("alice", 1);
    profile.self_signature = sign_into_array(&kp, &profile.sign_input());

    profile.name = "bob".into();

    assert!(
        !kp.public()
            .verify(&profile.sign_input(), &profile.self_signature),
        "verification must fail when the signed name has changed"
    );
}

#[test]
fn profile_verify_fails_on_tampered_version() {
    let (kp, mut profile) = fresh_profile("alice", 1);
    profile.self_signature = sign_into_array(&kp, &profile.sign_input());

    profile.version = profile.version.wrapping_add(1);

    assert!(
        !kp.public()
            .verify(&profile.sign_input(), &profile.self_signature),
        "verification must fail when the signed version has changed"
    );
}

#[test]
fn profile_verify_fails_on_tampered_signature() {
    let (kp, mut profile) = fresh_profile("alice", 1);
    profile.self_signature = sign_into_array(&kp, &profile.sign_input());

    profile.self_signature[0] ^= 0xFF;

    assert!(
        !kp.public()
            .verify(&profile.sign_input(), &profile.self_signature),
        "verification must fail when the signature bytes are altered"
    );
}

#[test]
fn delegation_sign_verify_roundtrip() {
    let user_kp = Keypair::generate_ed25519();
    let host_kp = Keypair::generate_ed25519();
    let host_mk_bytes = Multikey::from(host_kp.public()).encode();
    let timeout = 1_700_000_000_000_u64;

    let sig = user_kp
        .sign(&delegation_signing_input(&host_mk_bytes, timeout))
        .expect("ed25519 sign");

    assert!(
        user_kp
            .public()
            .verify(&delegation_signing_input(&host_mk_bytes, timeout), &sig),
        "delegation must verify with original host and timeout"
    );
}

#[test]
fn delegation_verify_fails_on_tampered_timeout() {
    let user_kp = Keypair::generate_ed25519();
    let host_kp = Keypair::generate_ed25519();
    let host_mk_bytes = Multikey::from(host_kp.public()).encode();
    let timeout = 1_700_000_000_000_u64;

    let sig = user_kp
        .sign(&delegation_signing_input(&host_mk_bytes, timeout))
        .expect("ed25519 sign");

    let tampered = delegation_signing_input(&host_mk_bytes, timeout + 1);
    assert!(
        !user_kp.public().verify(&tampered, &sig),
        "altering timeout after signing must invalidate the signature"
    );
}

#[test]
fn delegation_verify_fails_on_tampered_host_multikey() {
    let user_kp = Keypair::generate_ed25519();
    let host_kp_a = Keypair::generate_ed25519();
    let host_kp_b = Keypair::generate_ed25519();
    let host_a_bytes = Multikey::from(host_kp_a.public()).encode();
    let host_b_bytes = Multikey::from(host_kp_b.public()).encode();
    let timeout = 1_700_000_000_000_u64;

    let sig = user_kp
        .sign(&delegation_signing_input(&host_a_bytes, timeout))
        .expect("ed25519 sign");

    let tampered = delegation_signing_input(&host_b_bytes, timeout);
    assert!(
        !user_kp.public().verify(&tampered, &sig),
        "altering host multikey after signing must invalidate the signature"
    );
}

struct ChunkFixture {
    host_mk: Vec<u8>,
    manifest_version: u32,
    chunk_index: u8,
    chunk_count: u8,
    flags: u8,
    entries: Vec<u8>,
}

impl ChunkFixture {
    fn ctx(&self) -> ChunkSigningCtx<'_> {
        ChunkSigningCtx {
            origin_multikey: &self.host_mk,
            manifest_version: self.manifest_version,
            chunk_index: self.chunk_index,
            chunk_count: self.chunk_count,
            flags: self.flags,
            canonical_entries: &self.entries,
        }
    }
}

fn fresh_chunk_fixture() -> (Keypair, ChunkFixture) {
    let host_kp = Keypair::generate_ed25519();
    let host_mk = Multikey::from(host_kp.public()).encode();
    let fixture = ChunkFixture {
        host_mk,
        manifest_version: 7,
        chunk_index: 0,
        chunk_count: 1,
        flags: 0,
        entries: vec![1, 2, 3, 4, 5, 6, 7, 8],
    };
    (host_kp, fixture)
}

#[test]
fn chunk_sign_verify_roundtrip() {
    let (host_kp, fixture) = fresh_chunk_fixture();
    let sig = host_kp
        .sign(&fixture.ctx().signing_input())
        .expect("ed25519 sign");

    assert!(
        host_kp
            .public()
            .verify(&fixture.ctx().signing_input(), &sig),
        "chunk signature must verify with the same inputs"
    );
}

#[test]
fn chunk_verify_fails_on_tampered_flags() {
    let (host_kp, mut fixture) = fresh_chunk_fixture();
    let sig = host_kp
        .sign(&fixture.ctx().signing_input())
        .expect("ed25519 sign");

    fixture.flags ^= 0x01;

    assert!(
        !host_kp
            .public()
            .verify(&fixture.ctx().signing_input(), &sig),
        "flipping the flags byte must invalidate the signature"
    );
}

#[test]
fn chunk_verify_fails_on_tampered_manifest_version() {
    let (host_kp, mut fixture) = fresh_chunk_fixture();
    let sig = host_kp
        .sign(&fixture.ctx().signing_input())
        .expect("ed25519 sign");

    fixture.manifest_version = fixture.manifest_version.wrapping_add(1);

    assert!(
        !host_kp
            .public()
            .verify(&fixture.ctx().signing_input(), &sig),
        "altering manifest_version must invalidate the signature"
    );
}

#[test]
fn chunk_verify_fails_on_tampered_chunk_index() {
    let (host_kp, mut fixture) = fresh_chunk_fixture();
    fixture.chunk_count = 3;
    let sig = host_kp
        .sign(&fixture.ctx().signing_input())
        .expect("ed25519 sign");

    fixture.chunk_index = 2;

    assert!(
        !host_kp
            .public()
            .verify(&fixture.ctx().signing_input(), &sig),
        "altering chunk_index must invalidate the signature"
    );
}

#[test]
fn chunk_verify_fails_on_tampered_entries() {
    let (host_kp, mut fixture) = fresh_chunk_fixture();
    let sig = host_kp
        .sign(&fixture.ctx().signing_input())
        .expect("ed25519 sign");

    fixture.entries[0] ^= 0xFF;

    assert!(
        !host_kp
            .public()
            .verify(&fixture.ctx().signing_input(), &sig),
        "altering canonical_entries must invalidate the signature"
    );
}

#[test]
fn signing_inputs_have_the_documented_layout() {
    let input = delegation_signing_input(&[9, 9], 0x0102_0304_0506_0708);
    assert_eq!(input, vec![9, 9, 1, 2, 3, 4, 5, 6, 7, 8]);

    let ctx = ChunkSigningCtx {
        origin_multikey: &[0xAA],
        manifest_version: 0x0A0B_0C0D,
        chunk_index: 1,
        chunk_count: 2,
        flags: 1,
        canonical_entries: &[0xEE, 0xFF],
    };
    assert_eq!(
        ctx.signing_input(),
        vec![0xAA, 0x0A, 0x0B, 0x0C, 0x0D, 1, 2, 1, 0xEE, 0xFF]
    );
}

#[test]
fn routing_id_is_the_digest_prefix_of_the_encoded_key() {
    let mk = Multikey::from(Keypair::generate_ed25519().public());
    let digest = Sha256::digest(mk.encode());
    assert_eq!(&mk.to_id()[..], &digest[..8]);
}

#[test]
fn from_multihash_refuses_codes_other_than_identity() {
    match Multikey::from_multihash(0x12, &[1, 2, 3]) {
        Err(RoutingV2Error::PeerIdNotInlineKey(code)) => assert_eq!(code, 0x12),
        other => panic!("expected PeerIdNotInlineKey, got {other:?}"),
    }
    let mk = Multikey::from(Keypair::generate_ed25519().public());
    let back = Multikey::from_multihash(0, &mk.encode()).expect("identity code decodes");
    assert_eq!(back.encode(), mk.encode());
}

#[test]
fn profile_sign_input_layout() {
    let (_, profile) = fresh_profile("ab", 0x01020304);
    let mut expected = profile.multikey.encode();
    expected.extend_from_slice(&[1, 2, 3, 4, b'a', b'b']);
    assert_eq!(profile.sign_input(), expected);
}

#[test]
fn peer_multihash_of_an_ed25519_peer_is_its_inline_key() {
    let kp = Keypair::generate_ed25519();
    let peer = kp.public().to_peer_id();
    let mh = PeerMultihash::of(&peer);
    assert_eq!(mh.code, 0);
    assert_eq!(mh.digest, Multikey::from(kp.public()).encode());
}

#[test]
fn decoded_key_reencodes_to_the_canonical_bytes() {
    let kp = Keypair::generate_ed25519();
    let bytes = kp.public().encode_protobuf();
    let mk = Multikey::decode(&bytes).expect("decodes");
    assert_eq!(mk.encode(), bytes);
    assert_eq!(mk.to_id(), Multikey::from(kp.public()).to_id());
}
