use qaul_router::identity::SigningKeys;
use libp2p::identity::Keypair;
use qaul_router::identity::Multikey;
use qaul_router::profile::{check_profile_response, ProfileFields};

fn signed_fields(kp: &Keypair, name: &str, version: u32) -> ProfileFields {
    let mk: Multikey = kp.public().into();
    let key = mk.encode();
    let mut input = key.clone();
    input.extend_from_slice(&version.to_be_bytes());
    input.extend_from_slice(name.as_bytes());
    let sig = kp.sign(&input).expect("ed25519 sign");
    ProfileFields {
        multikey: key,
        profile_version: version,
        name: name.to_string(),
        self_signature: sig,
        capabilities: 7,
    }
}

#[test]
fn profile_response_with_valid_self_signature_is_accepted() {
    let kp = Keypair::generate_ed25519();
    let fields = signed_fields(&kp, "alice", 4);
    let mk: Multikey = kp.public().into();
    let v = check_profile_response(true, Some(fields)).expect("accepted");
    assert_eq!(v.subject, mk.to_id());
    assert_eq!(v.profile.version, 4);
    assert_eq!(v.profile.name, "alice");
    assert_eq!(v.capabilities, 7);
}

#[test]
fn profile_response_not_found_is_dropped() {
    let kp = Keypair::generate_ed25519();
    let fields = signed_fields(&kp, "alice", 4);
    assert!(check_profile_response(false, Some(fields)).is_none());
    assert!(check_profile_response(true, None).is_none());
}

#[test]
fn profile_response_with_tampered_name_is_dropped() {
    let kp = Keypair::generate_ed25519();
    let mut fields = signed_fields(&kp, "alice", 4);
    fields.name = "mallory".to_string();
    assert!(check_profile_response(true, Some(fields)).is_none());
}

#[test]
fn profile_response_with_short_signature_is_dropped() {
    let kp = Keypair::generate_ed25519();
    let mut fields = signed_fields(&kp, "alice", 4);
    fields.self_signature.truncate(63);
    assert!(check_profile_response(true, Some(fields)).is_none());
}

#[test]
fn profile_response_with_undecodable_key_is_dropped() {
    let kp = Keypair::generate_ed25519();
    let mut fields = signed_fields(&kp, "alice", 4);
    fields.multikey = vec![1, 2, 3];
    assert!(check_profile_response(true, Some(fields)).is_none());
}

use qaul_router::identity::{issue_self_delegation, sign_with_host, sign_with_user};
use qaul_router::manifest::Manifest;
use qaul_router::codec::messages::ManifestEntry;
use qaul_router::profile::{check_profile_signature, sign_node_profile};

#[test]
fn node_profile_is_self_signed_with_version_zero_and_no_name() {
    let kp = Keypair::generate_ed25519();
    let mk: Multikey = kp.public().into();
    let p = sign_node_profile(&SigningKeys::new(kp.clone()), mk.clone()).expect("ed25519 signs");
    assert_eq!(p.version, 0);
    assert!(p.name.is_empty());
    let v = check_profile_signature(p.multikey.clone(), p.version, p.name.clone(), &p.self_signature, 0)
        .expect("own profile verifies");
    assert_eq!(v.subject, mk.to_id());
}

#[test]
fn issued_self_delegation_verifies_for_the_host_only() {
    let user = Keypair::generate_ed25519();
    let host = Keypair::generate_ed25519();
    let other = Keypair::generate_ed25519();
    let host_mk: Multikey = host.public().into();
    let other_mk: Multikey = other.public().into();
    let user_mk: Multikey = user.public().into();
    let d = issue_self_delegation(&SigningKeys::new(user.clone()), &host_mk, 1_234).expect("signs");
    assert_eq!(d.timeout, 1_234);
    let entry = ManifestEntry { user_id: user_mk.to_id(), timeout: d.timeout, entry_signature: d.entry_signature, profile_version: 0 };
    assert!(Manifest::verify_entry(&entry, &host_mk, &user_mk).is_ok());
    assert!(Manifest::verify_entry(&entry, &other_mk, &user_mk).is_err());
}

#[test]
fn host_and_user_signatures_are_ed25519_signatures() {
    let kp = Keypair::generate_ed25519();
    let sig = sign_with_host(&SigningKeys::new(kp.clone()), b"abc").expect("signs");
    assert!(kp.public().verify(b"abc", &sig));
    let sig = sign_with_user(&SigningKeys::new(kp.clone()), b"xyz").expect("signs");
    assert!(kp.public().verify(b"xyz", &sig));
}
