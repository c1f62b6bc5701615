use std::time::Instant;

use libp2p::identity::Keypair;
use qaul_router::codec::messages::{DeltaAdd, DeltaRemove, ManifestDelta, ManifestEntry, Mapping};
use qaul_router::identity::{ChunkSigningCtx, Multikey};
use qaul_router::indexes::Indexes;
use qaul_router::manifest::canonical_entry_bytes;
use qaul_router::mirror::NeighbourInfo;
use qaul_router::receive::delta_scratch_entries;
use qaul_router::profile::ProfileFields;
use qaul_router::records::{
    apply_mapping, handle_manifest_delta, handle_profile_response, DeltaStep, NodeRecord, ProfileRequests, Records, UserRecord,
};
use qaul_router::sphere::{ConnectionModule, Space, Sphere};
use qaul_router::table::RoutingTable;

struct Router {
    indexes: Indexes,
    table: RoutingTable<u32>,
    neighbour: NeighbourInfo,
    records: Records,
}

fn router() -> Router {
    Router {
        indexes: Indexes::new(),
        table: RoutingTable::new(),
        neighbour: NeighbourInfo::new([0xAA; 8], ConnectionModule::Lan),
        records: Records::new(),
    }
}

fn mapping(idx: u16, id: [u8; 8], version: u32) -> Mapping {
    Mapping { abs_idx: idx, target_id: id, version }
}

fn apply(r: &mut Router, space: Space, m: Mapping) {
    let _ = apply_mapping(&mut r.indexes, &mut r.table, &mut r.neighbour, &mut r.records, space, &m, Instant::now());
}

fn install_user(r: &mut Router, id: [u8; 8], profile_version: u32) {
    r.records.users.insert(id, UserRecord { profile_version, public_key: None, is_hosted: false });
}

#[test]
fn apply_mapping_fresh_user_creates_stub_and_binds_mirror() {
    let mut r = router();
    apply(&mut r, Space::User, mapping(5, [1; 8], 42));
    assert_eq!(r.neighbour.users.id_of(5), Some([1; 8]));
    let user = r.records.users.get(&[1; 8]).unwrap();
    assert_eq!(user.profile_version, 42);
    assert!(user.public_key.is_none(), "stub must not fabricate a key");
}

#[test]
fn apply_mapping_fresh_node_creates_stub_and_binds_mirror() {
    let mut r = router();
    apply(&mut r, Space::Node, mapping(5, [2; 8], 99));
    assert_eq!(r.neighbour.nodes.id_of(5), Some([2; 8]));
    let n = r.records.nodes.get(&[2; 8]).unwrap();
    assert_eq!(n.manifest_version, 0, "stub node has no committed manifest");
    assert_eq!(n.advertised_version, 99, "mapping's version → advertised_version");
    assert!(!n.is_gateway, "stub node is not a gateway by default");
    assert!(n.public_key.is_none());
}

#[test]
fn apply_mapping_same_id_updates_version_only() {
    let mut r = router();
    let id = [3; 8];
    r.neighbour.users.bind(5, id);
    install_user(&mut r, id, 10);
    apply(&mut r, Space::User, mapping(5, id, 20));
    assert_eq!(r.neighbour.users.id_of(5), Some(id));
    assert_eq!(r.records.users.get(&id).unwrap().profile_version, 20);
}

#[test]
fn apply_mapping_rebind_clears_old_routing_state() {
    let mut r = router();
    let old_id = [10; 8];
    let new_id = [20; 8];
    let own_idx: u16 = 7;
    r.neighbour.users.bind(5, old_id);
    install_user(&mut r, old_id, 1);
    r.indexes.user_dict.bind(own_idx, old_id);
    r.table.set(Space::User, own_idx, 5);

    apply(&mut r, Space::User, mapping(5, new_id, 1));

    assert!(r.table.get(Space::User, own_idx).is_none());
    assert_eq!(r.indexes.user_dict.idx_of(&old_id), None);
    assert_eq!(r.indexes.user_dict.id_of(own_idx), None);
    assert!(r.indexes.users_allocator.idx_in_cooldown(own_idx));
    assert_eq!(r.neighbour.users.id_of(5), Some(new_id));
    assert!(r.records.users.get(&new_id).is_some());
}

#[test]
fn apply_mapping_incoming_version_equal_is_noop() {
    let mut r = router();
    let id = [4; 8];
    install_user(&mut r, id, 42);
    apply(&mut r, Space::User, mapping(5, id, 42));
    assert_eq!(r.records.users.get(&id).unwrap().profile_version, 42);
}

#[test]
fn apply_mapping_incoming_version_older_preserves_stored() {
    let mut r = router();
    let id = [5; 8];
    install_user(&mut r, id, 100);
    apply(&mut r, Space::User, mapping(5, id, 50));
    assert_eq!(
        r.records.users.get(&id).unwrap().profile_version,
        100,
        "stale-echo path must NOT overwrite the fresher stored version"
    );
}

#[test]
fn apply_mapping_incoming_version_fresher_updates_advertised_only() {
    let mut r = router();
    let id = [6; 8];
    let mut n = NodeRecord::stub(0);
    n.manifest_version = 5;
    r.records.nodes.insert(id, n);
    apply(&mut r, Space::Node, mapping(5, id, 12));
    let n = r.records.nodes.get(&id).unwrap();
    assert_eq!(n.manifest_version, 5, "committed manifest_version must not change from a mapping");
    assert_eq!(n.advertised_version, 12, "advertised_version records the incoming hint");
}

#[test]
fn apply_mapping_user_and_node_spaces_are_independent() {
    let mut r = router();
    let user_id = [11; 8];
    let node_id = [22; 8];
    apply(&mut r, Space::User, mapping(5, user_id, 1));
    apply(&mut r, Space::Node, mapping(5, node_id, 1));
    assert_eq!(r.neighbour.users.id_of(5), Some(user_id));
    assert_eq!(r.neighbour.nodes.id_of(5), Some(node_id));
    assert!(r.records.users.get(&user_id).is_some());
    assert!(r.records.users.get(&node_id).is_none());
    assert!(r.records.nodes.get(&node_id).is_some());
    assert!(r.records.nodes.get(&user_id).is_none());
}

#[test]
fn apply_mapping_with_fresher_profile_marks_the_user_again() {
    let mut r = router();
    let id = [7; 8];
    install_user(&mut r, id, 3);
    r.indexes.user_dict.bind(9, id);
    let p = apply_mapping(&mut r.indexes, &mut r.table, &mut r.neighbour, &mut r.records, Space::User, &mapping(5, id, 4), Instant::now());
    assert!(p.profile_bumped);
    assert!(p.request_profile);
    assert_eq!(r.indexes.tracker.take_pending(Space::User), vec![9]);
}

fn entry(b: u8) -> ManifestEntry {
    ManifestEntry { user_id: [b; 8], timeout: 0, entry_signature: [b; 64], profile_version: 0 }
}

/// A delta from `from` that removes user 1 and adds user 5, signed by `kp`.
fn signed_delta(kp: &Keypair, mk: &Multikey, stored: &[ManifestEntry], from: u32, flags: u8) -> ManifestDelta {
    let removes = vec![DeltaRemove { user_id: [1; 8], record_version: from + 1 }];
    let adds = vec![DeltaAdd { record_version: from + 1, entry: entry(5) }];
    let result = delta_scratch_entries(stored.to_vec(), &removes, &adds);
    let bytes = canonical_entry_bytes(&result);
    let key = mk.encode();
    let ctx = ChunkSigningCtx {
        origin_multikey: &key,
        manifest_version: from + 1,
        chunk_index: 0,
        chunk_count: 1,
        flags: flags & 1,
        canonical_entries: &bytes,
    };
    let sig: [u8; 64] = kp.sign(&ctx.signing_input()).unwrap().try_into().unwrap();
    ManifestDelta { origin_node_id: mk.to_id(), from_version: from, to_version: from + 1, flags, manifest_signature: sig, adds, removes }
}

/// Records holding the origin of `mk` committed at `version` with `stored`.
fn records_with_origin(mk: &Multikey, version: u32, stored: &[ManifestEntry], with_key: bool) -> Records {
    let mut records = Records::new();
    let mut n = NodeRecord::stub(version);
    n.manifest_version = version;
    n.delegated = stored.to_vec();
    if with_key {
        n.public_key = Some(mk.clone());
    }
    records.nodes.insert(mk.to_id(), n);
    records
}

#[test]
fn a_verified_delta_is_committed_to_the_origin_record() {
    let kp = Keypair::generate_ed25519();
    let mk = Multikey::from(kp.public());
    let stored = vec![entry(1), entry(3)];
    let msg = signed_delta(&kp, &mk, &stored, 4, 0x03);
    let mut records = records_with_origin(&mk, 4, &stored, true);
    let step = handle_manifest_delta(&mut records, &msg, ConnectionModule::Lan, 1_000, 60_000, 100);
    assert_eq!(step, DeltaStep::Committed);
    let n = records.nodes.get(&mk.to_id()).unwrap();
    assert_eq!(n.manifest_version, 5);
    assert!(n.is_gateway);
    let ids: Vec<u8> = n.delegated.iter().map(|e| e.user_id[0]).collect();
    assert_eq!(ids, vec![3, 5]);
    assert_eq!(n.manifest_signature, Some(msg.manifest_signature));
    assert_eq!(n.learn_sphere, Some(Sphere::Local));
    assert_eq!(n.manifest_log.len(), 2);
}

#[test]
fn a_delta_for_an_origin_without_a_key_asks_for_its_profile() {
    let kp = Keypair::generate_ed25519();
    let mk = Multikey::from(kp.public());
    let stored = vec![entry(1)];
    let msg = signed_delta(&kp, &mk, &stored, 4, 0);
    let mut keyless = records_with_origin(&mk, 4, &stored, false);
    assert_eq!(handle_manifest_delta(&mut keyless, &msg, ConnectionModule::Lan, 0, 0, 10), DeltaStep::KeyUnknown);
    assert_eq!(keyless.nodes.get(&mk.to_id()).unwrap().manifest_version, 4);
    let mut empty = Records::new();
    assert_eq!(handle_manifest_delta(&mut empty, &msg, ConnectionModule::Lan, 0, 0, 10), DeltaStep::KeyUnknown);
    assert_eq!(empty.nodes.len(), 0);
}

#[test]
fn a_delta_on_another_version_leaves_the_record() {
    let kp = Keypair::generate_ed25519();
    let mk = Multikey::from(kp.public());
    let stored = vec![entry(1)];
    let msg = signed_delta(&kp, &mk, &stored, 4, 1);
    let mut records = records_with_origin(&mk, 6, &stored, true);
    assert_eq!(handle_manifest_delta(&mut records, &msg, ConnectionModule::Lan, 0, 0, 10), DeltaStep::Stale);
    let n = records.nodes.get(&mk.to_id()).unwrap();
    assert_eq!(n.manifest_version, 6);
    assert!(!n.is_gateway);
    assert_eq!(n.delegated.len(), 1);
}

#[test]
fn a_delta_with_a_bad_signature_leaves_the_record() {
    let kp = Keypair::generate_ed25519();
    let mk = Multikey::from(kp.public());
    let stored = vec![entry(1)];
    let mut msg = signed_delta(&kp, &mk, &stored, 4, 1);
    msg.manifest_signature[0] ^= 1;
    let mut records = records_with_origin(&mk, 4, &stored, true);
    assert_eq!(handle_manifest_delta(&mut records, &msg, ConnectionModule::Internet, 0, 0, 10), DeltaStep::Invalid);
    let n = records.nodes.get(&mk.to_id()).unwrap();
    assert_eq!(n.manifest_version, 4);
    assert!(!n.is_gateway);
    assert!(n.manifest_signature.is_none());
    assert_eq!(n.manifest_log.len(), 0);
}

fn signed_profile(kp: &Keypair, name: &str, version: u32) -> ProfileFields {
    let mk: Multikey = kp.public().into();
    let key = mk.encode();
    let mut input = key.clone();
    input.extend_from_slice(&version.to_be_bytes());
    input.extend_from_slice(name.as_bytes());
    let sig = kp.sign(&input).expect("ed25519 sign");
    ProfileFields { multikey: key, profile_version: version, name: name.to_string(), self_signature: sig, capabilities: 3 }
}

#[test]
fn an_unsolicited_profile_is_discarded() {
    let kp = Keypair::generate_ed25519();
    let mk: Multikey = kp.public().into();
    let id = mk.to_id();
    let mut records = Records::new();
    records.users.insert(id, UserRecord { profile_version: 1, public_key: None, is_hosted: false });
    let mut requests = ProfileRequests::new();
    let r = handle_profile_response(&mut records, &mut requests, true, Some(signed_profile(&kp, "bob", 2)));
    assert!(r.is_none());
    let u = records.users.get(&id).unwrap();
    assert!(u.public_key.is_none());
    assert_eq!(u.profile_version, 1);
}

#[test]
fn a_requested_user_profile_teaches_key_and_version() {
    let kp = Keypair::generate_ed25519();
    let mk: Multikey = kp.public().into();
    let id = mk.to_id();
    let mut records = Records::new();
    records.users.insert(id, UserRecord { profile_version: 1, public_key: None, is_hosted: false });
    let mut requests = ProfileRequests::new();
    requests.as_user.insert(id, 100);
    let v = handle_profile_response(&mut records, &mut requests, true, Some(signed_profile(&kp, "bob", 2)))
        .expect("asked for as a user's profile");
    assert_eq!(v.subject, id);
    assert_eq!(v.profile.name, "bob");
    assert_eq!(v.capabilities, 3);
    let u = records.users.get(&id).unwrap();
    assert_eq!(u.public_key.as_ref().unwrap().encode(), mk.encode());
    assert_eq!(u.profile_version, 2);
    assert_eq!(requests.as_user.len(), 0);
}

#[test]
fn a_requested_node_profile_teaches_the_node_key_only() {
    let kp = Keypair::generate_ed25519();
    let mk: Multikey = kp.public().into();
    let id = mk.to_id();
    let mut records = Records::new();
    records.nodes.insert(id, NodeRecord::stub(7));
    let mut requests = ProfileRequests::new();
    requests.as_node.insert(id, 100);
    let r = handle_profile_response(&mut records, &mut requests, true, Some(signed_profile(&kp, "", 0)));
    assert!(r.is_none());
    let n = records.nodes.get(&id).unwrap();
    assert_eq!(n.public_key.as_ref().unwrap().encode(), mk.encode());
    assert_eq!(n.advertised_version, 7);
    assert_eq!(requests.as_node.len(), 0);
}

#[test]
fn a_forged_profile_leaves_the_request_open() {
    let kp = Keypair::generate_ed25519();
    let mk: Multikey = kp.public().into();
    let id = mk.to_id();
    let mut records = Records::new();
    records.users.insert(id, UserRecord { profile_version: 1, public_key: None, is_hosted: false });
    let mut requests = ProfileRequests::new();
    requests.as_user.insert(id, 100);
    let mut forged = signed_profile(&kp, "bob", 2);
    forged.name = "eve".to_string();
    assert!(handle_profile_response(&mut records, &mut requests, true, Some(forged)).is_none());
    assert!(records.users.get(&id).unwrap().public_key.is_none());
    assert_eq!(requests.as_user.len(), 1);
}

use qaul_router::tick::take_introductions;

#[test]
fn take_introductions_resolves_marks_and_drops_orphans() {
    let mut indexes = Indexes::new();
    let mut records = Records::new();
    records.users.insert([1; 8], UserRecord { profile_version: 7, public_key: None, is_hosted: false });
    indexes.user_dict.bind(10, [1; 8]);
    indexes.tracker.mark(Space::User, 10);
    indexes.tracker.mark(Space::User, 99);
    let mut n = NodeRecord::stub(4);
    n.manifest_version = 3;
    records.nodes.insert([2; 8], n);
    indexes.node_dict.bind(5, [2; 8]);
    indexes.tracker.mark(Space::Node, 5);

    let users = take_introductions(&mut indexes, &records, Space::User);
    let got: Vec<(u16, [u8; 8], u32)> = users.iter().map(|m| (m.abs_idx, m.target_id, m.version)).collect();
    assert_eq!(got, vec![(10, [1; 8], 7)]);
    assert!(indexes.tracker.take_pending(Space::User).is_empty());
    let nodes = take_introductions(&mut indexes, &records, Space::Node);
    let got: Vec<(u16, [u8; 8], u32)> = nodes.iter().map(|m| (m.abs_idx, m.target_id, m.version)).collect();
    assert_eq!(got, vec![(5, [2; 8], 3)], "a node is introduced with its committed version");
}

