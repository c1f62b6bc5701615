use qaul_router::codec::messages::{ManifestEntry, ManifestRequestItem, NodeManifest};
use qaul_router::manifest::serve::{decide_serve, ChunkAssembler, OriginServeState, ServeDecision};
use qaul_router::sphere::Sphere;

fn item(have_version: u32, none: bool) -> ManifestRequestItem {
    ManifestRequestItem { origin_node_id: [1; 8], have_version, item_flags: if none { 1 } else { 0 } }
}

fn origin(committed: u32, log_base: u32, learn: Option<Sphere>) -> OriginServeState {
    OriginServeState { committed, log_base, learn_sphere: learn }
}

#[test]
fn internet_learnt_manifests_are_sealed_from_local_requesters() {
    let o = origin(10, 2, Some(Sphere::Internet));
    assert_eq!(decide_serve(&item(5, false), &o, Sphere::Local), ServeDecision::Sealed);
    assert_eq!(decide_serve(&item(5, false), &o, Sphere::Internet), ServeDecision::Delta { from_version: 5 });
}

#[test]
fn requester_without_state_or_behind_the_log_gets_full() {
    let o = origin(10, 5, Some(Sphere::Local));
    assert_eq!(decide_serve(&item(7, true), &o, Sphere::Local), ServeDecision::Full);
    assert_eq!(decide_serve(&item(5, false), &o, Sphere::Local), ServeDecision::Full);
    assert_eq!(decide_serve(&item(3, false), &o, Sphere::Local), ServeDecision::Full);
}

#[test]
fn equal_versions_get_nothing_and_older_ones_a_delta() {
    let o = origin(10, 5, None);
    assert_eq!(decide_serve(&item(10, false), &o, Sphere::Local), ServeDecision::Nothing);
    assert_eq!(decide_serve(&item(6, false), &o, Sphere::Local), ServeDecision::Delta { from_version: 6 });
    assert_eq!(decide_serve(&item(11, false), &o, Sphere::Local), ServeDecision::Full);
}

fn chunk(v: u32, i: u8, n: u8, flags: u8, id: u8) -> NodeManifest {
    NodeManifest {
        origin_node_id: [0; 8],
        manifest_version: v,
        chunk_index: i,
        chunk_count: n,
        flags,
        manifest_signature: [0; 64],
        entries: vec![ManifestEntry { user_id: [id; 8], timeout: 0, entry_signature: [0; 64], profile_version: 0 }],
    }
}

#[test]
fn assembler_keeps_origins_apart_and_replaces_repeated_chunks() {
    let mut a = ChunkAssembler::new();
    assert!(a.insert([1; 8], chunk(1, 0, 2, 0, 10)).is_none());
    assert!(a.insert([2; 8], chunk(4, 1, 2, 0, 40)).is_none());
    assert!(a.insert([1; 8], chunk(1, 0, 2, 0, 11)).is_none(), "a repeated index replaces");
    let done = a.insert([1; 8], chunk(1, 1, 2, 0, 12)).expect("origin 1 whole");
    let ids: Vec<u8> = done.entries.iter().map(|e| e.user_id[0]).collect();
    assert_eq!(ids, vec![11, 12]);
    assert_eq!(done.chunks.len(), 2);
    assert_eq!(done.chunks[0].chunk_index, 0);
    let done2 = a.insert([2; 8], chunk(4, 0, 2, 0, 30)).expect("origin 2 whole");
    assert_eq!(done2.manifest_version, 4);
    let ids: Vec<u8> = done2.entries.iter().map(|e| e.user_id[0]).collect();
    assert_eq!(ids, vec![30, 40]);
}

#[test]
fn assembler_resets_on_inconsistent_flags() {
    let mut a = ChunkAssembler::new();
    assert!(a.insert([1; 8], chunk(1, 0, 2, 0, 10)).is_none());
    assert!(a.insert([1; 8], chunk(1, 1, 2, 1, 11)).is_none());
    assert!(a.insert([1; 8], chunk(1, 1, 2, 0, 12)).is_none(), "the partial was dropped");
}

#[test]
fn completed_manifest_reads_its_flags_and_whole_state_signature() {
    let mut a = ChunkAssembler::new();
    let mut c = chunk(3, 0, 1, 1, 7);
    c.manifest_signature = [5; 64];
    let done = a.insert([1; 8], c).unwrap();
    assert!(done.is_gateway());
    assert_eq!(done.whole_state_signature(), Some([5; 64]));
    let mut a = ChunkAssembler::new();
    assert!(a.insert([1; 8], chunk(3, 0, 2, 2, 7)).is_none());
    let done = a.insert([1; 8], chunk(3, 1, 2, 2, 8)).unwrap();
    assert!(!done.is_gateway(), "only bit 0 counts");
    assert_eq!(done.whole_state_signature(), None);
}
