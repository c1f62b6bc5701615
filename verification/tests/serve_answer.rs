use qaul_router::codec::messages::{ManifestEntry, NodeManifest};
use qaul_router::manifest::log::LogRecord;
use qaul_router::manifest::serve::{delta_answer, full_manifest_chunks, node_serve_state};
use qaul_router::sphere::Sphere;

fn entry(b: u8) -> ManifestEntry {
    ManifestEntry { user_id: [b; 8], timeout: 1000, entry_signature: [b; 64], profile_version: 2 }
}

#[test]
fn stub_node_has_nothing_to_serve() {
    assert!(node_serve_state(0, 0, 0, None).is_none());
    let s = node_serve_state(0, 1, 0, Some(Sphere::Local)).expect("has entries");
    assert_eq!(s.committed, 0);
    let s = node_serve_state(7, 0, 3, Some(Sphere::Internet)).expect("has a version");
    assert_eq!(s.committed, 7);
    assert_eq!(s.log_base, 3);
    assert_eq!(s.learn_sphere, Some(Sphere::Internet));
}

#[test]
fn full_answer_prefers_retained_chunks() {
    let retained = NodeManifest {
        origin_node_id: [1; 8],
        manifest_version: 4,
        chunk_index: 0,
        chunk_count: 1,
        flags: 0,
        manifest_signature: [5; 64],
        entries: vec![entry(3)],
    };
    let cs = full_manifest_chunks([1; 8], 4, true, vec![], Some([9; 64]), Some(vec![retained]))
        .expect("retained");
    assert_eq!(cs.len(), 1);
    assert_eq!(cs[0].manifest_signature, [5; 64]);
    assert_eq!(cs[0].flags, 0);
}

#[test]
fn full_answer_rebuilds_single_chunk_under_stored_signature() {
    let cs = full_manifest_chunks([1; 8], 4, true, vec![entry(3), entry(4)], Some([9; 64]), None)
        .expect("signed");
    assert_eq!(cs.len(), 1);
    assert_eq!(cs[0].chunk_count, 1);
    assert_eq!(cs[0].flags, 1);
    assert_eq!(cs[0].manifest_signature, [9; 64]);
    assert_eq!(cs[0].entries.len(), 2);
}

#[test]
fn full_answer_needs_a_signature_or_retained_chunks() {
    assert!(full_manifest_chunks([1; 8], 4, false, vec![entry(3)], None, None).is_none());
}

#[test]
fn delta_answer_carries_records_after() {
    let records = vec![
        LogRecord::Add { record_version: 5, entry: entry(3) },
        LogRecord::Tombstone { user_id: [4; 8], record_version: 6, created_ms: 0 },
    ];
    let d = delta_answer([1; 8], 4, 6, false, Some([9; 64]), records).expect("fits");
    assert_eq!(d.from_version, 4);
    assert_eq!(d.to_version, 6);
    assert_eq!(d.adds.len(), 1);
    assert_eq!(d.removes.len(), 1);
    assert_eq!(d.manifest_signature, [9; 64]);
}

#[test]
fn delta_answer_without_signature_falls_back_to_full() {
    assert!(delta_answer([1; 8], 4, 6, false, None, vec![]).is_none());
}

#[test]
fn oversize_delta_falls_back_to_full() {
    let records: Vec<LogRecord> = (0..700u32)
        .map(|i| LogRecord::Add {
            record_version: i + 5,
            entry: ManifestEntry {
                user_id: (i as u64).to_be_bytes(),
                timeout: 1,
                entry_signature: [0; 64],
                profile_version: 1,
            },
        })
        .collect();
    assert!(delta_answer([1; 8], 4, 800, false, Some([9; 64]), records).is_none());
}
