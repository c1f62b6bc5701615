use qaul_router::identity::SigningKeys;
use libp2p::identity::Keypair;
use qaul_router::codec::messages::ManifestEntry;
use qaul_router::identity::Multikey;
use qaul_router::manifest::log::LogRecord;
use qaul_router::manifest::{
    canonical_entry_bytes, reconstruct_single_chunk_full, BuildError, DeltaHeader, Manifest,
    ManifestError,
};

fn entry(b: u8, timeout: u64) -> ManifestEntry {
    ManifestEntry { user_id: [b; 8], timeout, entry_signature: [b; 64], profile_version: 0 }
}

fn ids(m: &Manifest) -> Vec<u8> {
    m.entries().iter().map(|e| e.user_id[0]).collect()
}

#[test]
fn upsert_inserts_in_order_and_reports_changes() {
    let mut m = Manifest::new();
    assert!(m.upsert_entry(entry(5, 1)));
    assert!(m.upsert_entry(entry(2, 1)));
    assert!(m.upsert_entry(entry(9, 1)));
    assert_eq!(ids(&m), vec![2, 5, 9]);
    assert!(!m.upsert_entry(entry(5, 1)), "same delegation is no change");
    assert!(m.upsert_entry(entry(5, 2)), "new timeout is a change");
    assert_eq!(m.entries()[1].timeout, 2);
    assert_eq!(m.entries().len(), 3);
}

#[test]
fn remove_entry_reports_whether_one_was_there() {
    let mut m = Manifest::new();
    m.upsert_entry(entry(1, 0));
    m.upsert_entry(entry(3, 0));
    assert!(m.remove_entry(&[1; 8]));
    assert!(!m.remove_entry(&[1; 8]));
    assert!(!m.remove_entry(&[2; 8]));
    assert_eq!(ids(&m), vec![3]);
}

#[test]
fn remove_undoes_an_upsert_of_a_new_user() {
    let mut m = Manifest::new();
    m.set_entries(vec![entry(4, 0), entry(8, 0)]);
    let before: Vec<u8> = ids(&m);
    assert!(m.upsert_entry(entry(6, 0)));
    assert!(m.remove_entry(&[6; 8]));
    assert_eq!(ids(&m), before);
}

#[test]
fn set_entries_keeps_duplicates_in_given_order() {
    let mut m = Manifest::new();
    m.set_entries(vec![entry(3, 1), entry(1, 0), entry(3, 2), entry(2, 0)]);
    let got: Vec<(u8, u64)> = m.entries().iter().map(|e| (e.user_id[0], e.timeout)).collect();
    assert_eq!(got, vec![(1, 0), (2, 0), (3, 1), (3, 2)]);
}

#[test]
fn canonical_bytes_are_the_concatenated_entries() {
    let es = [entry(1, 0), entry(2, 0)];
    let bytes = canonical_entry_bytes(&es);
    assert_eq!(bytes.len(), 168);
    let mut first = Vec::new();
    es[0].encode(&mut first);
    assert_eq!(&bytes[..84], &first[..]);

    let mut m = Manifest::new();
    m.set_entries(es.to_vec());
    assert_eq!(m.canonical_chunk_bytes(1..2), bytes[84..].to_vec());
    assert!(m.canonical_chunk_bytes(0..0).is_empty());
}

#[test]
fn reconstructed_full_chunk_is_chunk_zero_of_one() {
    let nm = reconstruct_single_chunk_full([1; 8], 9, true, vec![entry(3, 0)], [7; 64]);
    assert_eq!(nm.chunk_index, 0);
    assert_eq!(nm.chunk_count, 1);
    assert_eq!(nm.flags, 1);
    assert_eq!(nm.manifest_version, 9);
    assert_eq!(nm.manifest_signature, [7; 64]);
    assert_eq!(nm.entries.len(), 1);
    let nm = reconstruct_single_chunk_full([1; 8], 9, false, vec![], [7; 64]);
    assert_eq!(nm.flags, 0);
}

fn header() -> DeltaHeader {
    DeltaHeader {
        origin_node_id: [4; 8],
        from_version: 1,
        to_version: 3,
        is_gateway: true,
        manifest_signature: [5; 64],
    }
}

#[test]
fn delta_assembly_splits_adds_and_removes_in_order() {
    let records = vec![
        LogRecord::Add { record_version: 2, entry: entry(1, 0) },
        LogRecord::Tombstone { user_id: [2; 8], record_version: 3, created_ms: 0 },
        LogRecord::Add { record_version: 3, entry: entry(3, 0) },
    ];
    let d = header().assemble(records).expect("fits");
    assert_eq!(d.flags, 1);
    assert_eq!(d.from_version, 1);
    assert_eq!(d.to_version, 3);
    assert_eq!(d.adds.len(), 2);
    assert_eq!(d.adds[1].entry.user_id, [3; 8]);
    assert_eq!(d.removes.len(), 1);
    assert_eq!(d.removes[0].user_id, [2; 8]);
}

#[test]
fn delta_assembly_refuses_bodies_over_the_bound() {
    // 88 * 697 + 89 = 61_425 fits, 88 * 698 + 89 = 61_513 does not.
    let fits: Vec<LogRecord> =
        (0..697).map(|i| LogRecord::Add { record_version: i, entry: entry(0, 0) }).collect();
    assert!(header().assemble(fits).is_ok());
    let too_many: Vec<LogRecord> =
        (0..698).map(|i| LogRecord::Add { record_version: i, entry: entry(0, 0) }).collect();
    assert!(matches!(header().assemble(too_many), Err(BuildError::WouldExceedSizeLimit)));
}

#[test]
fn chunking_fills_730_entries_per_chunk() {
    let (kp, mk) = {
        let kp = Keypair::generate_ed25519();
        let mk = Multikey::from(kp.public());
        (kp, mk)
    };
    let mut m = Manifest::new();
    let es: Vec<ManifestEntry> = (0..731u32)
        .map(|i| ManifestEntry {
            user_id: [(i >> 8) as u8, i as u8, 0, 0, 0, 0, 0, 0],
            timeout: 0,
            entry_signature: [0; 64],
            profile_version: 0,
        })
        .collect();
    m.set_entries(es);
    let inputs = m.chunk_signing_inputs(&mk.encode()).expect("two chunks");
    assert_eq!(inputs.len(), 2);
    let chunks = m.build_chunks(mk.to_id(), &SigningKeys::new(kp.clone()), &mk.encode()).expect("signs");
    assert_eq!(chunks.len(), 2);
    assert_eq!(chunks[0].entries.len(), 730);
    assert_eq!(chunks[1].entries.len(), 1);
    assert_eq!(chunks[1].chunk_index, 1);
    assert_eq!(chunks[1].chunk_count, 2);
    for (i, c) in chunks.iter().enumerate() {
        assert!(mk.verify(&inputs[i], &c.manifest_signature));
        assert!(Manifest::verify_chunk(c, &mk).is_ok());
    }
}

#[test]
fn chunking_refuses_more_than_256_chunks() {
    let kp = Keypair::generate_ed25519();
    let mk = Multikey::from(kp.public());
    let mut m = Manifest::new();
    let n = 730 * 256 + 1;
    let es: Vec<ManifestEntry> = (0..n as u32)
        .map(|i| ManifestEntry {
            user_id: [0, (i >> 16) as u8, (i >> 8) as u8, i as u8, 0, 0, 0, 0],
            timeout: 0,
            entry_signature: [0; 64],
            profile_version: 0,
        })
        .collect();
    m.set_entries(es);
    assert!(matches!(m.chunk_signing_inputs(&mk.encode()), Err(ManifestError::TooManyChunks)));
}

#[test]
fn state_signature_verifies_over_the_state_signing_input() {
    let kp = Keypair::generate_ed25519();
    let mk = Multikey::from(kp.public());
    let mut m = Manifest::new();
    m.set_entries(vec![entry(1, 5)]);
    let sig = m.sign_state(&SigningKeys::new(kp.clone()), &mk.encode()).expect("signs");
    assert!(mk.verify(&m.state_signing_input(&mk.encode()), &sig));
    let chunks = m.build_chunks(mk.to_id(), &SigningKeys::new(kp.clone()), &mk.encode()).unwrap();
    assert_eq!(chunks[0].manifest_signature, sig, "one chunk: same signed bytes");
}

#[test]
fn chunks_from_signatures_carry_the_given_signatures() {
    let mut m = Manifest::new();
    m.set_entries(vec![entry(1, 0)]);
    m.set_gateway(true);
    let chunks = m.chunks_from_signatures([9; 8], &vec![[3; 64]]);
    assert_eq!(chunks.len(), 1);
    assert_eq!(chunks[0].manifest_signature, [3; 64]);
    assert_eq!(chunks[0].origin_node_id, [9; 8]);
    assert_eq!(chunks[0].flags, 1);
}
