use qaul_router::codec::messages::{
    DeltaAdd, DeltaRemove, IndexDump, ManifestDelta, ManifestEntry, ManifestRequest,
    ManifestRequestItem, Mapping, NodeManifest,
};
use qaul_router::codec::utils::{fill_hop_bytes, unpack_hop_byte};
use qaul_router::codec::CodecError;

fn entry(b: u8) -> ManifestEntry {
    ManifestEntry {
        user_id: [b; 8],
        timeout: 0x0102_0304_0506_0708,
        entry_signature: [b; 64],
        profile_version: 0x0A0B_0C0D,
    }
}

#[test]
fn manifest_entry_is_84_bytes_in_field_order() {
    let mut buf = Vec::new();
    entry(0x11).encode(&mut buf);
    assert_eq!(buf.len(), 84);
    assert_eq!(&buf[..8], &[0x11; 8]);
    assert_eq!(&buf[8..16], &[1, 2, 3, 4, 5, 6, 7, 8]);
    assert_eq!(&buf[16..80], &[0x11; 64][..]);
    assert_eq!(&buf[80..], &[0x0A, 0x0B, 0x0C, 0x0D]);
}

#[test]
fn node_manifest_round_trips_and_has_the_documented_size() {
    let m = NodeManifest {
        origin_node_id: [0x42; 8],
        manifest_version: 7,
        chunk_index: 1,
        chunk_count: 2,
        flags: 0xFF,
        manifest_signature: [0xCC; 64],
        entries: vec![entry(1), entry(2)],
    };
    let mut buf = Vec::new();
    m.encode(&mut buf).expect("encode");
    assert_eq!(buf.len(), 8 + 4 + 3 + 64 + 2 + 2 * 84);
    let d = NodeManifest::decode(&buf).expect("decode");
    assert_eq!(d.origin_node_id, [0x42; 8]);
    assert_eq!(d.manifest_version, 7);
    assert_eq!(d.chunk_index, 1);
    assert_eq!(d.chunk_count, 2);
    assert_eq!(d.flags, 0xFF);
    assert_eq!(d.manifest_signature, [0xCC; 64]);
    assert_eq!(d.entries.len(), 2);
    assert_eq!(d.entries[1].user_id, [2; 8]);
    assert_eq!(d.entries[1].profile_version, 0x0A0B_0C0D);
    for n in 0..buf.len() {
        assert!(NodeManifest::decode(&buf[..n]).is_err());
    }
    buf.push(0);
    assert!(matches!(NodeManifest::decode(&buf), Err(CodecError::Malformed)));
}

#[test]
fn manifest_delta_round_trips() {
    let d = ManifestDelta {
        origin_node_id: [3; 8],
        from_version: 10,
        to_version: 12,
        flags: 1,
        manifest_signature: [9; 64],
        adds: vec![DeltaAdd { record_version: 11, entry: entry(5) }],
        removes: vec![DeltaRemove { user_id: [6; 8], record_version: 12 }],
    };
    let mut buf = Vec::new();
    d.encode(&mut buf).expect("encode");
    assert_eq!(buf.len(), 8 + 4 + 4 + 1 + 64 + 2 + 88 + 2 + 12);
    let back = ManifestDelta::decode(&buf).expect("decode");
    assert_eq!(back.from_version, 10);
    assert_eq!(back.to_version, 12);
    assert_eq!(back.adds.len(), 1);
    assert_eq!(back.adds[0].record_version, 11);
    assert_eq!(back.adds[0].entry.user_id, [5; 8]);
    assert_eq!(back.removes.len(), 1);
    assert_eq!(back.removes[0].user_id, [6; 8]);
    assert_eq!(back.removes[0].record_version, 12);
    assert!(matches!(ManifestDelta::decode(&buf[..buf.len() - 1]), Err(CodecError::Short)));
}

#[test]
fn manifest_request_round_trips_and_reads_have_none() {
    let r = ManifestRequest {
        items: vec![
            ManifestRequestItem { origin_node_id: [1; 8], have_version: 5, item_flags: 0 },
            ManifestRequestItem { origin_node_id: [2; 8], have_version: 0, item_flags: 1 },
        ],
    };
    let mut buf = Vec::new();
    r.encode(&mut buf).expect("encode");
    assert_eq!(buf.len(), 1 + 2 * 13);
    assert_eq!(buf[0], 2);
    let back = ManifestRequest::decode(&buf).expect("decode");
    assert_eq!(back.items.len(), 2);
    assert!(!back.items[0].have_none());
    assert!(back.items[1].have_none());
    assert_eq!(back.items[0].have_version, 5);
    assert_eq!(back.items[1].origin_node_id, [2; 8]);
}

#[test]
fn index_dump_round_trips_with_its_chunk_fields() {
    let d = IndexDump {
        chunk_index: 3,
        chunk_count: 4,
        user_mappings: vec![Mapping { abs_idx: 9, target_id: [7; 8], version: 1 }],
        node_mappings: vec![Mapping { abs_idx: 400, target_id: [8; 8], version: 2 }],
    };
    let mut buf = Vec::new();
    d.encode(&mut buf).expect("encode");
    assert_eq!(&buf[..4], &[3, 4, 0, 1]);
    let back = IndexDump::decode(&buf).expect("decode");
    assert_eq!(back.chunk_index, 3);
    assert_eq!(back.chunk_count, 4);
    assert_eq!(back.user_mappings[0].abs_idx, 9);
    assert_eq!(back.node_mappings[0].abs_idx, 400);
    assert_eq!(back.node_mappings[0].target_id, [8; 8]);
    assert!(matches!(IndexDump::decode(&[]), Err(CodecError::Short)));
}

#[test]
fn hop_byte_packs_and_unpacks() {
    assert_eq!(fill_hop_bytes(5, true), 0x85);
    assert_eq!(fill_hop_bytes(0xFF, false), 0x3F);
    assert_eq!(unpack_hop_byte(0x85), (5, true));
    assert_eq!(unpack_hop_byte(0x40), (0, false));
    for h in 0..64u8 {
        for l in [false, true] {
            assert_eq!(unpack_hop_byte(fill_hop_bytes(h, l)), (h, l));
        }
    }
}

fn assert_node_manifest_eq(actual: &NodeManifest, expected: &NodeManifest) {
    assert_eq!(actual.origin_node_id, expected.origin_node_id, "origin_node_id");
    assert_eq!(actual.manifest_version, expected.manifest_version, "manifest_version");
    assert_eq!(actual.chunk_index, expected.chunk_index, "chunk_index");
    assert_eq!(actual.chunk_count, expected.chunk_count, "chunk_count");
    assert_eq!(actual.flags, expected.flags, "flags");
    assert_eq!(actual.manifest_signature, expected.manifest_signature, "manifest_signature");
    assert_eq!(actual.entries.len(), expected.entries.len(), "entries.len()");
    for (a, e) in actual.entries.iter().zip(expected.entries.iter()) {
        assert_eq!(a.user_id, e.user_id);
        assert_eq!(a.timeout, e.timeout);
        assert_eq!(a.entry_signature, e.entry_signature);
        assert_eq!(a.profile_version, e.profile_version);
    }
}

fn sample_manifest_entry(user_id_byte: u8, timeout: u64, sig_byte: u8) -> ManifestEntry {
    ManifestEntry { user_id: [user_id_byte; 8], timeout, entry_signature: [sig_byte; 64], profile_version: 0 }
}

fn empty_node_manifest() -> NodeManifest {
    NodeManifest {
        origin_node_id: [0; 8],
        manifest_version: 0,
        chunk_index: 0,
        chunk_count: 1,
        flags: 0,
        manifest_signature: [0; 64],
        entries: Vec::new(),
    }
}

#[test]
fn empty_node_manifest_round_trips() {
    let m = NodeManifest {
        origin_node_id: [42; 8],
        manifest_version: 7,
        chunk_index: 0,
        chunk_count: 1,
        flags: 0x01,
        manifest_signature: [0xCC; 64],
        entries: Vec::new(),
    };
    let mut buf = Vec::new();
    m.encode(&mut buf).expect("encode");
    let decoded = NodeManifest::decode(&buf).expect("decode");
    assert_node_manifest_eq(&decoded, &m);
}

#[test]
fn multi_entry_round_trip() {
    let m = NodeManifest {
        origin_node_id: [10; 8],
        manifest_version: 100,
        chunk_index: 0,
        chunk_count: 1,
        flags: 0x00,
        manifest_signature: [0xCC; 64],
        entries: vec![
            sample_manifest_entry(0x01, 1_000_000, 0xA1),
            sample_manifest_entry(0x02, 2_000_000, 0xA2),
            sample_manifest_entry(0x03, 3_000_000, 0xA3),
        ],
    };
    let mut buf = Vec::new();
    m.encode(&mut buf).expect("encode");
    let decoded = NodeManifest::decode(&buf).expect("decode");
    assert_node_manifest_eq(&decoded, &m);
    assert_ne!(decoded.entries[0].user_id, decoded.entries[1].user_id);
    assert_ne!(decoded.entries[1].user_id, decoded.entries[2].user_id);
}

#[test]
fn flags_is_gateway_round_trips() {
    let mut m = empty_node_manifest();
    m.flags = 0x01;
    let mut buf = Vec::new();
    m.encode(&mut buf).expect("encode");
    assert_eq!(NodeManifest::decode(&buf).expect("decode").flags, 0x01);
}

#[test]
fn flags_reserved_bits_pass_through_codec_unchanged() {
    let mut m = empty_node_manifest();
    m.flags = 0xFF;
    let mut buf = Vec::new();
    m.encode(&mut buf).expect("encode");
    assert_eq!(
        NodeManifest::decode(&buf).expect("decode").flags,
        0xFF,
        "codec must preserve all bits; reserved-bit masking is the receiver's job"
    );
}

#[test]
fn decode_truncation_never_panics() {
    let m = NodeManifest {
        origin_node_id: [42; 8],
        manifest_version: 7,
        chunk_index: 0,
        chunk_count: 1,
        flags: 0x01,
        manifest_signature: [0xCC; 64],
        entries: vec![sample_manifest_entry(0xAA, 12345, 0xDD)],
    };
    let mut full = Vec::new();
    m.encode(&mut full).expect("encode");
    for n in 0..full.len() {
        let result = NodeManifest::decode(&full[..n]);
        assert!(result.is_err(), "len {n}: expected Err, got {result:?}");
    }
}

#[test]
fn decode_trailing_bytes_returns_malformed_node_manifest() {
    let m = empty_node_manifest();
    let mut buf = Vec::new();
    m.encode(&mut buf).expect("encode");
    buf.extend_from_slice(&[0xDE, 0xAD]);
    assert!(matches!(NodeManifest::decode(&buf), Err(CodecError::Malformed)));
}

#[test]
fn empty_node_manifest_body_is_81_bytes() {
    let mut buf = Vec::new();
    empty_node_manifest().encode(&mut buf).expect("encode");
    // origin_node_id(8) + manifest_version(4) + chunk_index(1)
    // + chunk_count(1) + flags(1) + manifest_signature(64) + n_entries(2)
    assert_eq!(buf.len(), 81);
    assert_eq!(&buf[..8], &[0; 8]);
    assert_eq!(&buf[12..15], &[0, 1, 0]);
    assert_eq!(&buf[79..], &[0, 0]);
}

#[test]
fn one_entry_byte_layout_names_the_origin_by_id() {
    let m = NodeManifest {
        origin_node_id: [0x12, 0x34, 0x56, 0x78, 0x9A, 0xBC, 0xDE, 0xF0],
        manifest_version: 0x0A0B0C0D,
        chunk_index: 0x02,
        chunk_count: 0x03,
        flags: 0x01,
        manifest_signature: [0xAA; 64],
        entries: vec![ManifestEntry {
            user_id: [0x11; 8],
            timeout: 0x00_11_22_33_44_55_66_77,
            entry_signature: [0xBB; 64],
            profile_version: 0x01020304,
        }],
    };
    let mut buf = Vec::new();
    m.encode(&mut buf).expect("encode");

    let mut expected = Vec::new();
    expected.extend_from_slice(&[0x12, 0x34, 0x56, 0x78, 0x9A, 0xBC, 0xDE, 0xF0]); // origin_node_id
    expected.extend_from_slice(&[0x0A, 0x0B, 0x0C, 0x0D]); // manifest_version
    expected.push(0x02); // chunk_index
    expected.push(0x03); // chunk_count
    expected.push(0x01); // flags
    expected.extend_from_slice(&[0xAA; 64]); // manifest_signature
    expected.extend_from_slice(&[0x00, 0x01]); // n_entries = 1
    expected.extend_from_slice(&[0x11; 8]); // user_id
    expected.extend_from_slice(&[0x00, 0x11, 0x22, 0x33, 0x44, 0x55, 0x66, 0x77]); // timeout
    expected.extend_from_slice(&[0xBB; 64]); // entry_signature
    expected.extend_from_slice(&[0x01, 0x02, 0x03, 0x04]); // profile_version

    assert_eq!(buf, expected);
    assert_eq!(buf.len(), 81 + 84);
}
