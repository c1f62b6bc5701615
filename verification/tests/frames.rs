use qaul_router::codec::frame::{decode_frame, encode_frame, split_frames, Message};
use qaul_router::codec::messages::RoutingUpdate;
use qaul_router::codec::{CodecError, RoutingMessage};

#[test]
fn frames_split_back_into_what_was_framed() {
    let mut buf = encode_frame(RoutingMessage::IndexDump, &[1, 2, 3]).unwrap();
    buf.extend(encode_frame(RoutingMessage::ManifestRequest, &[]).unwrap());
    buf.extend(encode_frame(RoutingMessage::RoutingUpdate, &[9]).unwrap());
    let frames = split_frames(&buf);
    assert_eq!(frames.len(), 3);
    assert_eq!(frames[0].message_type, RoutingMessage::IndexDump);
    assert_eq!(frames[0].payload, vec![1, 2, 3]);
    assert_eq!(frames[1].message_type, RoutingMessage::ManifestRequest);
    assert!(frames[1].payload.is_empty());
    assert_eq!(frames[2].payload, vec![9]);
}

#[test]
fn frame_header_layout() {
    let f = encode_frame(RoutingMessage::NodeManifest, &[0xAA; 300]).unwrap();
    assert_eq!(&f[..4], &[0x01, 0x03, 0x01, 0x2C]);
    assert_eq!(f.len(), 304);
    assert!(encode_frame(RoutingMessage::NodeManifest, &vec![0; 70_000]).is_none());
}

#[test]
fn frames_of_another_version_are_skipped_by_their_length() {
    let mut buf = vec![0x02, 0x01, 0x00, 0x02, 0xEE, 0xEE];
    buf.extend(encode_frame(RoutingMessage::IndexDump, &[7]).unwrap());
    let frames = split_frames(&buf);
    assert_eq!(frames.len(), 1);
    assert_eq!(frames[0].payload, vec![7]);
}

#[test]
fn reading_stops_at_a_bad_header_or_a_short_frame() {
    let mut buf = encode_frame(RoutingMessage::IndexDump, &[7]).unwrap();
    buf.extend([0x01, 0x7F, 0x00, 0x00]);
    buf.extend(encode_frame(RoutingMessage::IndexDump, &[8]).unwrap());
    assert_eq!(split_frames(&buf).len(), 1, "unknown type ends the buffer");

    let mut buf = encode_frame(RoutingMessage::IndexDump, &[7]).unwrap();
    buf.extend([0x01, 0x02, 0x00, 0x05, 1, 2]);
    assert_eq!(split_frames(&buf).len(), 1, "a frame cut short ends the buffer");

    assert!(split_frames(&[0x02, 0x01, 0x00, 0x09]).is_empty(), "a skipped frame cut short ends it too");
}

#[test]
fn decoding_dispatches_on_the_announced_type() {
    let ru = RoutingUpdate {
        user_mappings: vec![],
        node_mappings: vec![],
        user_entries: vec![],
        node_entries: vec![],
    };
    let mut body = Vec::new();
    ru.encode(&mut body).unwrap();
    let buf = encode_frame(RoutingMessage::RoutingUpdate, &body).unwrap();
    let frames = split_frames(&buf);
    assert!(matches!(decode_frame(&frames[0]), Ok(Message::RoutingUpdate(_))));

    let buf = encode_frame(RoutingMessage::NodeManifest, &body).unwrap();
    let frames = split_frames(&buf);
    assert!(matches!(decode_frame(&frames[0]), Err(CodecError::Short)));
}

use qaul_router::codec::messages::{Entry, IndexDump, Mapping};

fn small_valid_update(target_id: [u8; 8]) -> RoutingUpdate {
    RoutingUpdate {
        user_mappings: vec![Mapping { abs_idx: 5, target_id, version: 1 }],
        node_mappings: Vec::new(),
        user_entries: vec![Entry { abs_idx: 5, seq: 1, metric: 10, hop_count: 1, local_only: false }],
        node_entries: Vec::new(),
    }
}

fn frame_routing_update(msg: &RoutingUpdate) -> Vec<u8> {
    let mut body = Vec::new();
    msg.encode(&mut body).unwrap();
    encode_frame(RoutingMessage::RoutingUpdate, &body).unwrap()
}

/// The routing updates a buffer delivers, in order, with the frames that
/// fail to decode dropped.
fn delivered_updates(buf: &[u8]) -> Vec<RoutingUpdate> {
    split_frames(buf)
        .iter()
        .filter_map(|f| match decode_frame(f) {
            Ok(Message::RoutingUpdate(u)) => Some(u),
            _ => None,
        })
        .collect()
}

#[test]
fn empty_buf_is_noop() {
    assert!(split_frames(&[]).is_empty());
}

#[test]
fn valid_routing_update_dispatches_to_orchestrator() {
    let bytes = frame_routing_update(&small_valid_update([1; 8]));
    let updates = delivered_updates(&bytes);
    assert_eq!(updates.len(), 1);
    assert_eq!(updates[0].user_mappings[0].target_id, [1; 8]);
    assert_eq!(updates[0].user_entries[0].abs_idx, 5);
}

#[test]
fn multiple_valid_messages_in_batch_are_all_processed() {
    let mut bytes = frame_routing_update(&small_valid_update([1; 8]));
    bytes.extend(frame_routing_update(&small_valid_update([2; 8])));
    let updates = delivered_updates(&bytes);
    assert_eq!(updates.len(), 2);
    assert_eq!(updates[0].user_mappings[0].target_id, [1; 8], "first message applied");
    assert_eq!(updates[1].user_mappings[0].target_id, [2; 8], "second message applied");
}

#[test]
fn bad_version_skips_and_processes_subsequent_valid_message() {
    let mut bytes = vec![0xFE, 0x01, 0x00, 0x08];
    bytes.extend_from_slice(&[0xAAu8; 8]);
    bytes.extend(frame_routing_update(&small_valid_update([3; 8])));
    let updates = delivered_updates(&bytes);
    assert_eq!(updates.len(), 1, "valid message following a BadVersion must still be processed");
    assert_eq!(updates[0].user_mappings[0].target_id, [3; 8]);
}

#[test]
fn truncated_body_returns_without_partial_state() {
    let mut bytes = vec![0x01, 0x01, 0x00, 0x64];
    bytes.extend_from_slice(&[0x00; 4]);
    assert!(split_frames(&bytes).is_empty());
}

#[test]
fn undecodable_body_is_skipped_and_next_processed() {
    let mut bytes = encode_frame(RoutingMessage::ManifestDelta, &[0x00u8; 2]).unwrap();
    bytes.extend(frame_routing_update(&small_valid_update([4; 8])));
    let frames = split_frames(&bytes);
    assert_eq!(frames.len(), 2);
    assert!(decode_frame(&frames[0]).is_err());
    let updates = delivered_updates(&bytes);
    assert_eq!(updates.len(), 1);
    assert_eq!(updates[0].user_mappings[0].target_id, [4; 8]);
}

#[test]
fn index_dump_is_dispatched_to_handler() {
    let dump = IndexDump {
        chunk_index: 0,
        chunk_count: 1,
        user_mappings: vec![Mapping { abs_idx: 12, target_id: [9; 8], version: 77 }],
        node_mappings: Vec::new(),
    };
    let mut body = Vec::new();
    dump.encode(&mut body).unwrap();
    let mut bytes = encode_frame(RoutingMessage::IndexDump, &body).unwrap();
    bytes.extend(frame_routing_update(&small_valid_update([4; 8])));
    let frames = split_frames(&bytes);
    assert_eq!(frames.len(), 2);
    match decode_frame(&frames[0]) {
        Ok(Message::IndexDump(d)) => {
            assert_eq!(d.user_mappings[0].target_id, [9; 8]);
            assert_eq!(d.user_mappings[0].version, 77);
        }
        _ => panic!("INDEX_DUMP must reach its handler"),
    }
    assert!(matches!(decode_frame(&frames[1]), Ok(Message::RoutingUpdate(_))));
}

#[test]
fn malformed_routing_update_body_does_not_corrupt_frame_alignment() {
    let mut bytes = vec![0x01, 0x01, 0x00, 0x04];
    bytes.extend_from_slice(&[0xFF; 4]);
    bytes.extend(frame_routing_update(&small_valid_update([5; 8])));
    let updates = delivered_updates(&bytes);
    assert_eq!(updates.len(), 1, "valid message after a body-decode failure must still be processed");
    assert_eq!(updates[0].user_mappings[0].target_id, [5; 8]);
}
