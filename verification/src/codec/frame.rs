//! Framing: messages travel as a header followed by a payload of the
//! length it announces, one frame after another.

use vstd::prelude::*;

use crate::codec::utils::{be16, be16_value, lemma_be16_round_trip, push_bytes};
use crate::codec::messages::{
    request_items_view, IndexDump, IndexDumpV, ManifestDelta, ManifestDeltaV, ManifestRequest,
    NodeManifest, NodeManifestV, RoutingUpdate, RoutingUpdateV,
};
use crate::codec::{message_type_byte, CodecError, Header, RoutingMessage, PROTOCOL_VERSION};

verus! {

/// One framed message: its type and its payload.
#[derive(Debug)]
pub struct Frame {
    pub message_type: RoutingMessage,
    pub payload: Vec<u8>,
}

/// The frames of a buffer as values.
pub open spec fn frames_view(fs: Seq<Frame>) -> Seq<(RoutingMessage, Seq<u8>)> {
    fs.map_values(|f: Frame| (f.message_type, f.payload@))
}

/// The frames read from `s`: a frame of another protocol version is
/// skipped by the length it announces; reading stops at the end, at a
/// header that does not decode, and at a frame cut short.
pub open spec fn spec_frames(s: Seq<u8>) -> Seq<(RoutingMessage, Seq<u8>)>
    decreases s.len(),
{
    if s.len() == 0 {
        seq![]
    } else {
        match Header::spec_decode(s) {
            Err(CodecError::BadVersion { payload_len, .. }) => {
                if s.len() < 4 + payload_len {
                    seq![]
                } else {
                    spec_frames(s.skip(4 + payload_len))
                }
            },
            Err(_) => seq![],
            Ok((h, body)) => {
                if body.len() < h.payload_len {
                    seq![]
                } else {
                    seq![(h.message_type, body.take(h.payload_len as int))] + spec_frames(
                        body.skip(h.payload_len as int),
                    )
                }
            },
        }
    }
}

/// Splits a received buffer into its frames.
pub fn split_frames(buf: &[u8]) -> (r: Vec<Frame>)
    ensures
        frames_view(r@) == spec_frames(buf@),
{
    let mut out: Vec<Frame> = Vec::new();
    let mut rest: &[u8] = buf;
    while rest.len() > 0
        invariant
            frames_view(out@) + spec_frames(rest@) == spec_frames(buf@),
        decreases rest@.len(),
    {
        let ghost before = rest@;
        match Header::decode(rest) {
            Err(CodecError::BadVersion { payload_len, .. }) => {
                let skip = 4 + payload_len as usize;
                if rest.len() < skip {
                    proof {
                        assert(spec_frames(before) =~= Seq::<(RoutingMessage, Seq<u8>)>::empty());
                        assert(frames_view(out@) + spec_frames(before) =~= frames_view(out@));
                    }
                    return out;
                }
                let (_, after) = rest.split_at(skip);
                rest = after;
            },
            Err(_) => {
                proof {
                    assert(frames_view(out@) + spec_frames(before) =~= frames_view(out@));
                }
                return out;
            },
            Ok((header, body)) => {
                let len = header.payload_len as usize;
                if body.len() < len {
                    proof {
                        assert(frames_view(out@) + spec_frames(before) =~= frames_view(out@));
                    }
                    return out;
                }
                let (payload, after) = body.split_at(len);
                let mut p: Vec<u8> = Vec::new();
                push_bytes(&mut p, payload);
                let ghost old_out = frames_view(out@);
                out.push(Frame { message_type: header.message_type, payload: p });
                proof {
                    assert(frames_view(out@) =~= old_out.push((header.message_type, payload@)));
                    assert(old_out + spec_frames(before) =~= frames_view(out@) + spec_frames(after@));
                }
                rest = after;
            },
        }
    }
    proof {
        assert(frames_view(out@) + spec_frames(rest@) =~= frames_view(out@));
    }
    out
}

/// The bytes of one frame: the header announcing the payload, then the
/// payload.
pub open spec fn frame_bytes(message_type: RoutingMessage, payload: Seq<u8>) -> Seq<u8> {
    seq![PROTOCOL_VERSION, message_type_byte(message_type)] + be16(payload.len() as u16) + payload
}

/// Frames a message body; `None` when it is longer than a header can
/// announce.
pub fn encode_frame(message_type: RoutingMessage, body: &[u8]) -> (r: Option<Vec<u8>>)
    ensures
        body@.len() > 0xffff ==> r is None,
        body@.len() <= 0xffff ==> (r matches Some(f) && f@ == frame_bytes(message_type, body@)),
{
    if body.len() > 0xffff {
        return None;
    }
    let header = Header { version: PROTOCOL_VERSION, message_type, payload_len: body.len() as u16 };
    let mut frame: Vec<u8> = Vec::new();
    header.encode(&mut frame);
    push_bytes(&mut frame, body);
    assert(frame@ =~= frame_bytes(message_type, body@));
    Some(frame)
}

/// The bytes of a run of frames, one after the other.
pub open spec fn frames_bytes(fs: Seq<(RoutingMessage, Seq<u8>)>) -> Seq<u8>
    decreases fs.len(),
{
    if fs.len() == 0 {
        seq![]
    } else {
        frame_bytes(fs[0].0, fs[0].1) + frames_bytes(fs.skip(1))
    }
}

/// Frames written one after another split back into the same frames.
#[verifier::spinoff_prover]
#[verifier::rlimit(40)]
pub proof fn lemma_frames_round_trip(fs: Seq<(RoutingMessage, Seq<u8>)>)
    requires
        forall|i: int| 0 <= i < fs.len() ==> (#[trigger] fs[i]).1.len() <= 0xffff,
    ensures
        spec_frames(frames_bytes(fs)) == fs,
    decreases fs.len(),
{
    if fs.len() > 0 {
        let (t, p) = fs[0];
        let tail = fs.skip(1);
        assert forall|i: int| 0 <= i < tail.len() implies (#[trigger] tail[i]).1.len() <= 0xffff by {
            assert(tail[i] == fs[i + 1]);
        }
        lemma_frames_round_trip(tail);
        let s = frames_bytes(fs);
        let h = Header { version: PROTOCOL_VERSION, message_type: t, payload_len: p.len() as u16 };
        let rest = p + frames_bytes(tail);
        assert(s =~= h.spec_bytes() + rest);
        crate::codec::lemma_header_round_trip(h, rest);
        assert(rest.take(p.len() as int) =~= p);
        assert(rest.skip(p.len() as int) =~= frames_bytes(tail));
        assert(seq![(t, p)] + tail =~= fs);
    }
}

/// A decoded message of any type.
#[derive(Debug)]
pub enum Message {
    RoutingUpdate(RoutingUpdate),
    IndexDump(IndexDump),
    NodeManifest(NodeManifest),
    ManifestDelta(ManifestDelta),
    ManifestRequest(ManifestRequest),
}

/// Decodes a frame's payload by the type its header announced.
pub fn decode_frame(f: &Frame) -> (r: Result<Message, CodecError>)
    ensures
        f.message_type == RoutingMessage::RoutingUpdate ==> match (r, RoutingUpdateV::spec_decode(
            f.payload@,
        )) {
            (Ok(Message::RoutingUpdate(m)), Ok(v)) => m@ == v,
            (Err(e), Err(se)) => e == se,
            _ => false,
        },
        f.message_type == RoutingMessage::IndexDump ==> match (r, IndexDumpV::spec_decode(f.payload@)) {
            (Ok(Message::IndexDump(m)), Ok(v)) => m@ == v,
            (Err(e), Err(se)) => e == se,
            _ => false,
        },
        f.message_type == RoutingMessage::NodeManifest ==> match (r, NodeManifestV::spec_decode(
            f.payload@,
        )) {
            (Ok(Message::NodeManifest(m)), Ok(v)) => m@ == v,
            (Err(e), Err(se)) => e == se,
            _ => false,
        },
        f.message_type == RoutingMessage::ManifestDelta ==> match (r, ManifestDeltaV::spec_decode(
            f.payload@,
        )) {
            (Ok(Message::ManifestDelta(m)), Ok(v)) => m@ == v,
            (Err(e), Err(se)) => e == se,
            _ => false,
        },
        f.message_type == RoutingMessage::ManifestRequest ==> match (r, ManifestRequest::spec_decode(
            f.payload@,
        )) {
            (Ok(Message::ManifestRequest(m)), Ok(items)) => request_items_view(m.items@) == items,
            (Err(e), Err(se)) => e == se,
            _ => false,
        },
{
    let p = f.payload.as_slice();
    match f.message_type {
        RoutingMessage::RoutingUpdate => match RoutingUpdate::decode(p) {
            Ok(m) => Ok(Message::RoutingUpdate(m)),
            Err(e) => Err(e),
        },
        RoutingMessage::IndexDump => match IndexDump::decode(p) {
            Ok(m) => Ok(Message::IndexDump(m)),
            Err(e) => Err(e),
        },
        RoutingMessage::NodeManifest => match NodeManifest::decode(p) {
            Ok(m) => Ok(Message::NodeManifest(m)),
            Err(e) => Err(e),
        },
        RoutingMessage::ManifestDelta => match ManifestDelta::decode(p) {
            Ok(m) => Ok(Message::ManifestDelta(m)),
            Err(e) => Err(e),
        },
        RoutingMessage::ManifestRequest => match ManifestRequest::decode(p) {
            Ok(m) => Ok(Message::ManifestRequest(m)),
            Err(e) => Err(e),
        },
    }
}

} // verus!
