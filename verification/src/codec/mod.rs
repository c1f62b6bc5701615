//! Framing of routing protocol messages: the generic header and the
//! error type shared by every decoder.

use vstd::prelude::*;

pub mod messages;
pub mod section;
pub mod utils;
pub mod frame;

use utils::{be16, be16_value, push_u16_be};

verus! {

/// The only protocol version this implementation speaks.
pub const PROTOCOL_VERSION: u8 = 0x01;

/// Routing message types, with their type bytes: ROUTING_UPDATE 0x01,
/// INDEX_DUMP 0x02, NODE_MANIFEST 0x03, MANIFEST_DELTA 0x04 and
/// MANIFEST_REQUEST 0x05. Every other type byte is unknown. Manifest
/// requests are sent and received as frames of their own, so they take
/// the next free byte after the other four.
#[derive(Debug, Clone, Copy, PartialEq, Eq, Structural)]
pub enum RoutingMessage {
    RoutingUpdate,
    IndexDump,
    NodeManifest,
    ManifestDelta,
    ManifestRequest,
}

/// The type byte that stands for a message type on the wire.
pub open spec fn message_type_byte(t: RoutingMessage) -> u8 {
    match t {
        RoutingMessage::RoutingUpdate => 0x01,
        RoutingMessage::IndexDump => 0x02,
        RoutingMessage::NodeManifest => 0x03,
        RoutingMessage::ManifestDelta => 0x04,
        RoutingMessage::ManifestRequest => 0x05,
    }
}

/// The message type a type byte stands for, if any.
pub open spec fn message_type_of_byte(b: u8) -> Option<RoutingMessage> {
    if b == 0x01 {
        Some(RoutingMessage::RoutingUpdate)
    } else if b == 0x02 {
        Some(RoutingMessage::IndexDump)
    } else if b == 0x03 {
        Some(RoutingMessage::NodeManifest)
    } else if b == 0x04 {
        Some(RoutingMessage::ManifestDelta)
    } else if b == 0x05 {
        Some(RoutingMessage::ManifestRequest)
    } else {
        None
    }
}

impl RoutingMessage {
    /// The type byte of this message type.
    pub fn to_byte(self) -> (b: u8)
        ensures
            b == message_type_byte(self),
    {
        match self {
            RoutingMessage::RoutingUpdate => 0x01,
            RoutingMessage::IndexDump => 0x02,
            RoutingMessage::NodeManifest => 0x03,
            RoutingMessage::ManifestDelta => 0x04,
            RoutingMessage::ManifestRequest => 0x05,
        }
    }
}

/// Every way in which decoding a message can fail.
#[derive(Debug, Clone, Copy, PartialEq, Eq, Structural)]
pub enum CodecError {
    /// input ended before the expected number of bytes
    Short,
    /// type byte didn't match any variant
    UnknownType(u8),
    /// bytes were left over after the message
    Malformed,
    /// the version byte is not [`PROTOCOL_VERSION`]; the announced payload
    /// length lets a receiver skip the message
    BadVersion { version: u8, payload_len: u16 },
    /// a reserved bit was set on input
    BadHopByte,
}

/// Generic header for all wire messages.
#[derive(Debug)]
pub struct Header {
    pub version: u8,
    pub message_type: RoutingMessage,
    pub payload_len: u16,
}

impl Header {
    /// The four bytes a header is written as.
    pub open spec fn spec_bytes(self) -> Seq<u8> {
        seq![self.version, message_type_byte(self.message_type)] + be16(self.payload_len)
    }

    /// What decoding a header from the front of `s` gives: the header and
    /// the bytes after it, or the error.
    pub open spec fn spec_decode(s: Seq<u8>) -> Result<(Header, Seq<u8>), CodecError> {
        if s.len() < 4 {
            Err(CodecError::Short)
        } else if s[0] != PROTOCOL_VERSION {
            Err(CodecError::BadVersion { version: s[0], payload_len: be16_value(s[2], s[3]) })
        } else {
            match message_type_of_byte(s[1]) {
                None => Err(CodecError::UnknownType(s[1])),
                Some(t) => Ok(
                    (
                        Header { version: s[0], message_type: t, payload_len: be16_value(s[2], s[3]) },
                        s.skip(4),
                    ),
                ),
            }
        }
    }

    /// Appends the header's four bytes to `buf`.
    pub fn encode(&self, buf: &mut Vec<u8>)
        ensures
            final(buf)@ == old(buf)@ + self.spec_bytes(),
    {
        buf.push(self.version);
        buf.push(self.message_type.to_byte());
        push_u16_be(buf, self.payload_len);
        assert(final(buf)@ =~= old(buf)@ + self.spec_bytes());
    }

    /// Reads a header from the front of `buf` and returns it with the
    /// bytes that follow it.
    pub fn decode(buf: &[u8]) -> (r: Result<(Header, &[u8]), CodecError>)
        ensures
            match (r, Header::spec_decode(buf@)) {
                (Ok((h, rest)), Ok((sh, srest))) => h == sh && rest@ == srest,
                (Err(e), Err(se)) => e == se,
                _ => false,
            },
    {
        if buf.len() < 4 {
            return Err(CodecError::Short);
        }
        let version = buf[0];
        if version != PROTOCOL_VERSION {
            let payload_len = utils::u16_from_be(buf[2], buf[3]);
            return Err(CodecError::BadVersion { version, payload_len });
        }
        let message_type = match buf[1] {
            1 => RoutingMessage::RoutingUpdate,
            2 => RoutingMessage::IndexDump,
            3 => RoutingMessage::NodeManifest,
            4 => RoutingMessage::ManifestDelta,
            5 => RoutingMessage::ManifestRequest,
            _ => return Err(CodecError::UnknownType(buf[1])),
        };
        let header = Header { version, message_type, payload_len: utils::u16_from_be(buf[2], buf[3]) };
        let (_, rest) = buf.split_at(4);
        Ok((header, rest))
    }
}

/// Decoding the bytes of a header gives the header back, and the bytes
/// that followed it.
pub proof fn lemma_header_round_trip(h: Header, rest: Seq<u8>)
    requires
        h.version == PROTOCOL_VERSION,
    ensures
        Header::spec_decode(h.spec_bytes() + rest) == Ok::<(Header, Seq<u8>), CodecError>(
            (h, rest),
        ),
{
    let s = h.spec_bytes() + rest;
    utils::lemma_be16_round_trip(h.payload_len);
    assert(s[2] == be16(h.payload_len)[0]);
    assert(s[3] == be16(h.payload_len)[1]);
    assert(s.skip(4) =~= rest);
}

} // verus!
