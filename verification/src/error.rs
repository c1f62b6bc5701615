//! The errors of the routing layer.

use vstd::prelude::*;

use libp2p::identity::DecodingError;

use crate::codec::CodecError;

verus! {

#[verifier::external_type_specification]
#[verifier::external_body]
pub struct ExDecodingError(DecodingError);

/// Why an operation of the routing layer could not go on.
#[derive(Debug)]
pub enum RoutingV2Error {
    /// a multikey did not decode
    MultikeyErrror(DecodingError),
    /// a message did not decode
    CodecError(CodecError),
    /// no binding for an index
    UnknownMapping(u16),
    /// every index of a space is taken
    AllocatorExhausted,
    /// a peer id that does not embed its public key, with its multihash code
    PeerIdNotInlineKey(u64),
}

} // verus!
