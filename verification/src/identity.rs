//! Identifying users and nodes: multikeys, the 8-byte routing ids derived
//! from them, profiles, and the byte strings that get signed.

use vstd::prelude::*;

use libp2p::identity::{DecodingError, Keypair, PublicKey, SigningError};
use libp2p::PeerId;
use sha2::{Digest, Sha256};

use crate::codec::utils::{be32, be64, push_bytes, push_u32_be, push_u64_be};
use crate::error::RoutingV2Error;

verus! {

#[verifier::external_type_specification]
#[verifier::external_body]
pub struct ExPublicKey(PublicKey);

#[verifier::external_type_specification]
#[verifier::external_body]
pub struct ExKeypair(Keypair);

#[verifier::external_type_specification]
#[verifier::external_body]
pub struct ExPeerId(PeerId);

#[verifier::external_type_specification]
#[verifier::external_body]
pub struct ExSigningError(SigningError);

/// libp2p's derived `Clone` for `PublicKey`: the clone is the same key.
pub assume_specification[ <PublicKey as Clone>::clone ](key: &PublicKey) -> (r: PublicKey)
    ensures
        r == *key,
;

/// The multihash code of the `identity` hash function: a peer id with
/// this code carries its public key inline.
pub const IDENTITY_MULTIHASH_CODE: u64 = 0;

/// The SHA-256 digest of `data`.
pub uninterp spec fn sha256_digest(data: Seq<u8>) -> Seq<u8>;

/// Whether `sig` is a valid signature of `msg` under the public key whose
/// protobuf encoding is `key`.
pub uninterp spec fn signature_verifies(key: Seq<u8>, msg: Seq<u8>, sig: Seq<u8>) -> bool;

/// Whether `bytes` decode as a protobuf-encoded public key.
pub uninterp spec fn key_decodes(bytes: Seq<u8>) -> bool;

/// sha2's `Sha256::digest`: the digest is what `sha256_digest` names.
#[verifier::external_body]
fn sha256(data: &[u8]) -> (r: [u8; 32])
    ensures
        r@ == sha256_digest(data@),
{
    Sha256::digest(data).into()
}

/// libp2p's `PublicKey::encode_protobuf`. The bytes depend on the key,
/// which Verus cannot see; what is stated is that they decode again
/// (`try_decode_protobuf` reads back what `encode_protobuf` writes).
#[verifier::external_body]
fn encode_public_key(key: &PublicKey) -> (r: Vec<u8>)
    ensures
        key_decodes(r@),
{
    key.encode_protobuf()
}

/// The protobuf encoding of the key that `bytes` decode to: libp2p's
/// `PublicKey::try_decode_protobuf` followed by `encode_protobuf`, which
/// depends on the bytes alone.
pub uninterp spec fn reencoded_key(bytes: Seq<u8>) -> Seq<u8>;

/// libp2p's `PublicKey::try_decode_protobuf`, with the decoded key's
/// protobuf encoding (`encode_protobuf`) beside it: it succeeds exactly
/// when `key_decodes` holds of the bytes, and the encoding is what
/// `reencoded_key` names; that encoding decodes again.
#[verifier::external_body]
fn decode_public_key(bytes: &[u8]) -> (r: Result<(PublicKey, Vec<u8>), DecodingError>)
    ensures
        r is Ok <==> key_decodes(bytes@),
        r matches Ok(d) ==> d.1@ == reencoded_key(bytes@) && key_decodes(d.1@),
{
    let key = PublicKey::try_decode_protobuf(bytes)?;
    let encoded = key.encode_protobuf();
    Ok((key, encoded))
}

/// libp2p's `PublicKey::verify` on the key of `mk`. The claim is that the
/// answer is `signature_verifies` of the key's protobuf encoding, which
/// every `Multikey` holds beside its key.
#[verifier::external_body]
fn verify_with_key(mk: &Multikey, msg: &[u8], sig: &[u8]) -> (r: bool)
    ensures
        r == signature_verifies(mk.spec_encoded(), msg@, sig@),
{
    mk.key.verify(msg, sig)
}

/// The code of the multihash of a peer id (libp2p's `PeerId::as_ref`
/// and `Multihash::code`). Nothing is stated of it: the peer id is opaque
/// to Verus.
#[verifier::external_body]
fn peer_multihash_code(peer: &PeerId) -> (r: u64) {
    peer.as_ref().code()
}

/// The digest of the multihash of a peer id (libp2p's `PeerId::as_ref`
/// and `Multihash::digest`). Nothing is stated of it.
#[verifier::external_body]
fn peer_multihash_digest(peer: &PeerId) -> (r: Vec<u8>) {
    peer.as_ref().digest().to_vec()
}

/// libp2p's `Keypair::public`. Nothing is stated of the key: the keypair
/// is opaque to Verus.
#[verifier::external_body]
fn keypair_public(keys: &Keypair) -> (r: PublicKey) {
    keys.public()
}

/// libp2p's `Keypair::sign` on the keypair of `keys`. The only key type
/// built here is ed25519 (the lock holds no RSA, secp256k1 or ECDSA
/// backend), and for it `sign` is `Ok` of the 64 bytes of an ed25519
/// signature, which ed25519 verification accepts under the same
/// keypair's public key. That public key's protobuf encoding is what
/// `keys` holds beside the keypair: `SigningKeys::new` pairs them, and
/// nothing else builds or changes a `SigningKeys`.
#[verifier::external_body]
fn keypair_sign(keys: &SigningKeys, msg: &[u8]) -> (r: Result<Vec<u8>, SigningError>)
    ensures
        r is Ok,
        r matches Ok(sig) ==> sig@.len() == 64 && signature_verifies(keys.spec_public(), msg@, sig@),
{
    keys.keys.sign(msg)
}

/// A keypair together with the multikey of its public key.
pub struct SigningKeys {
    keys: Keypair,
    public: Multikey,
}

impl SigningKeys {
    /// The protobuf encoding of the public key.
    pub closed spec fn spec_public(&self) -> Seq<u8> {
        self.public.spec_encoded()
    }

    /// Pairs `keys` with the multikey of its public key.
    pub fn new(keys: Keypair) -> (r: SigningKeys)
        ensures
            key_decodes(r.spec_public()),
    {
        let public = Multikey::from(keypair_public(&keys));
        SigningKeys { keys, public }
    }

    /// The multikey of the public key.
    pub fn public(&self) -> (r: &Multikey)
        ensures
            r.spec_encoded() == self.spec_public(),
    {
        &self.public
    }
}

/// A public key together with its protobuf encoding.
#[derive(Debug)]
pub struct Multikey {
    key: PublicKey,
    encoded: Vec<u8>,
}

impl Clone for Multikey {
    /// The same key, held a second time.
    fn clone(&self) -> (r: Multikey)
        ensures
            r.spec_encoded() == self.spec_encoded(),
    {
        self.duplicate()
    }
}

impl From<PublicKey> for Multikey {
    fn from(value: PublicKey) -> (m: Multikey)
        ensures
            key_decodes(m.spec_encoded()),
    {
        let encoded = encode_public_key(&value);
        Multikey { key: value, encoded }
    }
}

impl vstd::std_specs::convert::FromSpecImpl<PublicKey> for Multikey {
    open spec fn obeys_from_spec() -> bool {
        false
    }

    open spec fn from_spec(v: PublicKey) -> Multikey {
        arbitrary()
    }
}

/// The 8-byte routing id of the key whose protobuf encoding is `key`: the
/// first eight bytes of its SHA-256 digest.
pub open spec fn spec_routing_id(key: Seq<u8>) -> Seq<u8> {
    sha256_digest(key).take(8)
}

impl Multikey {
    /// A multikey's encoding decodes as a public key. Beside it stands
    /// the key it encodes: every constructor takes the two from one
    /// libp2p key, and the fields are private.
    #[verifier::type_invariant]
    spec fn encoding_decodes(self) -> bool {
        key_decodes(self.encoded@)
    }

    /// The protobuf encoding of the key.
    pub closed spec fn spec_encoded(&self) -> Seq<u8> {
        self.encoded@
    }

    /// The protobuf encoding of the key.
    pub fn encode(&self) -> (r: Vec<u8>)
        ensures
            r@ == self.spec_encoded(),
    {
        let mut r: Vec<u8> = Vec::new();
        push_bytes(&mut r, self.encoded.as_slice());
        r
    }

    /// The same key, held a second time.
    pub fn duplicate(&self) -> (r: Multikey)
        ensures
            r.spec_encoded() == self.spec_encoded(),
    {
        proof {
            use_type_invariant(self);
        }
        Multikey { key: self.key.clone(), encoded: self.encode() }
    }

    /// Decodes a protobuf-encoded public key.
    pub fn decode(bytes: &[u8]) -> (r: Result<Multikey, RoutingV2Error>)
        ensures
            r is Ok <==> key_decodes(bytes@),
            r matches Err(e) ==> e is MultikeyErrror,
            r matches Ok(mk) ==> mk.spec_encoded() == reencoded_key(bytes@) && key_decodes(mk.spec_encoded()),
    {
        match decode_public_key(bytes) {
            Ok((key, encoded)) => Ok(Multikey { key, encoded }),
            Err(e) => Err(RoutingV2Error::MultikeyErrror(e)),
        }
    }

    /// The 8-byte routing id: the first eight bytes of the SHA-256 digest
    /// of the encoded key.
    pub fn to_id(&self) -> (id: [u8; 8])
        ensures
            id@ == spec_routing_id(self.spec_encoded()),
    {
        let hash = sha256(self.encoded.as_slice());
        let id: [u8; 8] = [hash[0], hash[1], hash[2], hash[3], hash[4], hash[5], hash[6], hash[7]];
        assert(id@ =~= hash@.take(8));
        id
    }

    /// The key carried inline by a multihash with `code` and `digest`:
    /// only the identity code carries one.
    pub fn from_multihash(code: u64, digest: &[u8]) -> (r: Result<Multikey, RoutingV2Error>)
        ensures
            code != IDENTITY_MULTIHASH_CODE ==> (r matches Err(RoutingV2Error::PeerIdNotInlineKey(c))
                && c == code),
            code == IDENTITY_MULTIHASH_CODE ==> (r is Ok <==> key_decodes(digest@)),
            code == IDENTITY_MULTIHASH_CODE ==> (r matches Err(e) ==> e is MultikeyErrror),
            r matches Ok(mk) ==> mk.spec_encoded() == reencoded_key(digest@) && key_decodes(mk.spec_encoded()),
    {
        if code != IDENTITY_MULTIHASH_CODE {
            return Err(RoutingV2Error::PeerIdNotInlineKey(code));
        }
        Multikey::decode(digest)
    }

    /// Recovers the public key embedded in a peer id, given as its
    /// multihash: only a peer id under the identity code carries one.
    pub fn try_from_peer_id(peer: &PeerMultihash) -> (r: Result<Multikey, RoutingV2Error>)
        ensures
            peer.code != IDENTITY_MULTIHASH_CODE ==> (r matches Err(RoutingV2Error::PeerIdNotInlineKey(c))
                && c == peer.code),
            peer.code == IDENTITY_MULTIHASH_CODE ==> (r is Ok <==> key_decodes(peer.digest@)),
            peer.code == IDENTITY_MULTIHASH_CODE ==> (r matches Err(e) ==> e is MultikeyErrror),
            r matches Ok(mk) ==> mk.spec_encoded() == reencoded_key(peer.digest@),
    {
        Multikey::from_multihash(peer.code, peer.digest.as_slice())
    }

    /// Whether `sig` is this key's signature of `msg`.
    pub fn verify(&self, msg: &[u8], sig: &[u8]) -> (r: bool)
        ensures
            r == signature_verifies(self.spec_encoded(), msg@, sig@),
    {
        verify_with_key(self, msg, sig)
    }
}

/// A peer id as the multihash it is: the code of its hash function and
/// its digest.
#[derive(Debug, Clone)]
pub struct PeerMultihash {
    pub code: u64,
    pub digest: Vec<u8>,
}

impl PeerMultihash {
    /// The multihash of a libp2p peer id. Nothing is stated of it: the
    /// peer id is opaque to Verus.
    pub fn of(peer: &PeerId) -> (m: PeerMultihash) {
        PeerMultihash { code: peer_multihash_code(peer), digest: peer_multihash_digest(peer) }
    }
}

/// The 8-byte routing id of the key a peer id embeds, if it embeds one:
/// the routing id of the key its identity-coded digest decodes to.
pub fn id_from_peer_id(peer: &PeerMultihash) -> (r: Option<[u8; 8]>)
    ensures
        r is Some <==> (peer.code == IDENTITY_MULTIHASH_CODE && key_decodes(peer.digest@)),
        r matches Some(id) ==> id@ == spec_routing_id(reencoded_key(peer.digest@)),
{
    match Multikey::try_from_peer_id(peer) {
        Ok(mk) => Some(mk.to_id()),
        Err(_) => None,
    }
}

/// A user's profile: its key, version and name, signed by the user.
#[derive(Debug, Clone)]
pub struct Profile {
    pub multikey: Multikey,
    pub version: u32,
    pub name: String,
    pub self_signature: [u8; 64],
}

impl Profile {
    /// The bytes the profile signature covers: the encoded key, the
    /// big-endian version and the UTF-8 name.
    pub fn sign_input(&self) -> (r: Vec<u8>)
        ensures
            r@ == self.multikey.spec_encoded() + be32(self.version) + vstd::utf8::encode_utf8(self.name@),
    {
        let mut buf: Vec<u8> = Vec::new();
        let key = self.multikey.encode();
        push_bytes(&mut buf, key.as_slice());
        push_u32_be(&mut buf, self.version);
        push_bytes(&mut buf, self.name.as_str().as_bytes());
        buf
    }
}

/// A user's authorisation for a host to represent it.
#[derive(Debug, Clone, Copy)]
pub struct SelfDelegation {
    /// absolute expiry, milliseconds since Unix epoch
    pub timeout: u64,
    pub entry_signature: [u8; 64],
}

/// The bytes a delegation signature covers: the host's full multikey and
/// the big-endian timeout.
pub open spec fn spec_delegation_signing_input(host_full_multikey: Seq<u8>, timeout: u64) -> Seq<u8> {
    host_full_multikey + be64(timeout)
}

/// The bytes a delegation signature covers.
pub fn delegation_signing_input(host_full_multikey: &[u8], timeout: u64) -> (r: Vec<u8>)
    ensures
        r@ == spec_delegation_signing_input(host_full_multikey@, timeout),
{
    let mut buf: Vec<u8> = Vec::new();
    push_bytes(&mut buf, host_full_multikey);
    push_u64_be(&mut buf, timeout);
    buf
}

/// Everything a manifest chunk's signature covers.
pub struct ChunkSigningCtx<'a> {
    pub origin_multikey: &'a [u8],
    pub manifest_version: u32,
    pub chunk_index: u8,
    pub chunk_count: u8,
    pub flags: u8,
    pub canonical_entries: &'a [u8],
}

/// The bytes a chunk signature covers: the origin's multikey, the
/// big-endian version, the chunk index, count and flags, and the
/// canonical entries.
pub open spec fn spec_chunk_signing_input(
    origin_multikey: Seq<u8>,
    manifest_version: u32,
    chunk_index: u8,
    chunk_count: u8,
    flags: u8,
    canonical_entries: Seq<u8>,
) -> Seq<u8> {
    origin_multikey + be32(manifest_version) + seq![chunk_index, chunk_count, flags] + canonical_entries
}

impl<'a> ChunkSigningCtx<'a> {
    /// The bytes the chunk signature covers.
    pub fn signing_input(&self) -> (r: Vec<u8>)
        ensures
            r@ == spec_chunk_signing_input(
                self.origin_multikey@,
                self.manifest_version,
                self.chunk_index,
                self.chunk_count,
                self.flags,
                self.canonical_entries@,
            ),
    {
        let mut buf: Vec<u8> = Vec::new();
        push_bytes(&mut buf, self.origin_multikey);
        push_u32_be(&mut buf, self.manifest_version);
        buf.push(self.chunk_index);
        buf.push(self.chunk_count);
        buf.push(self.flags);
        push_bytes(&mut buf, self.canonical_entries);
        assert(buf@ =~= spec_chunk_signing_input(
            self.origin_multikey@,
            self.manifest_version,
            self.chunk_index,
            self.chunk_count,
            self.flags,
            self.canonical_entries@,
        ));
        buf
    }
}


/// Signs `buf` with `keys`: the 64-byte signature, which verifies under
/// the public key of `keys`.
fn sign_64_with(keys: &SigningKeys, buf: &[u8]) -> (r: Option<[u8; 64]>)
    ensures
        r matches Some(sig) && signature_verifies(keys.spec_public(), buf@, sig@),
{
    let sig = match keypair_sign(keys, buf) {
        Ok(v) => v,
        Err(_) => {
            return None;
        },
    };
    let mut out = [0u8; 64];
    let mut i = 0usize;
    while i < 64
        invariant
            sig@.len() == 64,
            out@.len() == 64,
            i <= 64,
            forall|j: int| 0 <= j < i ==> out@[j] == sig@[j],
        decreases 64 - i,
    {
        out[i] = sig[i];
        i += 1;
    }
    assert(out@ =~= sig@);
    Some(out)
}

/// Signs `buf` with a user's keys: the 64-byte signature, which verifies
/// under the user's public key; signing with the ed25519 keys built here
/// does not fail.
pub fn sign_with_user(user_keys: &SigningKeys, buf: &[u8]) -> (r: Option<[u8; 64]>)
    ensures
        r matches Some(sig) && signature_verifies(user_keys.spec_public(), buf@, sig@),
{
    sign_64_with(user_keys, buf)
}

/// Signs `buf` with this node's keys: the 64-byte signature, which
/// verifies under the node's public key; signing with the ed25519 keys
/// built here does not fail.
pub fn sign_with_host(host_keys: &SigningKeys, buf: &[u8]) -> (r: Option<[u8; 64]>)
    ensures
        r matches Some(sig) && signature_verifies(host_keys.spec_public(), buf@, sig@),
{
    sign_64_with(host_keys, buf)
}

/// A user's authorisation for the host with multikey `host_mk` to carry
/// it until `timeout`: the user's signature over the host's encoded key
/// and the timeout, which verifies under the user's public key. Signing
/// with the ed25519 keys built here does not fail, so there always is
/// one.
pub fn issue_self_delegation(user_keys: &SigningKeys, host_mk: &Multikey, timeout: u64) -> (r: Option<
    SelfDelegation,
>)
    ensures
        r matches Some(d) && d.timeout == timeout && signature_verifies(
            user_keys.spec_public(),
            spec_delegation_signing_input(host_mk.spec_encoded(), timeout),
            d.entry_signature@,
        ),
{
    let host = host_mk.encode();
    let input = delegation_signing_input(host.as_slice(), timeout);
    match sign_with_user(user_keys, input.as_slice()) {
        Some(sig) => Some(SelfDelegation { timeout, entry_signature: sig }),
        None => None,
    }
}

} // verus!
