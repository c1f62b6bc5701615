//! Checking a profile received in answer to a profile request: the key
//! must decode, and the self-signature must be 64 bytes and verify under
//! that key.

use vstd::prelude::*;

use crate::codec::utils::be32;

use crate::identity::{
    key_decodes, reencoded_key, sign_with_host, signature_verifies, spec_routing_id, Multikey, Profile, SigningKeys,
};

verus! {

/// The profile a profile response carries, as plain values.
pub struct ProfileFields {
    /// protobuf encoding of the subject's public key
    pub multikey: Vec<u8>,
    pub profile_version: u32,
    pub name: String,
    pub self_signature: Vec<u8>,
    pub capabilities: u32,
}

/// A profile whose self-signature verified under its own key, with the
/// routing id that key gives.
pub struct VerifiedProfile {
    pub subject: [u8; 8],
    pub profile: Profile,
    pub capabilities: u32,
}

/// The bytes a profile self-signature covers.
pub open spec fn spec_profile_sign_input(key: Seq<u8>, version: u32, name: Seq<char>) -> Seq<u8> {
    key + be32(version) + vstd::utf8::encode_utf8(name)
}

/// Whether `signature` is a valid self-signature of the profile with
/// this key, version and name.
pub open spec fn profile_signature_valid(
    key: Seq<u8>,
    version: u32,
    name: Seq<char>,
    signature: Seq<u8>,
) -> bool {
    &&& signature.len() == 64
    &&& signature_verifies(key, spec_profile_sign_input(key, version, name), signature)
}

/// The 64 bytes of a slice of that length.
fn to_array64(s: &[u8]) -> (r: [u8; 64])
    requires
        s@.len() == 64,
    ensures
        r@ == s@,
{
    let mut out = [0u8; 64];
    let mut i = 0usize;
    while i < 64
        invariant
            s@.len() == 64,
            i <= 64,
            forall|j: int| 0 <= j < i ==> out@[j] == s@[j],
        decreases 64 - i,
    {
        out[i] = s[i];
        i += 1;
    }
    assert(out@ =~= s@);
    out
}

/// Checks the self-signature of a profile under its decoded key. The
/// profile is accepted exactly when the signature is 64 bytes and
/// verifies; its subject is the key's routing id.
pub fn check_profile_signature(
    multikey: Multikey,
    version: u32,
    name: String,
    signature: &[u8],
    capabilities: u32,
) -> (r: Option<VerifiedProfile>)
    ensures
        r is Some <==> profile_signature_valid(multikey.spec_encoded(), version, name@, signature@),
        r matches Some(v) ==> {
            &&& v.subject@ == spec_routing_id(multikey.spec_encoded())
            &&& v.profile.multikey == multikey
            &&& v.profile.version == version
            &&& v.profile.name@ == name@
            &&& v.profile.self_signature@ == signature@
            &&& v.capabilities == capabilities
        },
{
    let subject = multikey.to_id();
    if signature.len() != 64 {
        return None;
    }
    let sig = to_array64(signature);
    let rebuilt = Profile { multikey, version, name, self_signature: sig };
    let input = rebuilt.sign_input();
    if !rebuilt.multikey.verify(input.as_slice(), &sig) {
        return None;
    }
    Some(VerifiedProfile { subject, profile: rebuilt, capabilities })
}

/// Checks a profile response: nothing when it reports the profile as not
/// found, carries none, or its key does not decode; else the outcome of
/// [`check_profile_signature`] under the decoded key, whose encoding is
/// what libp2p re-encodes the received key bytes to.
pub fn check_profile_response(found: bool, profile: Option<ProfileFields>) -> (r: Option<
    VerifiedProfile,
>)
    ensures
        !found ==> r is None,
        profile is None ==> r is None,
        (profile matches Some(p) && !key_decodes(p.multikey@)) ==> r is None,
        found ==> (profile matches Some(p) ==> (key_decodes(p.multikey@) ==> (r is Some
            <==> profile_signature_valid(
            reencoded_key(p.multikey@),
            p.profile_version,
            p.name@,
            p.self_signature@,
        )))),
        r matches Some(v) ==> (profile matches Some(p) && {
            &&& found
            &&& key_decodes(p.multikey@)
            &&& v.profile.multikey.spec_encoded() == reencoded_key(p.multikey@)
            &&& v.subject@ == spec_routing_id(reencoded_key(p.multikey@))
            &&& v.profile.version == p.profile_version
            &&& v.profile.name@ == p.name@
            &&& v.profile.self_signature@ == p.self_signature@
            &&& v.capabilities == p.capabilities
        }),
{
    if !found {
        return None;
    }
    let p = match profile {
        Some(p) => p,
        None => {
            return None;
        },
    };
    let multikey = match Multikey::decode(p.multikey.as_slice()) {
        Ok(mk) => mk,
        Err(_) => {
            return None;
        },
    };
    check_profile_signature(
        multikey,
        p.profile_version,
        p.name,
        p.self_signature.as_slice(),
        p.capabilities,
    )
}


/// This node's own profile: its key, version 0 and no name, signed with
/// its keys; the signature verifies under the host's public key. Signing
/// with the ed25519 keys built here does not fail, so there always is
/// one.
pub fn sign_node_profile(host_keys: &SigningKeys, host_mk: Multikey) -> (r: Option<Profile>)
    ensures
        r matches Some(p) && p.multikey == host_mk && p.version == 0 && p.name@.len() == 0
            && signature_verifies(
            host_keys.spec_public(),
            host_mk.spec_encoded() + be32(0) + vstd::utf8::encode_utf8(p.name@),
            p.self_signature@,
        ),
{
    let profile = Profile { multikey: host_mk, version: 0, name: String::new(), self_signature: [0u8; 64] };
    let input = profile.sign_input();
    match sign_with_host(host_keys, input.as_slice()) {
        Some(sig) => Some(Profile { self_signature: sig, ..profile }),
        None => None,
    }
}

} // verus!
