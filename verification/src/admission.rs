//! The gateway side of cross-host delegation: whether a user's request to
//! be carried (or to stop being carried) is taken up, and what it does to
//! this node's manifest.

use vstd::prelude::*;

use crate::codec::messages::ManifestEntry;
use crate::identity::{signature_verifies, spec_delegation_signing_input, Multikey};
use crate::keyed::same_id;
use crate::manifest::origin::{find_entry, first_entry_of};
use crate::keyed::spec_id_key;
use crate::manifest::{
    count_below, entry_key, lemma_count_below_splits, lemma_remove_undoes_upsert, sorted_by_user, spec_remove,
    spec_upsert, Manifest,
};

verus! {

/// Which request a delegation action came from.
#[derive(Debug, Clone, Copy, PartialEq, Eq, Structural)]
pub enum DelegationAction {
    Subscribe,
    Revoke,
}

/// A delegation request that passed the checks on its form, waiting to be
/// verified against the user's key.
#[derive(Debug, Clone, Copy)]
pub struct PendingDelegation {
    pub action: DelegationAction,
    pub timeout: u64,
    pub signature: [u8; 64],
    pub parked_at_ms: u64,
}

/// What becomes of a delegation request as it arrives.
#[derive(Debug, Clone, Copy)]
pub enum Admission {
    /// malformed, or not addressed to this node: dropped without answer
    Discard,
    /// a subscription that has already expired: refused
    Reject,
    /// the user's key is unknown: parked until its profile arrives
    Park { user_id: [u8; 8], pending: PendingDelegation },
    /// the user's key is known: settled at once
    Settle { user_id: [u8; 8], pending: PendingDelegation },
}

/// Takes in a delegation request for `user_id` signed with `signature`,
/// addressed to `destination`: it must carry an 8-byte user id and a
/// 64-byte signature, be addressed to this node (`host_id`) as a node, and,
/// for a subscription, not be expired.
pub fn admit_delegation(
    action: DelegationAction,
    user_id: &[u8],
    signature: &[u8],
    timeout: u64,
    destination: [u8; 8],
    destination_is_node: bool,
    host_id: [u8; 8],
    user_key_known: bool,
    now_ms: u64,
) -> (r: Admission)
    ensures
        !(user_id@.len() == 8 && signature@.len() == 64) ==> r is Discard,
        (user_id@.len() == 8 && signature@.len() == 64 && !(destination_is_node && destination
            == host_id)) ==> r is Discard,
        (user_id@.len() == 8 && signature@.len() == 64 && destination_is_node && destination
            == host_id && action == DelegationAction::Subscribe && timeout <= now_ms) ==> r is Reject,
        (user_id@.len() == 8 && signature@.len() == 64 && destination_is_node && destination
            == host_id && !(action == DelegationAction::Subscribe && timeout <= now_ms)) ==> match r {
            Admission::Settle { user_id: u, pending: p } => {
                &&& user_key_known
                &&& u@ == user_id@
                &&& p.action == action && p.timeout == timeout && p.parked_at_ms == now_ms
                &&& p.signature@ == signature@
            },
            Admission::Park { user_id: u, pending: p } => {
                &&& !user_key_known
                &&& u@ == user_id@
                &&& p.action == action && p.timeout == timeout && p.parked_at_ms == now_ms
                &&& p.signature@ == signature@
            },
            _ => false,
        },
{
    if user_id.len() != 8 || signature.len() != 64 {
        return Admission::Discard;
    }
    if !destination_is_node || !same_id(&destination, &host_id) {
        return Admission::Discard;
    }
    let is_subscribe = match action {
        DelegationAction::Subscribe => true,
        DelegationAction::Revoke => false,
    };
    if is_subscribe && timeout <= now_ms {
        return Admission::Reject;
    }
    let uid: [u8; 8] = [
        user_id[0],
        user_id[1],
        user_id[2],
        user_id[3],
        user_id[4],
        user_id[5],
        user_id[6],
        user_id[7],
    ];
    assert(uid@ =~= user_id@);
    let sig = bytes64(signature);
    let pending = PendingDelegation { action, timeout, signature: sig, parked_at_ms: now_ms };
    if user_key_known {
        Admission::Settle { user_id: uid, pending }
    } else {
        Admission::Park { user_id: uid, pending }
    }
}

/// The 64 bytes of a slice of that length.
fn bytes64(s: &[u8]) -> (r: [u8; 64])
    requires
        s@.len() == 64,
    ensures
        r@ == s@,
{
    let mut out = [0u8; 64];
    let mut i = 0usize;
    while i < 64
        invariant
            s@.len() == 64,
            i <= 64,
            forall|j: int| 0 <= j < i ==> out@[j] == s@[j],
        decreases 64 - i,
    {
        out[i] = s[i];
        i += 1;
    }
    assert(out@ =~= s@);
    out
}

/// The answer to a settled delegation request, and what it did.
#[derive(Debug, Clone, Copy)]
pub enum Settled {
    /// `accepted` is the answer; `changed` whether the manifest changed,
    /// which marks the user's delegation dirty
    SubscribeAck { accepted: bool, changed: bool },
    /// `done` is the answer; `removed` whether the entry was removed,
    /// which marks the user's delegation dirty
    RevokeAck { done: bool, removed: bool },
}

/// Whether a delegation request verifies: the user's signature over this
/// host's multikey and the request's timeout.
pub open spec fn request_verifies(host_key: Seq<u8>, user_key: Seq<u8>, p: PendingDelegation) -> bool {
    signature_verifies(user_key, spec_delegation_signing_input(host_key, p.timeout), p.signature@)
}

/// The manifest entry a subscription makes.
pub open spec fn requested_entry(user_id: [u8; 8], p: PendingDelegation, profile_version: u32) -> ManifestEntry {
    ManifestEntry {
        user_id,
        timeout: p.timeout,
        entry_signature: p.signature,
        profile_version,
    }
}

/// Settles a delegation request under the user's key. A request that does
/// not verify is refused and changes nothing. A verified subscription
/// puts the user's entry (with its cached profile version) into the
/// manifest; a verified revocation removes the user's entry if it holds
/// the revoked timeout, and is answered done either way.
pub fn settle_delegation(
    manifest: &mut Manifest,
    pending: PendingDelegation,
    user_id: [u8; 8],
    host_mk: &Multikey,
    user_mk: &Multikey,
    cached_profile_version: u32,
) -> (r: Settled)
    requires
        old(manifest).wf(),
    ensures
        final(manifest).wf(),
        final(manifest).spec_manifest_version() == old(manifest).spec_manifest_version(),
        final(manifest).spec_is_gateway() == old(manifest).spec_is_gateway(),
        !request_verifies(host_mk.spec_encoded(), user_mk.spec_encoded(), pending) ==> {
            &&& final(manifest).spec_entries() == old(manifest).spec_entries()
            &&& pending.action == DelegationAction::Subscribe ==> r == Settled::SubscribeAck {
                accepted: false,
                changed: false,
            }
            &&& pending.action == DelegationAction::Revoke ==> r == Settled::RevokeAck {
                done: false,
                removed: false,
            }
        },
        (request_verifies(host_mk.spec_encoded(), user_mk.spec_encoded(), pending) && pending.action
            == DelegationAction::Subscribe) ==> {
            let (entries, changed) = spec_upsert(
                old(manifest).spec_entries(),
                requested_entry(user_id, pending, cached_profile_version),
            );
            &&& final(manifest).spec_entries() == entries
            &&& r == Settled::SubscribeAck { accepted: true, changed }
        },
        (request_verifies(host_mk.spec_encoded(), user_mk.spec_encoded(), pending) && pending.action
            == DelegationAction::Revoke) ==> {
            let holds = first_entry_of(old(manifest).spec_entries(), user_id) matches Some(e)
                && e.timeout == pending.timeout;
            &&& holds ==> final(manifest).spec_entries() == spec_remove(
                old(manifest).spec_entries(),
                user_id,
            ).0
            &&& !holds ==> final(manifest).spec_entries() == old(manifest).spec_entries()
            &&& r == Settled::RevokeAck {
                done: true,
                removed: holds && spec_remove(old(manifest).spec_entries(), user_id).1,
            }
        },
{
    let entry = ManifestEntry {
        user_id,
        timeout: pending.timeout,
        entry_signature: pending.signature,
        profile_version: cached_profile_version,
    };
    let verified = Manifest::verify_entry(&entry, host_mk, user_mk).is_ok();
    match pending.action {
        DelegationAction::Subscribe => {
            if !verified {
                return Settled::SubscribeAck { accepted: false, changed: false };
            }
            let changed = manifest.upsert_entry(entry);
            Settled::SubscribeAck { accepted: true, changed }
        },
        DelegationAction::Revoke => {
            if !verified {
                return Settled::RevokeAck { done: false, removed: false };
            }
            let holds = match find_entry(manifest.entries(), &user_id) {
                Some(e) => e.timeout == pending.timeout,
                None => false,
            };
            let removed = if holds {
                manifest.remove_entry(&user_id)
            } else {
                false
            };
            Settled::RevokeAck { done: true, removed }
        },
    }
}


/// The first entry of a user is the first entry with its key.
proof fn lemma_first_entry_at(entries: Seq<ManifestEntry>, id: [u8; 8], q: int)
    requires
        0 <= q < entries.len(),
        entry_key(entries[q]) == spec_id_key(id),
        forall|j: int| 0 <= j < q ==> entry_key(#[trigger] entries[j]) != spec_id_key(id),
    ensures
        first_entry_of(entries, id) == Some(entries[q]),
    decreases q,
{
    if q > 0 {
        let rest = entries.skip(1);
        assert forall|j: int| 0 <= j < q - 1 implies entry_key(#[trigger] rest[j]) != spec_id_key(id) by {
            assert(rest[j] == entries[j + 1]);
        }
        assert(rest[q - 1] == entries[q]);
        lemma_first_entry_at(rest, id, q - 1);
        assert(entry_key(entries[0]) != spec_id_key(id));
    }
}

/// A user that the manifest did not carry, subscribed and then revoked
/// with the same timeout, leaves the manifest as it was: the subscription
/// adds its entry, and the revocation finds that entry holding the
/// revoked timeout and removes it.
pub proof fn lemma_revoke_undoes_subscribe(
    entries: Seq<ManifestEntry>,
    user_id: [u8; 8],
    pending: PendingDelegation,
    profile_version: u32,
)
    requires
        sorted_by_user(entries),
        forall|j: int| 0 <= j < entries.len() ==> entry_key(#[trigger] entries[j]) != spec_id_key(user_id),
    ensures
        ({
            let e = requested_entry(user_id, pending, profile_version);
            let after = spec_upsert(entries, e).0;
            &&& spec_upsert(entries, e).1
            &&& first_entry_of(after, user_id) == Some(e)
            &&& spec_remove(after, user_id) == (entries, true)
        }),
{
    let e = requested_entry(user_id, pending, profile_version);
    let k = entry_key(e);
    lemma_remove_undoes_upsert(entries, e);
    lemma_count_below_splits(entries, k);
    let p = count_below(entries, k) as int;
    let t = entries.insert(p, e);
    entries.insert_ensures(p, e);
    assert(spec_upsert(entries, e).0 == t);
    assert forall|j: int| 0 <= j < p implies entry_key(#[trigger] t[j]) != spec_id_key(user_id) by {
        assert(t[j] == entries[j]);
    }
    lemma_first_entry_at(t, user_id, p);
}

} // verus!
