//! The network management sub-protocol: which envelopes are taken up,
//! and the memory that keeps a forwarded envelope from looping.

use vstd::prelude::*;

use crate::keyed::same_id;

verus! {

/// The sub-protocol version spoken and accepted.
pub const MANAGEMENT_VERSION: u32 = 1;

/// How long a forwarded envelope is remembered, in milliseconds.
pub const FORWARD_MEMORY_MS: u64 = 5_000;

/// The 8-byte id a byte string holds, if it is 8 bytes long.
pub fn as_id(bytes: &[u8]) -> (r: Option<[u8; 8]>)
    ensures
        r is Some <==> bytes@.len() == 8,
        r matches Some(id) ==> id@ == bytes@,
{
    if bytes.len() != 8 {
        return None;
    }
    let id: [u8; 8] = [bytes[0], bytes[1], bytes[2], bytes[3], bytes[4], bytes[5], bytes[6], bytes[7]];
    assert(id@ =~= bytes@);
    Some(id)
}

/// The destination and source ids of an envelope, where its version is
/// the one spoken here and both ids are 8 bytes; else the envelope is
/// discarded.
pub fn envelope_ids(version: u32, destination: &[u8], source: &[u8]) -> (r: Option<([u8; 8], [u8; 8])>)
    ensures
        r is Some <==> (version == MANAGEMENT_VERSION && destination@.len() == 8 && source@.len() == 8),
        r matches Some((d, s)) ==> d@ == destination@ && s@ == source@,
{
    if version != MANAGEMENT_VERSION {
        return None;
    }
    match (as_id(destination), as_id(source)) {
        (Some(d), Some(s)) => Some((d, s)),
        _ => None,
    }
}

/// What identifies a forwarded envelope: its source and destination, its
/// request id, and whether it answers a request.
#[derive(Debug, Clone, Copy)]
pub struct ForwardKey {
    pub source: [u8; 8],
    pub destination: [u8; 8],
    pub request_id: u64,
    pub is_response: bool,
}

fn same_key(a: &ForwardKey, b: &ForwardKey) -> (r: bool)
    ensures
        r == (*a == *b),
{
    same_id(&a.source, &b.source) && same_id(&a.destination, &b.destination) && a.request_id
        == b.request_id && a.is_response == b.is_response
}

/// Whether a record made at `at` is still remembered at `now_ms`.
pub open spec fn remembered(at: u64, now_ms: u64) -> bool {
    now_ms < (if at + FORWARD_MEMORY_MS > u64::MAX {
        u64::MAX as int
    } else {
        at + FORWARD_MEMORY_MS
    })
}

/// The records still remembered at `now_ms`, in order.
pub open spec fn live_records(s: Seq<(ForwardKey, u64)>, now_ms: u64) -> Seq<(ForwardKey, u64)>
    decreases s.len(),
{
    if s.len() == 0 {
        seq![]
    } else {
        let rest = live_records(s.drop_last(), now_ms);
        if remembered(s.last().1, now_ms) {
            rest.push(s.last())
        } else {
            rest
        }
    }
}

/// Whether `key` has a record in `s`.
pub open spec fn holds_key(s: Seq<(ForwardKey, u64)>, key: ForwardKey) -> bool {
    exists|i: int| 0 <= i < s.len() && (#[trigger] s[i]).0 == key
}

/// `s` with the record of `key` set to `now_ms`: replaced where there is
/// one, else appended.
pub open spec fn record_key(s: Seq<(ForwardKey, u64)>, key: ForwardKey, now_ms: u64) -> Seq<
    (ForwardKey, u64),
> {
    if holds_key(s, key) {
        s.map_values(|r: (ForwardKey, u64)| if r.0 == key { (key, now_ms) } else { r })
    } else {
        s.push((key, now_ms))
    }
}

/// The envelopes forwarded recently, each with the time it was last seen.
pub struct ForwardMemory {
    records: Vec<(ForwardKey, u64)>,
}

impl View for ForwardMemory {
    type V = Seq<(ForwardKey, u64)>;

    closed spec fn view(&self) -> Seq<(ForwardKey, u64)> {
        self.records@
    }
}

impl ForwardMemory {
    /// No envelope remembered.
    pub fn new() -> (m: ForwardMemory)
        ensures
            m@ == Seq::<(ForwardKey, u64)>::empty(),
    {
        ForwardMemory { records: Vec::new() }
    }

    /// Forgets the records that have lapsed, then records `key` as seen
    /// now; returns whether it was not remembered, that is whether the
    /// envelope is forwarded.
    pub fn remember(&mut self, key: ForwardKey, now_ms: u64) -> (fresh: bool)
        ensures
            fresh == !holds_key(live_records(old(self)@, now_ms), key),
            final(self)@ == record_key(live_records(old(self)@, now_ms), key, now_ms),
    {
        let ghost s = self.records@;
        let mut kept: Vec<(ForwardKey, u64)> = Vec::new();
        let n = self.records.len();
        let mut i = 0usize;
        while i < n
            invariant
                self.records@ == s,
                n == s.len(),
                i <= n,
                kept@ == live_records(s.take(i as int), now_ms),
            decreases n - i,
        {
            let r = self.records[i];
            proof {
                let next = s.take(i as int + 1);
                assert(next.drop_last() =~= s.take(i as int));
                assert(next.last() == r);
            }
            if now_ms < r.1.saturating_add(FORWARD_MEMORY_MS) {
                kept.push(r);
            }
            i += 1;
        }
        proof {
            assert(s.take(n as int) =~= s);
        }
        let ghost live = kept@;
        let m = kept.len();
        let mut j = 0usize;
        let mut found = false;
        while j < m
            invariant
                m == live.len(),
                kept@.len() == m,
                j <= m,
                found == exists|k: int| 0 <= k < j && (#[trigger] live[k]).0 == key,
                forall|k: int|
                    0 <= k < j ==> #[trigger] kept@[k] == (if live[k].0 == key {
                        (key, now_ms)
                    } else {
                        live[k]
                    }),
                forall|k: int| j <= k < m ==> #[trigger] kept@[k] == live[k],
            decreases m - j,
        {
            let r = kept[j];
            if same_key(&r.0, &key) {
                kept.set(j, (key, now_ms));
                found = true;
            }
            j += 1;
        }
        if found {
            proof {
                assert(holds_key(live, key));
                assert(kept@ =~= live.map_values(
                    |r: (ForwardKey, u64)| if r.0 == key { (key, now_ms) } else { r },
                ));
            }
        } else {
            proof {
                assert(!holds_key(live, key));
                assert(kept@ =~= live);
            }
            kept.push((key, now_ms));
        }
        self.records = kept;
        !found
    }
}

/// The same envelope seen again while it is remembered is not forwarded
/// again: after it was recorded at `t`, remembering it at any `now` before
/// the memory lapses finds it.
pub proof fn lemma_repeat_is_not_forwarded(s: Seq<(ForwardKey, u64)>, key: ForwardKey, t: u64, now: u64)
    requires
        t <= now,
        remembered(t, now),
    ensures
        holds_key(live_records(record_key(live_records(s, t), key, t), now), key),
{
    let r = record_key(live_records(s, t), key, t);
    let p = choose_position(live_records(s, t), key, t);
    lemma_live_keeps(r, now, p);
}

/// A position of `key`'s record, stamped `t`, in `record_key(.., key, t)`.
proof fn choose_position(s: Seq<(ForwardKey, u64)>, key: ForwardKey, t: u64) -> (p: int)
    ensures
        0 <= p < record_key(s, key, t).len(),
        record_key(s, key, t)[p] == (key, t),
{
    if holds_key(s, key) {
        let i = choose|i: int| 0 <= i < s.len() && (#[trigger] s[i]).0 == key;
        i
    } else {
        s.len() as int
    }
}

/// A record that is still remembered survives the lapse of the others.
proof fn lemma_live_keeps(s: Seq<(ForwardKey, u64)>, now: u64, p: int)
    requires
        0 <= p < s.len(),
        remembered(s[p].1, now),
    ensures
        holds_key(live_records(s, now), s[p].0),
    decreases s.len(),
{
    let rest = live_records(s.drop_last(), now);
    if p == s.len() - 1 {
        assert(live_records(s, now) == rest.push(s.last()));
        assert(live_records(s, now)[rest.len() as int] == s[p]);
    } else {
        lemma_live_keeps(s.drop_last(), now, p);
        let i = choose|i: int| 0 <= i < rest.len() && (#[trigger] rest[i]).0 == s[p].0;
        if remembered(s.last().1, now) {
            assert(live_records(s, now)[i] == rest[i]);
        }
    }
}


/// The kinds of body an envelope carries.
#[derive(Debug, Clone, Copy, PartialEq, Eq, Structural)]
pub enum BodyKind {
    ProfileRequest,
    ProfileResponse,
    DelegationSubscribe,
    DelegationSubscribeAck,
    DelegationRevoke,
    DelegationRevokeAck,
}

/// Whether an envelope answers a request rather than making one.
pub open spec fn spec_is_response(body: Option<BodyKind>) -> bool {
    match body {
        Some(BodyKind::ProfileResponse) => true,
        Some(BodyKind::DelegationSubscribeAck) => true,
        Some(BodyKind::DelegationRevokeAck) => true,
        _ => false,
    }
}

/// Whether an envelope answers a request rather than making one.
pub fn is_response(body: Option<BodyKind>) -> (r: bool)
    ensures
        r == spec_is_response(body),
{
    match body {
        Some(BodyKind::ProfileResponse) => true,
        Some(BodyKind::DelegationSubscribeAck) => true,
        Some(BodyKind::DelegationRevokeAck) => true,
        _ => false,
    }
}

/// Whether `id` names an identity of this node: the node itself, or a
/// user it hosts.
pub open spec fn is_local_identity(id: [u8; 8], is_node: bool, host_id: [u8; 8], hosted: Seq<[u8; 8]>) -> bool {
    if is_node {
        id == host_id
    } else {
        hosted.contains(id)
    }
}

fn contains_id(ids: &Vec<[u8; 8]>, id: &[u8; 8]) -> (r: bool)
    ensures
        r == ids@.contains(*id),
{
    let mut i = 0usize;
    while i < ids.len()
        invariant
            i <= ids@.len(),
            forall|j: int| 0 <= j < i ==> ids@[j] != *id,
        decreases ids@.len() - i,
    {
        if same_id(&ids[i], id) {
            return true;
        }
        i += 1;
    }
    false
}

/// What becomes of a received envelope.
#[derive(Debug, Clone, Copy)]
pub enum EnvelopeAction {
    /// of another version, with malformed ids, or forwarded just before
    Discard,
    /// addressed to this node or one of its users: act on its body
    Dispatch { destination: [u8; 8], source: [u8; 8] },
    /// passed one hop closer to its destination
    Forward { destination: [u8; 8], destination_is_node: bool },
}

/// Routes a received envelope: one of another version or with malformed
/// ids is discarded; one addressed to a local identity is dispatched;
/// else it is forwarded, unless the same envelope was forwarded while
/// still remembered, which breaks a loop.
pub fn route_envelope(
    memory: &mut ForwardMemory,
    version: u32,
    destination: &[u8],
    destination_is_node: bool,
    source: &[u8],
    request_id: u64,
    body: Option<BodyKind>,
    host_id: [u8; 8],
    hosted: &Vec<[u8; 8]>,
    now_ms: u64,
) -> (r: EnvelopeAction)
    ensures
        !(version == MANAGEMENT_VERSION && destination@.len() == 8 && source@.len() == 8) ==> (r is Discard
            && final(memory)@ == old(memory)@),
        r matches EnvelopeAction::Dispatch { destination: d, source: s } ==> d@ == destination@ && s@
            == source@ && is_local_identity(d, destination_is_node, host_id, hosted@) && final(memory)@
            == old(memory)@,
        r matches EnvelopeAction::Forward { destination: d, destination_is_node: n } ==> {
            &&& d@ == destination@
            &&& n == destination_is_node
            &&& !is_local_identity(d, destination_is_node, host_id, hosted@)
            &&& exists|s: [u8; 8]|
                s@ == source@ && {
                    let key = ForwardKey { source: s, destination: d, request_id, is_response: spec_is_response(body) };
                    &&& !holds_key(live_records(old(memory)@, now_ms), key)
                    &&& final(memory)@ == record_key(live_records(old(memory)@, now_ms), key, now_ms)
                }
        },
        r is Discard && version == MANAGEMENT_VERSION && destination@.len() == 8 && source@.len() == 8 ==> exists|
            d: [u8; 8],
            s: [u8; 8],
        |
            d@ == destination@ && s@ == source@ && !is_local_identity(d, destination_is_node, host_id, hosted@)
                && {
                let key = ForwardKey { source: s, destination: d, request_id, is_response: spec_is_response(body) };
                &&& holds_key(live_records(old(memory)@, now_ms), key)
                &&& final(memory)@ == record_key(live_records(old(memory)@, now_ms), key, now_ms)
            },
{
    let (d, s) = match envelope_ids(version, destination, source) {
        None => {
            return EnvelopeAction::Discard;
        },
        Some(ids) => ids,
    };
    let local = if destination_is_node {
        same_id(&d, &host_id)
    } else {
        contains_id(hosted, &d)
    };
    if local {
        return EnvelopeAction::Dispatch { destination: d, source: s };
    }
    let key = ForwardKey { source: s, destination: d, request_id, is_response: is_response(body) };
    if !memory.remember(key, now_ms) {
        return EnvelopeAction::Discard;
    }
    EnvelopeAction::Forward { destination: d, destination_is_node }
}

} // verus!
