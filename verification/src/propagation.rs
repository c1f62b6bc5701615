//! What an entry looks like when it is passed on, and how a dictionary is
//! split across INDEX_DUMP messages.

use vstd::prelude::*;

use crate::codec::messages::{mappings_view, Entry, IndexDump, Mapping, RoutingUpdate, RoutingUpdateV};
use crate::codec::frame::{encode_frame, frame_bytes};
use crate::codec::RoutingMessage;
use crate::manifest::MAX_BODY;
use crate::keyed::{id_key, spec_id_key};
use crate::sphere::{ConnectionModule, Space, Sphere};

verus! {

/// Bytes of an INDEX_DUMP body besides its mappings: the chunk index and
/// count and the two section counts.
pub const DUMP_OVERHEAD: usize = 6;

/// Bytes of one mapping in an INDEX_DUMP.
pub const DUMP_MAPPING_BYTES: usize = 15;

/// How many mappings fit into one INDEX_DUMP:
/// `(MAX_BODY - DUMP_OVERHEAD) / DUMP_MAPPING_BYTES`.
pub const MAPPINGS_PER_DUMP: usize = 4095;

/// The `local_only` flag an entry carries when sent into a sphere: never
/// into the Internet sphere, else as stored.
pub open spec fn spec_outgoing_local_only(stored: bool, outgoing_sphere: Sphere) -> bool {
    match outgoing_sphere {
        Sphere::Internet => false,
        Sphere::Local => stored,
    }
}

/// The `local_only` flag an entry carries when sent into a sphere.
pub fn compute_outgoing_local_only(stored: bool, outgoing_sphere: Sphere) -> (r: bool)
    ensures
        r == spec_outgoing_local_only(stored, outgoing_sphere),
{
    match outgoing_sphere {
        Sphere::Internet => false,
        Sphere::Local => stored,
    }
}

/// The hop count an entry carries when sent into a sphere: the hop
/// counter is sphere-local, so it restarts at zero where a Local entry
/// crosses into the Internet sphere.
pub open spec fn spec_outgoing_hop_count(
    stored_hop_count: u8,
    stored_transport: ConnectionModule,
    outgoing_sphere: Sphere,
) -> u8 {
    if outgoing_sphere == Sphere::Internet && Sphere::spec_of(stored_transport) == Sphere::Local {
        0
    } else {
        stored_hop_count
    }
}

/// The hop count an entry carries when sent into a sphere.
pub fn compute_outgoing_hop_count(
    stored_hop_count: u8,
    stored_transport: ConnectionModule,
    outgoing_sphere: Sphere,
) -> (r: u8)
    ensures
        r == spec_outgoing_hop_count(stored_hop_count, stored_transport, outgoing_sphere),
{
    let internet = match outgoing_sphere {
        Sphere::Internet => true,
        Sphere::Local => false,
    };
    let stored_local = match Sphere::of(stored_transport) {
        Sphere::Local => true,
        Sphere::Internet => false,
    };
    if internet && stored_local {
        0
    } else {
        stored_hop_count
    }
}

/// The entry a node originates for itself: at the reserved index, with
/// metric and hop count zero.
pub open spec fn origin_entry(new_seq: u16, local_only: bool) -> Entry {
    Entry { local_only, hop_count: 0, metric: 0, seq: new_seq, abs_idx: 0 }
}

/// The ROUTING_UPDATE a node originates: its own entry in the index space
/// it originates in, with the pending introductions as that space's
/// mapping section; the other space's sections are empty.
pub fn build_origin_update(
    new_seq: u16,
    origin_space: Space,
    local_only: bool,
    intros: Vec<Mapping>,
) -> (u: RoutingUpdate)
    ensures
        origin_space == Space::Node ==> {
            &&& u.node_entries@ == seq![origin_entry(new_seq, local_only)]
            &&& u.node_mappings@ == intros@
            &&& u.user_entries@.len() == 0
            &&& u.user_mappings@.len() == 0
        },
        origin_space == Space::User ==> {
            &&& u.user_entries@ == seq![origin_entry(new_seq, local_only)]
            &&& u.user_mappings@ == intros@
            &&& u.node_entries@.len() == 0
            &&& u.node_mappings@.len() == 0
        },
{
    let entry = Entry { local_only, hop_count: 0, metric: 0, seq: new_seq, abs_idx: 0 };
    match origin_space {
        Space::Node => RoutingUpdate {
            user_mappings: Vec::new(),
            node_mappings: intros,
            user_entries: Vec::new(),
            node_entries: vec![entry],
        },
        Space::User => RoutingUpdate {
            user_mappings: intros,
            node_mappings: Vec::new(),
            user_entries: vec![entry],
            node_entries: Vec::new(),
        },
    }
}

/// The originated ROUTING_UPDATE as a value.
pub open spec fn spec_origin_update(new_seq: u16, origin_space: Space, local_only: bool, intros: Seq<Mapping>) -> RoutingUpdateV {
    let entries = seq![origin_entry(new_seq, local_only)];
    match origin_space {
        Space::Node => RoutingUpdateV {
            user_mappings: seq![],
            node_mappings: mappings_view(intros),
            user_entries: seq![],
            node_entries: entries,
        },
        Space::User => RoutingUpdateV {
            user_mappings: mappings_view(intros),
            node_mappings: seq![],
            user_entries: entries,
            node_entries: seq![],
        },
    }
}

/// The frame of the ROUTING_UPDATE this node originates toward a
/// neighbour reached over `transport`: its own entry is local-only exactly
/// when the transport stays in the local sphere. `None` when the body is
/// longer than a header can announce.
pub fn origin_frame(new_seq: u16, origin_space: Space, transport: ConnectionModule, intros: &Vec<Mapping>) -> (r:
    Option<Vec<u8>>)
    ensures
        ({
            let body = spec_origin_update(
                new_seq,
                origin_space,
                Sphere::spec_of(transport) == Sphere::Local,
                intros@,
            ).spec_bytes();
            &&& body.len() > 0xffff ==> r is None
            &&& body.len() <= 0xffff ==> (r matches Some(f) && f@ == frame_bytes(RoutingMessage::RoutingUpdate, body))
        }),
{
    let local_only = match Sphere::of(transport) {
        Sphere::Local => true,
        Sphere::Internet => false,
    };
    let update = build_origin_update(new_seq, origin_space, local_only, intros.clone());
    proof {
        let v = spec_origin_update(new_seq, origin_space, local_only, intros@);
        assert(update@.user_mappings =~= v.user_mappings);
        assert(update@.node_mappings =~= v.node_mappings);
        assert(update@.user_entries =~= v.user_entries);
        assert(update@.node_entries =~= v.node_entries);
    }
    let mut body: Vec<u8> = Vec::new();
    let _ = update.encode(&mut body);
    proof {
        assert(body@ =~= update@.spec_bytes());
    }
    encode_frame(RoutingMessage::RoutingUpdate, body.as_slice())
}

/// How many INDEX_DUMPs `total` mappings are split into: as many as it
/// takes, at least one, at most 255.
pub open spec fn dump_chunk_count(total: nat) -> nat {
    let needed = total / (MAPPINGS_PER_DUMP as nat) + if total % (MAPPINGS_PER_DUMP as nat) == 0 {
        0nat
    } else {
        1nat
    };
    if needed == 0 {
        1
    } else if needed > 255 {
        255
    } else {
        needed
    }
}

/// How many of the `total` mappings, users first, the dumps before dump
/// `k` carry.
pub open spec fn dump_consumed(k: int, total: int) -> int {
    if k * MAPPINGS_PER_DUMP <= total {
        k * MAPPINGS_PER_DUMP
    } else {
        total
    }
}

/// The smaller of `a` and `b`.
pub open spec fn min_int(a: int, b: int) -> int {
    if a <= b {
        a
    } else {
        b
    }
}

/// The user mappings dump `k` carries.
pub open spec fn dump_users(users: Seq<Mapping>, nodes: Seq<Mapping>, k: int) -> Seq<Mapping> {
    let total = (users.len() + nodes.len()) as int;
    users.subrange(
        min_int(dump_consumed(k, total), users.len() as int),
        min_int(dump_consumed(k + 1, total), users.len() as int),
    )
}

/// The node mappings dump `k` carries.
pub open spec fn dump_nodes(users: Seq<Mapping>, nodes: Seq<Mapping>, k: int) -> Seq<Mapping> {
    let total = (users.len() + nodes.len()) as int;
    let u = users.len() as int;
    nodes.subrange(
        dump_consumed(k, total) - min_int(dump_consumed(k, total), u),
        dump_consumed(k + 1, total) - min_int(dump_consumed(k + 1, total), u),
    )
}

/// Splits the user and node mappings across INDEX_DUMPs: each dump is
/// filled with up to `MAPPINGS_PER_DUMP` mappings, users before nodes.
/// At most 255 dumps are made; mappings beyond them are left out.
pub fn split_index_dump(user_mappings: Vec<Mapping>, node_mappings: Vec<Mapping>) -> (r: Vec<IndexDump>)
    requires
        user_mappings@.len() + node_mappings@.len() <= usize::MAX,
    ensures
        r@.len() == dump_chunk_count((user_mappings@.len() + node_mappings@.len()) as nat),
        forall|k: int|
            #![trigger r@[k]]
            0 <= k < r@.len() ==> {
                &&& r@[k].chunk_index == k
                &&& r@[k].chunk_count == r@.len()
                &&& r@[k].user_mappings@ == dump_users(user_mappings@, node_mappings@, k)
                &&& r@[k].node_mappings@ == dump_nodes(user_mappings@, node_mappings@, k)
                &&& r@[k].user_mappings@.len() + r@[k].node_mappings@.len() <= MAPPINGS_PER_DUMP
            },
{
    let u = user_mappings.len();
    let n = node_mappings.len();
    let total = u + n;
    let needed = total / MAPPINGS_PER_DUMP + if total % MAPPINGS_PER_DUMP == 0 { 0 } else { 1 };
    let chunk_count: usize = if needed == 0 {
        1
    } else if needed > 255 {
        255
    } else {
        needed
    };
    let ghost us = user_mappings@;
    let ghost ns = node_mappings@;
    let mut chunks: Vec<IndexDump> = Vec::new();
    let mut ui = 0usize;
    let mut ni = 0usize;
    let mut k = 0usize;
    while k < chunk_count
        invariant
            us == user_mappings@,
            ns == node_mappings@,
            u == us.len(),
            n == ns.len(),
            total == u + n,
            chunk_count == dump_chunk_count(total as nat),
            chunk_count <= 255,
            k <= chunk_count,
            ui == min_int(dump_consumed(k as int, total as int), u as int),
            ni == dump_consumed(k as int, total as int) - ui,
            chunks@.len() == k,
            forall|j: int|
                #![trigger chunks@[j]]
                0 <= j < k ==> {
                    &&& chunks@[j].chunk_index == j
                    &&& chunks@[j].chunk_count == chunk_count
                    &&& chunks@[j].user_mappings@ == dump_users(us, ns, j)
                    &&& chunks@[j].node_mappings@ == dump_nodes(us, ns, j)
                    &&& chunks@[j].user_mappings@.len() + chunks@[j].node_mappings@.len()
                        <= MAPPINGS_PER_DUMP
                },
        decreases chunk_count - k,
    {
        let ghost ui0 = ui as int;
        let ghost ni0 = ni as int;
        let mut room = MAPPINGS_PER_DUMP;
        let mut user_chunk: Vec<Mapping> = Vec::new();
        let mut node_chunk: Vec<Mapping> = Vec::new();
        while room > 0 && ui < u
            invariant
                us == user_mappings@,
                u == us.len(),
                0 <= ui0 <= ui <= u,
                room == MAPPINGS_PER_DUMP - (ui - ui0),
                user_chunk@ == us.subrange(ui0, ui as int),
            decreases room,
        {
            user_chunk.push(user_mappings[ui]);
            assert(us.subrange(ui0, ui as int + 1) =~= us.subrange(ui0, ui as int).push(us[ui as int]));
            ui += 1;
            room -= 1;
        }
        let ghost room_mid = room as int;
        while room > 0 && ni < n
            invariant
                ns == node_mappings@,
                n == ns.len(),
                0 <= ni0 <= ni <= n,
                room == room_mid - (ni - ni0),
                room_mid <= MAPPINGS_PER_DUMP,
                node_chunk@ == ns.subrange(ni0, ni as int),
            decreases room,
        {
            node_chunk.push(node_mappings[ni]);
            assert(ns.subrange(ni0, ni as int + 1) =~= ns.subrange(ni0, ni as int).push(ns[ni as int]));
            ni += 1;
            room -= 1;
        }
        chunks.push(
            IndexDump {
                chunk_index: k as u8,
                chunk_count: chunk_count as u8,
                user_mappings: user_chunk,
                node_mappings: node_chunk,
            },
        );
        k += 1;
    }
    chunks
}

/// The user mappings of dumps `0..k`, one dump after the other.
pub open spec fn dumps_users_upto(users: Seq<Mapping>, nodes: Seq<Mapping>, k: nat) -> Seq<Mapping>
    decreases k,
{
    if k == 0 {
        seq![]
    } else {
        dumps_users_upto(users, nodes, (k - 1) as nat) + dump_users(users, nodes, k - 1)
    }
}

/// The node mappings of dumps `0..k`, one dump after the other.
pub open spec fn dumps_nodes_upto(users: Seq<Mapping>, nodes: Seq<Mapping>, k: nat) -> Seq<Mapping>
    decreases k,
{
    if k == 0 {
        seq![]
    } else {
        dumps_nodes_upto(users, nodes, (k - 1) as nat) + dump_nodes(users, nodes, k - 1)
    }
}

proof fn lemma_dumps_upto(users: Seq<Mapping>, nodes: Seq<Mapping>, k: nat)
    ensures
        ({
            let total = (users.len() + nodes.len()) as int;
            let c = dump_consumed(k as int, total);
            &&& dumps_users_upto(users, nodes, k) == users.subrange(0, min_int(c, users.len() as int))
            &&& dumps_nodes_upto(users, nodes, k) == nodes.subrange(0, c - min_int(c, users.len() as int))
        }),
    decreases k,
{
    if k > 0 {
        lemma_dumps_upto(users, nodes, (k - 1) as nat);
        let total = (users.len() + nodes.len()) as int;
        let c0 = dump_consumed(k - 1, total);
        let u = users.len() as int;
        assert(users.subrange(0, min_int(c0, u)) + users.subrange(min_int(c0, u), min_int(dump_consumed(k as int, total), u))
            =~= users.subrange(0, min_int(dump_consumed(k as int, total), u)));
        assert(nodes.subrange(0, c0 - min_int(c0, u)) + nodes.subrange(
            c0 - min_int(c0, u),
            dump_consumed(k as int, total) - min_int(dump_consumed(k as int, total), u),
        ) =~= nodes.subrange(0, dump_consumed(k as int, total) - min_int(dump_consumed(k as int, total), u)));
    }
}

/// Where the dictionary fits into 255 dumps, the dumps carry every
/// mapping: their user mappings, one dump after the other, are the user
/// mappings given, and likewise for the nodes.
pub proof fn lemma_split_keeps_every_mapping(users: Seq<Mapping>, nodes: Seq<Mapping>)
    requires
        users.len() + nodes.len() <= 255 * MAPPINGS_PER_DUMP,
    ensures
        dumps_users_upto(users, nodes, dump_chunk_count((users.len() + nodes.len()) as nat)) == users,
        dumps_nodes_upto(users, nodes, dump_chunk_count((users.len() + nodes.len()) as nat)) == nodes,
{
    let total = (users.len() + nodes.len()) as nat;
    let cc = dump_chunk_count(total);
    let m = MAPPINGS_PER_DUMP as nat;
    let q = total / m;
    let r = total % m;
    assert(total == q * m + r && r < m) by (nonlinear_arith)
        requires
            q == total / m,
            r == total % m,
            m == 4095,
    ;
    assert(cc * m >= total) by (nonlinear_arith)
        requires
            total == q * m + r,
            r < m,
            m == 4095,
            r == 0 ==> (q == 0 ==> cc == 1) && (q > 0 ==> cc == q),
            r != 0 ==> cc == q + 1,
    {
    }
    lemma_dumps_upto(users, nodes, cc);
    assert(users.subrange(0, users.len() as int) =~= users);
    assert(nodes.subrange(0, nodes.len() as int) =~= nodes);
}

// ---------- choosing what to relay to a neighbour ----------

/// A stored routing entry as the relay tick reads it.
#[derive(Debug, Clone, Copy)]
pub struct RelayCandidate {
    /// the index space the entry lives in
    pub space: Space,
    /// the entry's index in our own dictionary
    pub own_idx: u16,
    /// the node id of the entry's next hop, where the node dictionary
    /// binds one
    pub next_hop_id: Option<[u8; 8]>,
    /// the transport the entry was learnt over
    pub transport: ConnectionModule,
    /// what the entry leads to
    pub target: Space,
    /// whether the target is a gateway node
    pub target_is_gateway: bool,
    pub seq: u16,
    pub metric: u16,
    pub hop_count: u8,
    pub local_only: bool,
}

/// Split horizon: an entry is withheld from the neighbour it was learnt
/// from, and from everyone where its next hop is unknown.
pub open spec fn spec_blocked_by_split_horizon(c: RelayCandidate, neighbour_id: [u8; 8]) -> bool {
    match c.next_hop_id {
        None => true,
        Some(id) => spec_id_key(id) == spec_id_key(neighbour_id),
    }
}

/// Whether the entry is withheld from a neighbour by split horizon.
pub fn blocked_by_split_horizon(c: &RelayCandidate, outgoing_neighbour_id: [u8; 8]) -> (r: bool)
    ensures
        r == spec_blocked_by_split_horizon(*c, outgoing_neighbour_id),
{
    match c.next_hop_id {
        None => true,
        Some(id) => id_key(&id) == id_key(&outgoing_neighbour_id),
    }
}

/// The gateway membrane: into the Local sphere go only entries learnt
/// in it, into the Internet sphere only entries of gateway nodes.
pub open spec fn spec_should_propagate(c: RelayCandidate, sphere: Sphere) -> bool {
    match sphere {
        Sphere::Local => Sphere::spec_of(c.transport) == Sphere::Local,
        Sphere::Internet => c.target_is_gateway,
    }
}

/// Whether the membrane lets the entry through into `sphere`.
pub fn should_propagate(c: &RelayCandidate, sphere: Sphere) -> (r: bool)
    ensures
        r == spec_should_propagate(*c, sphere),
{
    match sphere {
        Sphere::Local => match Sphere::of(c.transport) {
            Sphere::Local => true,
            Sphere::Internet => false,
        },
        Sphere::Internet => c.target_is_gateway,
    }
}

/// An entry of `space` goes to the neighbour: it is of that space, not
/// blocked, let through, and a node-space entry leads to a node.
pub open spec fn relays(c: RelayCandidate, space: Space, neighbour_id: [u8; 8], sphere: Sphere) -> bool {
    &&& c.space == space
    &&& !spec_blocked_by_split_horizon(c, neighbour_id)
    &&& spec_should_propagate(c, sphere)
    &&& (c.space == Space::Node ==> c.target == Space::Node)
}

/// The wire entry a candidate is sent as into `sphere`.
pub open spec fn outgoing_entry(c: RelayCandidate, sphere: Sphere) -> Entry {
    Entry {
        local_only: spec_outgoing_local_only(c.local_only, sphere),
        hop_count: spec_outgoing_hop_count(c.hop_count, c.transport, sphere),
        metric: c.metric,
        seq: c.seq,
        abs_idx: c.own_idx,
    }
}

/// The entries of `space` relayed to a neighbour, in candidate order.
pub open spec fn relayed_entries(
    cs: Seq<RelayCandidate>,
    space: Space,
    neighbour_id: [u8; 8],
    sphere: Sphere,
) -> Seq<Entry>
    decreases cs.len(),
{
    if cs.len() == 0 {
        seq![]
    } else {
        let rest = relayed_entries(cs.drop_last(), space, neighbour_id, sphere);
        if relays(cs.last(), space, neighbour_id, sphere) {
            rest.push(outgoing_entry(cs.last(), sphere))
        } else {
            rest
        }
    }
}

/// `x` placed after every entry whose index is at most its own.
pub open spec fn idx_sorted_insert(s: Seq<Entry>, x: Entry) -> Seq<Entry>
    decreases s.len(),
{
    if s.len() == 0 {
        seq![x]
    } else if s.last().abs_idx <= x.abs_idx {
        s.push(x)
    } else {
        idx_sorted_insert(s.drop_last(), x).push(s.last())
    }
}

/// The entries sorted by index, equal indexes in their given order.
pub open spec fn sort_by_idx(s: Seq<Entry>) -> Seq<Entry>
    decreases s.len(),
{
    if s.len() == 0 {
        seq![]
    } else {
        idx_sorted_insert(sort_by_idx(s.drop_last()), s.last())
    }
}

pub open spec fn idx_sorted(s: Seq<Entry>) -> bool {
    forall|i: int, j: int| 0 <= i < j < s.len() ==> (#[trigger] s[i]).abs_idx <= (#[trigger] s[j]).abs_idx
}

#[verifier::spinoff_prover]
#[verifier::rlimit(40)]
proof fn lemma_idx_insert_at(s: Seq<Entry>, x: Entry, p: int)
    requires
        idx_sorted(s),
        0 <= p <= s.len(),
        p > 0 ==> s[p - 1].abs_idx <= x.abs_idx,
        forall|j: int| p <= j < s.len() ==> x.abs_idx < (#[trigger] s[j]).abs_idx,
    ensures
        idx_sorted_insert(s, x) == s.insert(p, x),
        idx_sorted(s.insert(p, x)),
    decreases s.len(),
{
    let t = s.insert(p, x);
    s.insert_ensures(p, x);
    assert forall|i: int, j: int| 0 <= i < j < t.len() implies (#[trigger] t[i]).abs_idx <= (
    #[trigger] t[j]).abs_idx by {
        if j < p {
        } else if j == p {
            if i < p - 1 {
                assert(s[i].abs_idx <= s[p - 1].abs_idx);
            }
        } else if i < p {
            assert(t[j] == s[j - 1]);
        } else if i == p {
            assert(t[j] == s[j - 1]);
        } else {
            assert(t[i] == s[i - 1]);
            assert(t[j] == s[j - 1]);
        }
    }
    if s.len() > 0 {
        if p == s.len() {
            assert(s.push(x) =~= t);
        } else {
            let d = s.drop_last();
            lemma_idx_insert_at(d, x, p);
            assert(d.insert(p, x).push(s.last()) =~= t);
        }
    } else {
        assert(seq![x] =~= t);
    }
}

/// Pushes `x` into `out` where it keeps `out` sorted by index.
fn insert_by_idx(out: &mut Vec<Entry>, x: Entry)
    requires
        idx_sorted(old(out)@),
    ensures
        final(out)@ == idx_sorted_insert(old(out)@, x),
        idx_sorted(final(out)@),
{
    let mut j = out.len();
    while j > 0 && out[j - 1].abs_idx > x.abs_idx
        invariant
            j <= out@.len(),
            forall|m: int| j <= m < out@.len() ==> x.abs_idx < (#[trigger] out@[m]).abs_idx,
        decreases j,
    {
        j -= 1;
    }
    proof {
        lemma_idx_insert_at(out@, x, j as int);
    }
    out.insert(j, x);
}

/// The entries of `space` that go to the neighbour with node id
/// `neighbour_id` over a transport of `sphere`, as sent: withheld by
/// split horizon and the membrane, flags and hop counts adjusted to the
/// sphere, sorted by index.
pub fn relay_entries_for(
    candidates: &Vec<RelayCandidate>,
    space: Space,
    neighbour_id: [u8; 8],
    sphere: Sphere,
) -> (r: Vec<Entry>)
    ensures
        r@ == sort_by_idx(relayed_entries(candidates@, space, neighbour_id, sphere)),
{
    let mut out: Vec<Entry> = Vec::new();
    let n = candidates.len();
    let mut i = 0usize;
    while i < n
        invariant
            n == candidates@.len(),
            i <= n,
            out@ == sort_by_idx(relayed_entries(candidates@.take(i as int), space, neighbour_id, sphere)),
            idx_sorted(out@),
        decreases n - i,
    {
        let c = candidates[i];
        proof {
            let next = candidates@.take(i as int + 1);
            assert(next.drop_last() =~= candidates@.take(i as int));
            assert(next.last() == c);
        }
        let same_space = match (c.space, space) {
            (Space::User, Space::User) => true,
            (Space::Node, Space::Node) => true,
            _ => false,
        };
        let leads_right = match (c.space, c.target) {
            (Space::Node, Space::User) => false,
            _ => true,
        };
        if same_space && leads_right && !blocked_by_split_horizon(&c, neighbour_id) && should_propagate(
            &c,
            sphere,
        ) {
            let e = Entry {
                local_only: compute_outgoing_local_only(c.local_only, sphere),
                hop_count: compute_outgoing_hop_count(c.hop_count, c.transport, sphere),
                metric: c.metric,
                seq: c.seq,
                abs_idx: c.own_idx,
            };
            proof {
                let rest = relayed_entries(candidates@.take(i as int), space, neighbour_id, sphere);
                assert(relays(c, space, neighbour_id, sphere));
                assert(e == outgoing_entry(c, sphere));
                assert(rest.push(e).drop_last() =~= rest);
            }
            insert_by_idx(&mut out, e);
        } else {
            proof {
                assert(!relays(c, space, neighbour_id, sphere));
            }
        }
        i += 1;
    }
    proof {
        assert(candidates@.take(n as int) =~= candidates@);
    }
    out
}

/// Nothing goes back to the neighbour an entry was learnt from, and
/// nothing crosses into the Internet sphere but gateway entries, which
/// arrive there with a fresh hop count and without the local-only flag.
pub proof fn lemma_relay_respects_membrane(
    cs: Seq<RelayCandidate>,
    space: Space,
    neighbour_id: [u8; 8],
    sphere: Sphere,
    k: int,
)
    requires
        0 <= k < relayed_entries(cs, space, neighbour_id, sphere).len(),
    ensures
        exists|i: int|
            #![trigger cs[i]]
            0 <= i < cs.len() && relays(cs[i], space, neighbour_id, sphere)
                && relayed_entries(cs, space, neighbour_id, sphere)[k] == outgoing_entry(cs[i], sphere),
        sphere == Sphere::Internet ==> !relayed_entries(cs, space, neighbour_id, sphere)[k].local_only,
    decreases cs.len(),
{
    let d = cs.drop_last();
    let rest = relayed_entries(d, space, neighbour_id, sphere);
    if k < rest.len() {
        lemma_relay_respects_membrane(d, space, neighbour_id, sphere, k);
        let i = choose|i: int|
            #![trigger d[i]]
            0 <= i < d.len() && relays(d[i], space, neighbour_id, sphere) && rest[k] == outgoing_entry(
                d[i],
                sphere,
            );
        assert(cs[i] == d[i]);
    } else {
        assert(cs[cs.len() - 1] == cs.last());
    }
}


/// Whether a target is introduced to a neighbour in `sphere`: anything
/// within the Local sphere; into the Internet sphere only gateway nodes.
pub open spec fn spec_should_introduce(space: Space, target_is_gateway: bool, sphere: Sphere) -> bool {
    match sphere {
        Sphere::Local => true,
        Sphere::Internet => space == Space::Node && target_is_gateway,
    }
}

/// Whether a target is introduced to a neighbour in `sphere`.
pub fn should_introduce(space: Space, target_is_gateway: bool, sphere: Sphere) -> (r: bool)
    ensures
        r == spec_should_introduce(space, target_is_gateway, sphere),
{
    match (sphere, space) {
        (Sphere::Local, _) => true,
        (Sphere::Internet, Space::User) => false,
        (Sphere::Internet, Space::Node) => target_is_gateway,
    }
}

/// One binding of this node's dictionary, with what introducing it needs:
/// the version the table holds for the target, and whether the target is
/// a gateway node.
#[derive(Debug, Clone, Copy)]
pub struct IntroCandidate {
    pub abs_idx: u16,
    pub target_id: [u8; 8],
    pub version: u32,
    pub is_gateway: bool,
}

/// The mapping that introduces a candidate.
pub open spec fn intro_mapping(c: IntroCandidate) -> Mapping {
    Mapping { abs_idx: c.abs_idx, target_id: c.target_id, version: c.version }
}

/// The mappings of the candidates that are introduced in `sphere`, in
/// the candidates' order.
pub open spec fn introduced(cs: Seq<IntroCandidate>, space: Space, sphere: Sphere) -> Seq<Mapping>
    decreases cs.len(),
{
    if cs.len() == 0 {
        seq![]
    } else {
        let rest = introduced(cs.drop_last(), space, sphere);
        if spec_should_introduce(space, cs.last().is_gateway, sphere) {
            rest.push(intro_mapping(cs.last()))
        } else {
            rest
        }
    }
}

/// `x` placed after every mapping whose index is at most its own.
pub open spec fn mapping_sorted_insert(s: Seq<Mapping>, x: Mapping) -> Seq<Mapping>
    decreases s.len(),
{
    if s.len() == 0 {
        seq![x]
    } else if s.last().abs_idx <= x.abs_idx {
        s.push(x)
    } else {
        mapping_sorted_insert(s.drop_last(), x).push(s.last())
    }
}

/// The mappings sorted by index, equal indexes in their given order.
pub open spec fn sort_mappings_by_idx(s: Seq<Mapping>) -> Seq<Mapping>
    decreases s.len(),
{
    if s.len() == 0 {
        seq![]
    } else {
        mapping_sorted_insert(sort_mappings_by_idx(s.drop_last()), s.last())
    }
}

pub open spec fn mappings_idx_sorted(s: Seq<Mapping>) -> bool {
    forall|i: int, j: int| 0 <= i < j < s.len() ==> (#[trigger] s[i]).abs_idx <= (#[trigger] s[j]).abs_idx
}

#[verifier::spinoff_prover]
#[verifier::rlimit(40)]
proof fn lemma_mapping_insert_at(s: Seq<Mapping>, x: Mapping, p: int)
    requires
        mappings_idx_sorted(s),
        0 <= p <= s.len(),
        p > 0 ==> s[p - 1].abs_idx <= x.abs_idx,
        forall|j: int| p <= j < s.len() ==> x.abs_idx < (#[trigger] s[j]).abs_idx,
    ensures
        mapping_sorted_insert(s, x) == s.insert(p, x),
        mappings_idx_sorted(s.insert(p, x)),
    decreases s.len(),
{
    let t = s.insert(p, x);
    s.insert_ensures(p, x);
    assert forall|i: int, j: int| 0 <= i < j < t.len() implies (#[trigger] t[i]).abs_idx <= (
    #[trigger] t[j]).abs_idx by {
        if j < p {
        } else if j == p {
            if i < p - 1 {
                assert(s[i].abs_idx <= s[p - 1].abs_idx);
            }
        } else if i < p {
            assert(t[j] == s[j - 1]);
        } else if i == p {
            assert(t[j] == s[j - 1]);
        } else {
            assert(t[i] == s[i - 1]);
            assert(t[j] == s[j - 1]);
        }
    }
    if s.len() > 0 {
        if p == s.len() {
            assert(s.push(x) =~= t);
        } else {
            let d = s.drop_last();
            lemma_mapping_insert_at(d, x, p);
            assert(d.insert(p, x).push(s.last()) =~= t);
        }
    } else {
        assert(seq![x] =~= t);
    }
}

/// Puts `x` into `out` where it keeps `out` sorted by index.
fn insert_mapping_by_idx(out: &mut Vec<Mapping>, x: Mapping)
    requires
        mappings_idx_sorted(old(out)@),
    ensures
        final(out)@ == mapping_sorted_insert(old(out)@, x),
        mappings_idx_sorted(final(out)@),
{
    let mut j = out.len();
    while j > 0 && out[j - 1].abs_idx > x.abs_idx
        invariant
            j <= out@.len(),
            forall|m: int| j <= m < out@.len() ==> x.abs_idx < (#[trigger] out@[m]).abs_idx,
        decreases j,
    {
        j -= 1;
    }
    proof {
        lemma_mapping_insert_at(out@, x, j as int);
    }
    out.insert(j, x);
}

/// The mappings that introduce the candidates of `space` to a neighbour
/// in `sphere`, sorted by index.
pub fn bootstrap_mappings(candidates: &Vec<IntroCandidate>, space: Space, sphere: Sphere) -> (r: Vec<
    Mapping,
>)
    ensures
        r@ == sort_mappings_by_idx(introduced(candidates@, space, sphere)),
        r@.len() <= candidates@.len(),
{
    let mut out: Vec<Mapping> = Vec::new();
    let n = candidates.len();
    let mut i = 0usize;
    while i < n
        invariant
            n == candidates@.len(),
            i <= n,
            out@ == sort_mappings_by_idx(introduced(candidates@.take(i as int), space, sphere)),
            mappings_idx_sorted(out@),
            out@.len() <= i,
        decreases n - i,
    {
        let c = candidates[i];
        proof {
            let next = candidates@.take(i as int + 1);
            assert(next.drop_last() =~= candidates@.take(i as int));
            assert(next.last() == c);
        }
        if should_introduce(space, c.is_gateway, sphere) {
            let m = Mapping { abs_idx: c.abs_idx, target_id: c.target_id, version: c.version };
            proof {
                let rest = introduced(candidates@.take(i as int), space, sphere);
                assert(rest.push(m).drop_last() =~= rest);
                lemma_mapping_insert_len(out@, m);
            }
            insert_mapping_by_idx(&mut out, m);
        }
        i += 1;
    }
    proof {
        assert(candidates@.take(n as int) =~= candidates@);
    }
    out
}

proof fn lemma_mapping_insert_len(s: Seq<Mapping>, x: Mapping)
    ensures
        mapping_sorted_insert(s, x).len() == s.len() + 1,
    decreases s.len(),
{
    if s.len() > 0 && s.last().abs_idx > x.abs_idx {
        lemma_mapping_insert_len(s.drop_last(), x);
    }
}

/// Whether a transport gets INDEX_DUMPs when a neighbour connects over
/// it: BLE links do not.
pub open spec fn dumps_over(transport: ConnectionModule) -> bool {
    !(transport == ConnectionModule::Ble1m || transport == ConnectionModule::BleCoded)
}

/// The INDEX_DUMPs `r` sent to a neighbour that connects over
/// `transport`: none over BLE; else the user and node candidates that are
/// introduced into the transport's sphere, sorted by index and split.
pub open spec fn bootstrap_outcome(
    transport: ConnectionModule,
    users: Seq<IntroCandidate>,
    nodes: Seq<IntroCandidate>,
    r: Seq<IndexDump>,
) -> bool {
    &&& !dumps_over(transport) ==> r.len() == 0
    &&& dumps_over(transport) ==> {
        let um = sort_mappings_by_idx(introduced(users, Space::User, Sphere::spec_of(transport)));
        let nm = sort_mappings_by_idx(introduced(nodes, Space::Node, Sphere::spec_of(transport)));
        &&& r.len() == dump_chunk_count((um.len() + nm.len()) as nat)
        &&& forall|k: int|
            #![trigger r[k]]
            0 <= k < r.len() ==> {
                &&& r[k].chunk_index == k
                &&& r[k].chunk_count == r.len()
                &&& r[k].user_mappings@ == dump_users(um, nm, k)
                &&& r[k].node_mappings@ == dump_nodes(um, nm, k)
            }
    }
}

/// The INDEX_DUMPs sent to a neighbour that connects over `transport`:
/// none over BLE; else the user and node dictionaries, as far as they are
/// introduced into the transport's sphere, sorted by index and split.
pub fn bootstrap_dumps(
    transport: ConnectionModule,
    users: &Vec<IntroCandidate>,
    nodes: &Vec<IntroCandidate>,
) -> (r: Vec<IndexDump>)
    requires
        users@.len() + nodes@.len() <= usize::MAX,
    ensures
        bootstrap_outcome(transport, users@, nodes@, r@),
{
    match transport {
        ConnectionModule::Ble1m => {
            return Vec::new();
        },
        ConnectionModule::BleCoded => {
            return Vec::new();
        },
        _ => {},
    }
    let sphere = Sphere::of(transport);
    let um = bootstrap_mappings(users, Space::User, sphere);
    let nm = bootstrap_mappings(nodes, Space::Node, sphere);
    split_index_dump(um, nm)
}


/// The mappings of the pending indexes that resolve to a target and its
/// version, in the given order; `targets[i]` is what index `pending[i]`
/// resolves to.
pub open spec fn resolved_intros(pending: Seq<u16>, targets: Seq<Option<([u8; 8], u32)>>) -> Seq<
    Mapping,
>
    decreases pending.len(),
{
    if pending.len() == 0 {
        seq![]
    } else {
        let n = pending.len() - 1;
        let rest = resolved_intros(pending.drop_last(), targets.take(n));
        match targets[n] {
            Some((id, version)) => rest.push(
                Mapping { abs_idx: pending[n], target_id: id, version },
            ),
            None => rest,
        }
    }
}

/// The introductions of the indexes marked for (re)introduction, sorted by
/// index; a mark whose index no longer resolves to a target is dropped.
pub fn pending_introductions(pending: &Vec<u16>, targets: &Vec<Option<([u8; 8], u32)>>) -> (r: Vec<
    Mapping,
>)
    requires
        pending@.len() == targets@.len(),
    ensures
        r@ == sort_mappings_by_idx(resolved_intros(pending@, targets@)),
{
    let mut out: Vec<Mapping> = Vec::new();
    let n = pending.len();
    let mut i = 0usize;
    while i < n
        invariant
            n == pending@.len(),
            n == targets@.len(),
            i <= n,
            out@ == sort_mappings_by_idx(resolved_intros(pending@.take(i as int), targets@.take(i as int))),
            mappings_idx_sorted(out@),
        decreases n - i,
    {
        proof {
            let p1 = pending@.take(i as int + 1);
            let t1 = targets@.take(i as int + 1);
            assert(p1.drop_last() =~= pending@.take(i as int));
            assert(t1.take(i as int) =~= targets@.take(i as int));
            assert(p1[i as int] == pending@[i as int]);
            assert(t1[i as int] == targets@[i as int]);
        }
        match targets[i] {
            Some((id, version)) => {
                let m = Mapping { abs_idx: pending[i], target_id: id, version };
                proof {
                    let rest = resolved_intros(pending@.take(i as int), targets@.take(i as int));
                    assert(rest.push(m).drop_last() =~= rest);
                }
                insert_mapping_by_idx(&mut out, m);
            },
            None => {},
        }
        i += 1;
    }
    proof {
        assert(pending@.take(n as int) =~= pending@);
        assert(targets@.take(n as int) =~= targets@);
    }
    out
}


/// The mappings that introduce the candidates of `space` in `sphere`, in
/// the candidates' order.
pub fn introductions_for(candidates: &Vec<IntroCandidate>, space: Space, sphere: Sphere) -> (r: Vec<Mapping>)
    ensures
        r@ == introduced(candidates@, space, sphere),
{
    let mut out: Vec<Mapping> = Vec::new();
    let n = candidates.len();
    let mut i = 0usize;
    while i < n
        invariant
            n == candidates@.len(),
            i <= n,
            out@ == introduced(candidates@.take(i as int), space, sphere),
        decreases n - i,
    {
        let c = candidates[i];
        proof {
            let next = candidates@.take(i as int + 1);
            assert(next.drop_last() =~= candidates@.take(i as int));
            assert(next.last() == c);
        }
        if should_introduce(space, c.is_gateway, sphere) {
            out.push(Mapping { abs_idx: c.abs_idx, target_id: c.target_id, version: c.version });
        }
        i += 1;
    }
    proof {
        assert(candidates@.take(n as int) =~= candidates@);
    }
    out
}

/// The ROUTING_UPDATE a relay tick sends to the neighbour with node id
/// `neighbour_id` over a transport of `sphere`: the pending introductions
/// the membrane lets through, and the queued entries that go to it, as
/// sent and sorted by index. Nothing is sent where all four sections are
/// empty.
pub fn relay_update_for(
    user_intros: &Vec<IntroCandidate>,
    node_intros: &Vec<IntroCandidate>,
    candidates: &Vec<RelayCandidate>,
    neighbour_id: [u8; 8],
    sphere: Sphere,
) -> (r: Option<RoutingUpdate>)
    ensures
        ({
            let um = introduced(user_intros@, Space::User, sphere);
            let nm = introduced(node_intros@, Space::Node, sphere);
            let ue = sort_by_idx(relayed_entries(candidates@, Space::User, neighbour_id, sphere));
            let ne = sort_by_idx(relayed_entries(candidates@, Space::Node, neighbour_id, sphere));
            &&& (um.len() == 0 && nm.len() == 0 && ue.len() == 0 && ne.len() == 0) <==> r is None
            &&& r matches Some(u) ==> {
                &&& u.user_mappings@ == um
                &&& u.node_mappings@ == nm
                &&& u.user_entries@ == ue
                &&& u.node_entries@ == ne
            }
        }),
{
    let user_mappings = introductions_for(user_intros, Space::User, sphere);
    let node_mappings = introductions_for(node_intros, Space::Node, sphere);
    let user_entries = relay_entries_for(candidates, Space::User, neighbour_id, sphere);
    let node_entries = relay_entries_for(candidates, Space::Node, neighbour_id, sphere);
    if user_mappings.len() == 0 && node_mappings.len() == 0 && user_entries.len() == 0 && node_entries.len() == 0 {
        return None;
    }
    Some(RoutingUpdate { user_mappings, node_mappings, user_entries, node_entries })
}

/// The frames `r` of a run of INDEX_DUMPs: each dump's frame, in order,
/// up to the first whose body is longer than a header can announce.
pub open spec fn dump_frames_outcome(dumps: Seq<IndexDump>, r: Seq<Vec<u8>>) -> bool {
    &&& r.len() <= dumps.len()
    &&& forall|k: int|
        #![trigger r[k]]
        0 <= k < r.len() ==> r[k]@ == frame_bytes(RoutingMessage::IndexDump, dumps[k]@.spec_bytes())
    &&& r.len() < dumps.len() ==> dumps[r.len() as int]@.spec_bytes().len() > 0xffff
    &&& forall|k: int| 0 <= k < r.len() ==> (#[trigger] dumps[k])@.spec_bytes().len() <= 0xffff
}

/// The frames of a run of INDEX_DUMPs, in order, up to the first whose
/// body is longer than a header can announce.
pub fn index_dump_frames(dumps: &Vec<IndexDump>) -> (r: Vec<Vec<u8>>)
    ensures
        dump_frames_outcome(dumps@, r@),
{
    let mut out: Vec<Vec<u8>> = Vec::new();
    let n = dumps.len();
    let mut i = 0usize;
    while i < n
        invariant
            n == dumps@.len(),
            i <= n,
            out@.len() == i,
            forall|k: int|
                #![trigger out@[k]]
                0 <= k < i ==> out@[k]@ == frame_bytes(RoutingMessage::IndexDump, dumps@[k]@.spec_bytes()),
            forall|k: int| 0 <= k < i ==> (#[trigger] dumps@[k])@.spec_bytes().len() <= 0xffff,
        decreases n - i,
    {
        let mut body: Vec<u8> = Vec::new();
        let _ = dumps[i].encode(&mut body);
        proof {
            assert(body@ =~= dumps@[i as int]@.spec_bytes());
        }
        match encode_frame(RoutingMessage::IndexDump, body.as_slice()) {
            None => {
                return out;
            },
            Some(f) => {
                out.push(f);
            },
        }
        i += 1;
    }
    out
}

/// The indexes of the introductions that reached no neighbour, which are
/// marked for introduction again.
pub fn unsent_introductions(intros: &Vec<Mapping>, sent: &Vec<u16>) -> (r: Vec<u16>)
    ensures
        forall|x: u16| #[trigger] r@.contains(x) <==> (exists|i: int|
            0 <= i < intros@.len() && intros@[i].abs_idx == x) && !sent@.contains(x),
{
    let mut out: Vec<u16> = Vec::new();
    let n = intros.len();
    let mut i = 0usize;
    while i < n
        invariant
            n == intros@.len(),
            i <= n,
            forall|x: u16| #[trigger] out@.contains(x) <==> (exists|j: int|
                0 <= j < i && intros@[j].abs_idx == x) && !sent@.contains(x),
        decreases n - i,
    {
        let idx = intros[i].abs_idx;
        let mut k = 0usize;
        let mut found = false;
        while k < sent.len()
            invariant
                k <= sent@.len(),
                found == exists|j: int| 0 <= j < k && sent@[j] == idx,
            decreases sent@.len() - k,
        {
            if sent[k] == idx {
                found = true;
            }
            k += 1;
        }
        let ghost o = out@;
        if !found {
            out.push(idx);
        }
        proof {
            assert forall|x: u16| #[trigger] out@.contains(x) <==> (exists|j: int|
                0 <= j < i + 1 && intros@[j].abs_idx == x) && !sent@.contains(x) by {
                if out@.contains(x) && !o.contains(x) {
                    assert(x == idx);
                    assert(out@[o.len() as int] == idx);
                }
                if o.contains(x) {
                    let p = choose|p: int| 0 <= p < o.len() && o[p] == x;
                    assert(out@[p] == x);
                }
                if (exists|j: int| 0 <= j < i + 1 && intros@[j].abs_idx == x) && !sent@.contains(x) {
                    let j = choose|j: int| 0 <= j < i + 1 && intros@[j].abs_idx == x;
                    if j == i {
                        assert(!found);
                        assert(out@[o.len() as int] == x);
                    }
                }
            }
        }
        i += 1;
    }
    out
}

} // verus!
