//! Routing lookups: the next hop towards a user.

use vstd::prelude::*;

use crate::codec::messages::ManifestEntry;
use crate::dictionary::bound_index;
use crate::identity::Multikey;
use crate::indexes::Indexes;
use crate::keyed::{same_id, spec_id_key};
use crate::manifest::Manifest;
use crate::metric::{hop_cost, spec_hop_cost};
use crate::receive::trusted_delegation;
use crate::records::{NodeRecord, Records};
use crate::sphere::{ConnectionModule, Space};
use crate::table::{RoutingEntry, RoutingTable};

verus! {

/// A route to one of the gateways a user delegated to: the metric of our
/// entry for the gateway node, the node id of that entry's next hop where
/// the dictionary binds it, and its transport.
#[derive(Debug, Clone, Copy)]
pub struct GatewayRoute {
    pub metric: u16,
    pub next_hop_id: Option<[u8; 8]>,
    pub transport: ConnectionModule,
}

/// `i` is the first of the cheapest gateway routes.
pub open spec fn is_first_cheapest(gs: Seq<GatewayRoute>, i: int) -> bool {
    &&& 0 <= i < gs.len()
    &&& forall|j: int| 0 <= j < gs.len() ==> gs[i].metric <= (#[trigger] gs[j]).metric
    &&& forall|j: int| 0 <= j < i ==> (#[trigger] gs[j]).metric > gs[i].metric
}

/// The next hop towards a user: its own route where that resolves, else
/// the first of the cheapest routes to its gateways, if that one's next
/// hop resolves.
pub open spec fn spec_next_hop_for_user(
    direct: Option<([u8; 8], ConnectionModule)>,
    gateways: Seq<GatewayRoute>,
) -> Option<([u8; 8], ConnectionModule)> {
    if direct is Some {
        direct
    } else if gateways.len() == 0 {
        None
    } else {
        let i = choose|i: int| is_first_cheapest(gateways, i);
        match gateways[i].next_hop_id {
            Some(id) => Some((id, gateways[i].transport)),
            None => None,
        }
    }
}

/// Picks the next hop towards a user from its direct route (resolved to
/// the next hop's node id and transport) and the routes to its gateways.
pub fn next_hop_for_user(direct: Option<([u8; 8], ConnectionModule)>, gateways: &Vec<GatewayRoute>) -> (r:
    Option<([u8; 8], ConnectionModule)>)
    ensures
        r == spec_next_hop_for_user(direct, gateways@),
{
    if direct.is_some() {
        return direct;
    }
    let n = gateways.len();
    if n == 0 {
        return None;
    }
    let mut best = 0usize;
    let mut i = 1usize;
    while i < n
        invariant
            n == gateways@.len(),
            0 <= best < i <= n,
            forall|j: int| 0 <= j < i ==> gateways@[best as int].metric <= (#[trigger] gateways@[j]).metric,
            forall|j: int| 0 <= j < best ==> (#[trigger] gateways@[j]).metric > gateways@[best as int].metric,
        decreases n - i,
    {
        if gateways[i].metric < gateways[best].metric {
            best = i;
        }
        i += 1;
    }
    proof {
        let gs = gateways@;
        assert(is_first_cheapest(gs, best as int));
        let c = choose|i: int| is_first_cheapest(gs, i);
        if c < best {
            assert(gs[c].metric > gs[best as int].metric);
        } else if c > best {
            assert(gs[best as int].metric > gs[c].metric);
        }
        assert(c == best);
    }
    match gateways[best].next_hop_id {
        Some(id) => Some((id, gateways[best].transport)),
        None => None,
    }
}


/// `i` is the first of the transports with the lowest hop cost.
pub open spec fn is_first_cheapest_transport(ts: Seq<ConnectionModule>, i: int) -> bool {
    &&& 0 <= i < ts.len()
    &&& forall|j: int|
        0 <= j < ts.len() ==> spec_hop_cost(ts[i], None) <= spec_hop_cost(#[trigger] ts[j], None)
    &&& forall|j: int| 0 <= j < i ==> spec_hop_cost(#[trigger] ts[j], None) > spec_hop_cost(ts[i], None)
}

/// The transport a neighbour is best reached over: the first of its
/// transports with the lowest hop cost; none when it has none.
pub fn cheapest_transport(transports: &Vec<ConnectionModule>) -> (r: Option<ConnectionModule>)
    ensures
        transports@.len() == 0 <==> r is None,
        forall|i: int|
            #[trigger] is_first_cheapest_transport(transports@, i) ==> r == Some(transports@[i]),
        transports@.len() > 0 ==> exists|i: int| is_first_cheapest_transport(transports@, i),
{
    let n = transports.len();
    if n == 0 {
        return None;
    }
    let mut best = 0usize;
    let mut best_cost = hop_cost(transports[0], None);
    let mut i = 1usize;
    while i < n
        invariant
            n == transports@.len(),
            0 <= best < i <= n,
            best_cost == spec_hop_cost(transports@[best as int], None),
            forall|j: int|
                0 <= j < i ==> best_cost <= spec_hop_cost(#[trigger] transports@[j], None),
            forall|j: int| 0 <= j < best ==> spec_hop_cost(#[trigger] transports@[j], None) > best_cost,
        decreases n - i,
    {
        let c = hop_cost(transports[i], None);
        if c < best_cost {
            best = i;
            best_cost = c;
        }
        i += 1;
    }
    proof {
        let ts = transports@;
        assert(is_first_cheapest_transport(ts, best as int));
        assert forall|k: int| #[trigger] is_first_cheapest_transport(ts, k) implies k == best by {
            if k < best {
                assert(spec_hop_cost(ts[k], None) > best_cost);
            } else if k > best {
                assert(spec_hop_cost(ts[best as int], None) > spec_hop_cost(ts[k], None));
            }
        }
    }
    Some(transports[best])
}


/// Where a message for a recipient goes next.
#[derive(Debug, Clone, Copy)]
pub enum ForwardingDecision {
    /// to the neighbour with this node id, over this transport
    Forward { next_hop_node: [u8; 8], transport: ConnectionModule },
    /// no usable route: the message is handed to delay-tolerant delivery
    HandoffToDtn,
}

/// The node of a next hop.
pub open spec fn hop_node(h: Option<([u8; 8], ConnectionModule)>) -> [u8; 8] {
    match h {
        Some((n, _)) => n,
        None => [0u8, 0u8, 0u8, 0u8, 0u8, 0u8, 0u8, 0u8],
    }
}

/// The transport of a next hop.
pub open spec fn hop_transport(h: Option<([u8; 8], ConnectionModule)>) -> ConnectionModule {
    match h {
        Some((_, t)) => t,
        None => ConnectionModule::NoModule,
    }
}

/// The decision for a recipient whose routing id is `recipient_id` (none
/// when its peer id embeds no key), where `user_hop` is the next hop
/// towards it, `gateway_routes` the routes to the gateway nodes, and
/// `neighbours` the node ids of the current neighbours.
pub open spec fn spec_resolve_forwarding(
    recipient_id: Option<[u8; 8]>,
    user_hop: Option<([u8; 8], ConnectionModule)>,
    host_is_gateway: bool,
    gateway_routes: Seq<GatewayRoute>,
    neighbours: Seq<[u8; 8]>,
) -> ForwardingDecision {
    if recipient_id is None {
        ForwardingDecision::HandoffToDtn
    } else if user_hop is Some && neighbours.contains(hop_node(user_hop)) {
        ForwardingDecision::Forward {
            next_hop_node: hop_node(user_hop),
            transport: hop_transport(user_hop),
        }
    } else if host_is_gateway {
        ForwardingDecision::HandoffToDtn
    } else {
        match spec_next_hop_for_user(None, gateway_routes) {
            Some((n, t)) => if neighbours.contains(n) {
                ForwardingDecision::Forward { next_hop_node: n, transport: t }
            } else {
                ForwardingDecision::HandoffToDtn
            },
            None => ForwardingDecision::HandoffToDtn,
        }
    }
}

/// Whether `id` is among `ids`.
fn is_neighbour(ids: &Vec<[u8; 8]>, id: &[u8; 8]) -> (r: bool)
    ensures
        r == ids@.contains(*id),
{
    let mut i = 0usize;
    while i < ids.len()
        invariant
            i <= ids@.len(),
            forall|j: int| 0 <= j < i ==> ids@[j] != *id,
        decreases ids@.len() - i,
    {
        if same_id(&ids[i], id) {
            return true;
        }
        i += 1;
    }
    false
}

/// Resolves where a message for a recipient goes next: along its own
/// route while that next hop is a neighbour; else nowhere from a gateway,
/// which holds the whole directory; else towards the nearest gateway.
pub fn resolve_forwarding(
    recipient_id: Option<[u8; 8]>,
    user_hop: Option<([u8; 8], ConnectionModule)>,
    host_is_gateway: bool,
    gateway_routes: &Vec<GatewayRoute>,
    neighbours: &Vec<[u8; 8]>,
) -> (d: ForwardingDecision)
    ensures
        d == spec_resolve_forwarding(recipient_id, user_hop, host_is_gateway, gateway_routes@, neighbours@),
{
    if recipient_id.is_none() {
        return ForwardingDecision::HandoffToDtn;
    }
    if let Some((n, t)) = user_hop {
        if is_neighbour(neighbours, &n) {
            return ForwardingDecision::Forward { next_hop_node: n, transport: t };
        }
    }
    if host_is_gateway {
        return ForwardingDecision::HandoffToDtn;
    }
    match next_hop_for_user(None, gateway_routes) {
        Some((n, t)) => if is_neighbour(neighbours, &n) {
            ForwardingDecision::Forward { next_hop_node: n, transport: t }
        } else {
            ForwardingDecision::HandoffToDtn
        },
        None => ForwardingDecision::HandoffToDtn,
    }
}


/// A recipient's own route is followed first: whenever the recipient has
/// an id and its next hop is a current neighbour, the message goes to that
/// neighbour over that route's transport, whether or not this node is a
/// gateway and whatever routes to gateways there are.
pub proof fn lemma_own_route_followed_first(
    recipient: [u8; 8],
    next_hop: [u8; 8],
    transport: ConnectionModule,
    host_is_gateway: bool,
    gateway_routes: Seq<GatewayRoute>,
    neighbours: Seq<[u8; 8]>,
)
    requires
        neighbours.contains(next_hop),
    ensures
        spec_resolve_forwarding(Some(recipient), Some((next_hop, transport)), host_is_gateway, gateway_routes, neighbours)
            == (ForwardingDecision::Forward { next_hop_node: next_hop, transport }),
{
}

/// A message is only ever forwarded to a current neighbour; a recipient
/// without an id goes to delay-tolerant delivery; and a gateway forwards
/// only along the recipient's own route.
pub proof fn lemma_forwarding_stays_with_neighbours(
    recipient_id: Option<[u8; 8]>,
    user_hop: Option<([u8; 8], ConnectionModule)>,
    host_is_gateway: bool,
    gateway_routes: Seq<GatewayRoute>,
    neighbours: Seq<[u8; 8]>,
)
    ensures
        ({
            let d = spec_resolve_forwarding(recipient_id, user_hop, host_is_gateway, gateway_routes, neighbours);
            &&& d matches ForwardingDecision::Forward { next_hop_node, .. } ==> neighbours.contains(next_hop_node)
            &&& recipient_id is None ==> d == ForwardingDecision::HandoffToDtn
            &&& (host_is_gateway && d is Forward) ==> (user_hop matches Some((n, t)) && d == (
            ForwardingDecision::Forward { next_hop_node: n, transport: t }))
        }),
{
}

// ---------- the next hop towards a user, from the router's state ----------

/// The node id the dictionary binds at `idx`, if any.
pub open spec fn dict_id(m: Map<u16, [u8; 8]>, idx: u16) -> Option<[u8; 8]> {
    if m.dom().contains(idx) {
        Some(m[idx])
    } else {
        None
    }
}

/// The user's own route: the table's entry at the user's index, where its
/// next hop resolves through the node dictionary.
pub open spec fn direct_hop(indexes: Indexes, table: RoutingTable<RoutingEntry>, user: [u8; 8]) -> Option<
    ([u8; 8], ConnectionModule),
> {
    match bound_index(indexes.user_dict.spec_forward(), user) {
        None => None,
        Some(i) => match table.slots(Space::User)[i as int] {
            None => None,
            Some(e) => match dict_id(indexes.node_dict.spec_forward(), e.next_hop) {
                None => None,
                Some(id) => Some((id, e.transport)),
            },
        },
    }
}

/// A node is a live gateway of `user` where its committed manifest holds a
/// delegation of the user that has not expired and verifies under the
/// node's and the user's keys.
pub open spec fn live_gateway_of(n: NodeRecord, user: [u8; 8], user_key: Option<Multikey>, now_ms: u64) -> bool {
    n.public_key matches Some(hmk) && exists|j: int|
        0 <= j < n.delegated@.len() && (#[trigger] n.delegated@[j]).user_id == user && trusted_delegation(
            n.delegated@[j],
            user_key,
            hmk,
            now_ms,
        )
}

/// The routes to the live gateways among `ids`, in their order: for each
/// whose node index holds an entry in the table, that entry's metric, its
/// next hop resolved through the node dictionary, and its transport.
pub open spec fn gateway_routes(
    records: Records,
    indexes: Indexes,
    table: RoutingTable<RoutingEntry>,
    user: [u8; 8],
    user_key: Option<Multikey>,
    now_ms: u64,
    ids: Seq<[u8; 8]>,
) -> Seq<GatewayRoute>
    decreases ids.len(),
{
    if ids.len() == 0 {
        seq![]
    } else {
        let rest = gateway_routes(records, indexes, table, user, user_key, now_ms, ids.drop_last());
        let g = ids.last();
        let k = spec_id_key(g);
        if records.nodes@.dom().contains(k) && live_gateway_of(records.nodes@[k].1, user, user_key, now_ms) {
            match bound_index(indexes.node_dict.spec_forward(), g) {
                None => rest,
                Some(i) => match table.slots(Space::Node)[i as int] {
                    None => rest,
                    Some(e) => rest.push(
                        GatewayRoute {
                            metric: e.metric,
                            next_hop_id: dict_id(indexes.node_dict.spec_forward(), e.next_hop),
                            transport: e.transport,
                        },
                    ),
                },
            }
        } else {
            rest
        }
    }
}

/// `ids` names every node record once.
pub open spec fn lists_node_ids(records: Records, ids: Seq<[u8; 8]>) -> bool {
    &&& ids.no_duplicates()
    &&& forall|i: int| 0 <= i < ids.len() ==> records.nodes@.dom().contains(spec_id_key(#[trigger] ids[i]))
    &&& forall|k: u64| #[trigger] records.nodes@.dom().contains(k) ==> exists|i: int|
        0 <= i < ids.len() && spec_id_key(#[trigger] ids[i]) == k
}

/// Whether node `n` is a live gateway of the user.
fn is_live_gateway(n: &NodeRecord, user: &[u8; 8], user_key: &Option<Multikey>, now_ms: u64) -> (r: bool)
    ensures
        r == live_gateway_of(*n, *user, *user_key, now_ms),
{
    let hmk = match &n.public_key {
        Some(h) => h,
        None => {
            return false;
        },
    };
    let umk = match user_key {
        Some(u) => u,
        None => {
            proof {
                assert(!live_gateway_of(*n, *user, *user_key, now_ms));
            }
            return false;
        },
    };
    let m = n.delegated.len();
    let mut j = 0usize;
    while j < m
        invariant
            m == n.delegated@.len(),
            j <= m,
            n.public_key == Some(*hmk),
            *user_key == Some(*umk),
            forall|x: int|
                0 <= x < j ==> !((#[trigger] n.delegated@[x]).user_id == *user && trusted_delegation(
                    n.delegated@[x],
                    *user_key,
                    *hmk,
                    now_ms,
                )),
        decreases m - j,
    {
        let e: ManifestEntry = n.delegated[j];
        if same_id(&e.user_id, user) && e.timeout > now_ms {
            if Manifest::verify_entry(&e, hmk, umk).is_ok() {
                assert(n.delegated@[j as int].user_id == *user);
                return true;
            }
        }
        j += 1;
    }
    false
}

/// The next hop towards `recipient`: none where this node keeps no record
/// of the user; else the user's own route where its next hop resolves,
/// else the first of the cheapest routes to the user's live gateways (the
/// node records are walked in the order `ids` lists them) where that
/// route's next hop resolves.
pub fn route_to_user(
    records: &Records,
    indexes: &Indexes,
    table: &RoutingTable<RoutingEntry>,
    recipient: [u8; 8],
    now_ms: u64,
) -> (r: Option<([u8; 8], ConnectionModule)>)
    requires
        records.wf(),
        indexes.wf(),
        table.wf(),
    ensures
        !records.users@.dom().contains(spec_id_key(recipient)) ==> r is None,
        records.users@.dom().contains(spec_id_key(recipient)) ==> exists|ids: Seq<[u8; 8]>|
            #[trigger] lists_node_ids(*records, ids) && r == spec_next_hop_for_user(
                direct_hop(*indexes, *table, recipient),
                gateway_routes(
                    *records,
                    *indexes,
                    *table,
                    recipient,
                    records.users@[spec_id_key(recipient)].1.public_key,
                    now_ms,
                    ids,
                ),
            ),
{
    let user = match records.users.get(&recipient) {
        Some(u) => u,
        None => {
            return None;
        },
    };
    let ghost ukey = user.public_key;
    let direct = match indexes.user_dict.idx_of(&recipient) {
        None => None,
        Some(i) => match table.get(Space::User, i) {
            None => None,
            Some(e) => match indexes.node_dict.id_of(e.next_hop) {
                None => None,
                Some(id) => Some((id, e.transport)),
            },
        },
    };
    let ids = records.nodes.ids();
    let mut routes: Vec<GatewayRoute> = Vec::new();
    let n = ids.len();
    let mut i = 0usize;
    while i < n
        invariant
            n == ids@.len(),
            i <= n,
            records.wf(),
            indexes.wf(),
            table.wf(),
            ukey == user.public_key,
            forall|x: int| 0 <= x < ids@.len() ==> records.nodes@.dom().contains(spec_id_key(#[trigger] ids@[x])),
            routes@ == gateway_routes(*records, *indexes, *table, recipient, ukey, now_ms, ids@.take(i as int)),
        decreases n - i,
    {
        let g = ids[i];
        proof {
            let t = ids@.take(i as int + 1);
            assert(t.drop_last() =~= ids@.take(i as int));
            assert(t.last() == g);
        }
        let node = records.nodes.get(&g).unwrap();
        if is_live_gateway(node, &recipient, &user.public_key, now_ms) {
            match indexes.node_dict.idx_of(&g) {
                None => {},
                Some(ni) => match table.get(Space::Node, ni) {
                    None => {},
                    Some(e) => {
                        let next = indexes.node_dict.id_of(e.next_hop);
                        routes.push(GatewayRoute { metric: e.metric, next_hop_id: next, transport: e.transport });
                    },
                },
            }
        }
        i += 1;
    }
    proof {
        assert(ids@.take(n as int) =~= ids@);
        assert(lists_node_ids(*records, ids@));
    }
    next_hop_for_user(direct, &routes)
}

} // verus!
