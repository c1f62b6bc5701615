//! The records of cross-host delegation kept by the issuing side.

use vstd::prelude::*;

use crate::identity::{Multikey, SelfDelegation};
use crate::keyed::same_id;

verus! {

/// A cross-host delegation a gateway has accepted for one of our users.
#[derive(Debug, Clone, Copy)]
pub struct Subscription {
    pub target_node_id: [u8; 8],
    /// absolute expiry, milliseconds since Unix epoch
    pub timeout: u64,
    pub acked_at_ms: u64,
}

/// A user asking a gateway to carry it.
#[derive(Debug, Clone, Copy)]
pub struct DelegationRequest {
    pub user_id: [u8; 8],
    pub target_node_id: [u8; 8],
    pub delegation: SelfDelegation,
}

/// A delegation request that went out and waits for its ack.
#[derive(Debug, Clone, Copy)]
pub struct OutstandingSubscribe {
    pub request: DelegationRequest,
    pub sent_at_ms: u64,
}


/// The route the table holds to a node: its metric, and whether it was
/// only ever propagated within the Local sphere.
#[derive(Debug, Clone, Copy)]
pub struct NodeRoute {
    pub metric: u16,
    pub local_only: bool,
}

/// What the table knows of a node when choosing a gateway: whether it
/// announced itself a gateway, its key if known, and its route if any.
#[derive(Debug, Clone)]
pub struct GatewayRecord {
    pub node_id: [u8; 8],
    pub is_gateway: bool,
    pub multikey: Option<Multikey>,
    pub route: Option<NodeRoute>,
}

/// A node that a user may delegate to.
#[derive(Debug, Clone)]
pub struct GatewayCandidate {
    pub node_id: [u8; 8],
    pub multikey: Option<Multikey>,
    pub metric: u16,
}

/// A node qualifies as a delegation target when it is a gateway (else its
/// manifest never reaches the Internet sphere) and is reachable within
/// the Local sphere.
pub open spec fn qualifies(r: GatewayRecord) -> bool {
    &&& r.is_gateway
    &&& r.route matches Some(rt) && rt.local_only
}

/// The metric of a node's route; zero where it has none.
pub open spec fn route_metric(r: GatewayRecord) -> u16 {
    match r.route {
        Some(rt) => rt.metric,
        None => 0,
    }
}

/// The candidate a qualifying node makes.
pub open spec fn spec_candidate(r: GatewayRecord) -> GatewayCandidate {
    GatewayCandidate { node_id: r.node_id, multikey: r.multikey, metric: route_metric(r) }
}

/// The node as a delegation candidate, if it qualifies.
pub fn candidate_for(r: GatewayRecord) -> (c: Option<GatewayCandidate>)
    ensures
        c is Some <==> qualifies(r),
        c matches Some(x) ==> x == spec_candidate(r),
{
    if !r.is_gateway {
        return None;
    }
    match r.route {
        Some(rt) => if rt.local_only {
            Some(GatewayCandidate { node_id: r.node_id, multikey: r.multikey, metric: rt.metric })
        } else {
            None
        },
        None => None,
    }
}

/// Whether a subscription expiring at `timeout` is due to be re-issued:
/// it expires within the refresh window of `refresh_secs` seconds.
pub open spec fn spec_due_for_refresh(timeout: u64, now_ms: u64, refresh_secs: u64) -> bool {
    let window = if refresh_secs * 1000 > u64::MAX { u64::MAX as int } else { refresh_secs * 1000 };
    let horizon = if now_ms + window > u64::MAX { u64::MAX as int } else { now_ms + window };
    timeout <= horizon
}

/// Whether a subscription expiring at `timeout` is due to be re-issued.
pub fn subscription_due_for_refresh(timeout: u64, now_ms: u64, refresh_secs: u64) -> (r: bool)
    ensures
        r == spec_due_for_refresh(timeout, now_ms, refresh_secs),
{
    let window: u64 = if refresh_secs > u64::MAX / 1000 {
        u64::MAX
    } else {
        refresh_secs * 1000
    };
    timeout <= now_ms.saturating_add(window)
}

/// Whether a user holds a subscription that has not expired.
pub fn has_live_subscription(subscription: Option<Subscription>, now_ms: u64) -> (r: bool)
    ensures
        r == (subscription matches Some(s) && s.timeout > now_ms),
{
    match subscription {
        Some(s) => s.timeout > now_ms,
        None => false,
    }
}

/// Whether `id` is among `ids`.
fn contains_id(ids: &Vec<[u8; 8]>, id: &[u8; 8]) -> (r: bool)
    ensures
        r == ids@.contains(*id),
{
    let mut i = 0usize;
    while i < ids.len()
        invariant
            i <= ids@.len(),
            forall|j: int| 0 <= j < i ==> ids@[j] != *id,
        decreases ids@.len() - i,
    {
        if same_id(&ids[i], id) {
            return true;
        }
        i += 1;
    }
    false
}

/// A node still open to a user: it qualifies and has not refused the user.
pub open spec fn open_for(r: GatewayRecord, declined: Seq<[u8; 8]>) -> bool {
    qualifies(r) && !declined.contains(r.node_id)
}

/// `b` is the best open node: none open has a lower metric, and none open
/// before it has the same.
pub open spec fn is_best(rs: Seq<GatewayRecord>, declined: Seq<[u8; 8]>, b: int) -> bool {
    &&& 0 <= b < rs.len()
    &&& open_for(rs[b], declined)
    &&& forall|j: int|
        0 <= j < rs.len() && open_for(#[trigger] rs[j], declined) ==> route_metric(rs[b]) <= route_metric(rs[j])
    &&& forall|j: int|
        0 <= j < b && open_for(#[trigger] rs[j], declined) ==> route_metric(rs[b]) < route_metric(rs[j])
}

/// `i` is the first record of node `id`.
pub open spec fn first_of(rs: Seq<GatewayRecord>, id: [u8; 8], i: int) -> bool {
    &&& 0 <= i < rs.len()
    &&& rs[i].node_id == id
    &&& forall|j: int| 0 <= j < i ==> (#[trigger] rs[j]).node_id != id
}

/// What a user does next about its delegation.
#[derive(Debug)]
pub enum Selection {
    /// nothing now
    Wait,
    /// the best gateway's key is unknown: fetch its profile first
    FetchKey([u8; 8]),
    /// subscribe to this gateway
    Subscribe(GatewayCandidate),
}

/// Whether the choice falls through to the best open node: no subscribe
/// is outstanding, and the user holds no subscription, or one that is due
/// for refresh whose gateway refused it or has stopped qualifying.
pub open spec fn falls_through(
    has_outstanding: bool,
    declined: Seq<[u8; 8]>,
    current: Option<Subscription>,
    refresh_secs: u64,
    rs: Seq<GatewayRecord>,
    now_ms: u64,
) -> bool {
    &&& !has_outstanding
    &&& match current {
        None => true,
        Some(s) => spec_due_for_refresh(s.timeout, now_ms, refresh_secs) && (declined.contains(
            s.target_node_id,
        ) || forall|i: int| first_of(rs, s.target_node_id, i) ==> !qualifies(#[trigger] rs[i])),
    }
}

/// Chooses the gateway a user subscribes to next. Nothing while a
/// subscribe is outstanding or the current subscription is not yet due
/// for refresh; a due subscription is re-issued to the same gateway while
/// it qualifies and has not refused; else the open node with the lowest
/// metric (the first such), whose key must be known.
pub fn select_delegation_target(
    has_outstanding: bool,
    declined: &Vec<[u8; 8]>,
    current: Option<Subscription>,
    refresh_secs: u64,
    records: Vec<GatewayRecord>,
    now_ms: u64,
) -> (r: Selection)
    ensures
        has_outstanding ==> r is Wait,
        !has_outstanding ==> match current {
            Some(s) => !spec_due_for_refresh(s.timeout, now_ms, refresh_secs) ==> r is Wait,
            None => true,
        },
        !has_outstanding ==> match current {
            Some(s) => forall|i: int|
                (spec_due_for_refresh(s.timeout, now_ms, refresh_secs) && !declined@.contains(
                    s.target_node_id,
                ) && first_of(records@, s.target_node_id, i) && qualifies(#[trigger] records@[i]))
                    ==> r == Selection::Subscribe(spec_candidate(records@[i])),
            None => true,
        },
        falls_through(has_outstanding, declined@, current, refresh_secs, records@, now_ms) ==> {
            &&& (forall|j: int| 0 <= j < records@.len() ==> !open_for(#[trigger] records@[j], declined@))
                ==> r is Wait
            &&& (exists|j: int| 0 <= j < records@.len() && open_for(#[trigger] records@[j], declined@))
                ==> exists|b: int| is_best(records@, declined@, b)
            &&& forall|b: int|
                #[trigger] is_best(records@, declined@, b) ==> {
                    &&& records@[b].multikey is None ==> r == Selection::FetchKey(records@[b].node_id)
                    &&& records@[b].multikey is Some ==> r == Selection::Subscribe(
                        spec_candidate(records@[b]),
                    )
                }
        },
{
    let ghost rs = records@;
    let mut records = records;
    if has_outstanding {
        return Selection::Wait;
    }
    if let Some(s) = current {
        if !subscription_due_for_refresh(s.timeout, now_ms, refresh_secs) {
            return Selection::Wait;
        }
        if !contains_id(declined, &s.target_node_id) {
            let n = records.len();
            let mut i = 0usize;
            while i < n && !same_id(&records[i].node_id, &s.target_node_id)
                invariant
                    records@ == rs,
                    n == rs.len(),
                    i <= n,
                    forall|j: int| 0 <= j < i ==> (#[trigger] rs[j]).node_id != s.target_node_id,
                decreases n - i,
            {
                i += 1;
            }
            if i < n {
                proof {
                    assert(first_of(rs, s.target_node_id, i as int));
                    assert forall|k: int| first_of(rs, s.target_node_id, k) implies k == i by {
                        if k < i {
                        } else if k > i {
                            assert(rs[i as int].node_id == s.target_node_id);
                        }
                    }
                }
                if qualifies_rec(&records[i]) {
                    let rec = records.remove(i);
                    return Selection::Subscribe(into_candidate(rec));
                }
            } else {
                proof {
                    assert forall|k: int| first_of(rs, s.target_node_id, k) implies !qualifies(
                        #[trigger] rs[k],
                    ) by {
                        assert(rs[k].node_id == s.target_node_id);
                    }
                }
            }
        }
    }
    let n = records.len();
    let mut best: Option<usize> = None;
    let mut i = 0usize;
    while i < n
        invariant
            records@ == rs,
            n == rs.len(),
            i <= n,
            best matches Some(b) ==> is_best(rs.take(i as int), declined@, b as int),
            best is None ==> forall|j: int| 0 <= j < i ==> !open_for(#[trigger] rs[j], declined@),
        decreases n - i,
    {
        let ghost pre = rs.take(i as int);
        let ghost post = rs.take(i as int + 1);
        proof {
            assert forall|j: int| 0 <= j < i implies #[trigger] post[j] == pre[j] && pre[j] == rs[j] by {}
            assert(post[i as int] == rs[i as int]);
        }
        if qualifies_rec(&records[i]) && !contains_id(declined, &records[i].node_id) {
            let m = rec_metric(&records[i]);
            let better = match best {
                None => true,
                Some(b) => m < rec_metric(&records[b]),
            };
            if better {
                best = Some(i);
                proof {
                    assert(is_best(post, declined@, i as int)) by {
                        assert forall|j: int| 0 <= j < post.len() && open_for(#[trigger] post[j], declined@)
                            implies route_metric(post[i as int]) <= route_metric(post[j]) by {
                            if j < i {
                                assert(post[j] == rs[j]);
                            }
                        }
                    }
                }
            } else {
                proof {
                    let b = best->0 as int;
                    assert(is_best(post, declined@, b)) by {
                        assert(post[b] == pre[b]);
                        assert forall|j: int| 0 <= j < post.len() && open_for(#[trigger] post[j], declined@)
                            implies route_metric(post[b]) <= route_metric(post[j]) by {
                            if j < i {
                                assert(post[j] == pre[j]);
                            }
                        }
                        assert forall|j: int| 0 <= j < b && open_for(#[trigger] post[j], declined@)
                            implies route_metric(post[b]) < route_metric(post[j]) by {
                            assert(post[j] == pre[j]);
                        }
                    }
                }
            }
        } else {
            proof {
                assert(!open_for(rs[i as int], declined@));
                if best is Some {
                    let b = best->0 as int;
                    assert(is_best(post, declined@, b)) by {
                        assert(post[b] == pre[b]);
                        assert forall|j: int| 0 <= j < post.len() && open_for(#[trigger] post[j], declined@)
                            implies route_metric(post[b]) <= route_metric(post[j]) by {
                            if j < i {
                                assert(post[j] == pre[j]);
                            }
                        }
                        assert forall|j: int| 0 <= j < b && open_for(#[trigger] post[j], declined@)
                            implies route_metric(post[b]) < route_metric(post[j]) by {
                            assert(post[j] == pre[j]);
                        }
                    }
                }
            }
        }
        i += 1;
    }
    proof {
        assert(rs.take(n as int) =~= rs);
        lemma_best_unique(rs, declined@);
    }
    match best {
        None => Selection::Wait,
        Some(b) => {
            if records[b].multikey.is_none() {
                Selection::FetchKey(records[b].node_id)
            } else {
                let rec = records.remove(b);
                Selection::Subscribe(into_candidate(rec))
            }
        },
    }
}

/// There is at most one best node.
proof fn lemma_best_unique(rs: Seq<GatewayRecord>, declined: Seq<[u8; 8]>)
    ensures
        forall|a: int, b: int| is_best(rs, declined, a) && is_best(rs, declined, b) ==> a == b,
{
    assert forall|a: int, b: int| is_best(rs, declined, a) && is_best(rs, declined, b) implies a == b by {
        if a < b {
            assert(open_for(rs[a], declined));
        } else if b < a {
            assert(open_for(rs[b], declined));
        }
    }
}

/// Whether the node qualifies as a delegation target.
fn qualifies_rec(r: &GatewayRecord) -> (q: bool)
    ensures
        q == qualifies(*r),
{
    r.is_gateway && match r.route {
        Some(rt) => rt.local_only,
        None => false,
    }
}

/// The metric of the node's route.
fn rec_metric(r: &GatewayRecord) -> (m: u16)
    ensures
        m == route_metric(*r),
{
    match r.route {
        Some(rt) => rt.metric,
        None => 0,
    }
}

/// The candidate a qualifying node makes.
fn into_candidate(r: GatewayRecord) -> (c: GatewayCandidate)
    ensures
        c == spec_candidate(r),
{
    let metric = rec_metric(&r);
    GatewayCandidate { node_id: r.node_id, multikey: r.multikey, metric }
}


/// What the gateway's answer to a subscribe leads to.
#[derive(Debug, Clone, Copy)]
pub enum AckOutcome {
    /// the answer matches no subscribe we sent to its source
    Discard,
    /// the gateway carries the user from now on
    Subscribed { user_id: [u8; 8], subscription: Subscription },
    /// the gateway refused: it is out of the running for the user for a while
    Declined { user_id: [u8; 8], target_node_id: [u8; 8], at_ms: u64 },
}

/// Settles the answer, from node `source`, to the outstanding subscribe
/// `pending` with the answer's request id (`None` when there is none). An
/// answer that does not come from the node the subscribe went to is
/// discarded.
pub fn subscribe_ack_outcome(
    pending: Option<OutstandingSubscribe>,
    source: [u8; 8],
    source_is_node: bool,
    accepted: bool,
    now_ms: u64,
) -> (r: AckOutcome)
    ensures
        match pending {
            None => r is Discard,
            Some(o) => if !source_is_node || source != o.request.target_node_id {
                r is Discard
            } else if accepted {
                r == AckOutcome::Subscribed {
                    user_id: o.request.user_id,
                    subscription: Subscription {
                        target_node_id: o.request.target_node_id,
                        timeout: o.request.delegation.timeout,
                        acked_at_ms: now_ms,
                    },
                }
            } else {
                r == AckOutcome::Declined {
                    user_id: o.request.user_id,
                    target_node_id: o.request.target_node_id,
                    at_ms: now_ms,
                }
            },
        },
{
    let o = match pending {
        None => {
            return AckOutcome::Discard;
        },
        Some(o) => o,
    };
    if !source_is_node || !same_id(&source, &o.request.target_node_id) {
        return AckOutcome::Discard;
    }
    if accepted {
        AckOutcome::Subscribed {
            user_id: o.request.user_id,
            subscription: Subscription {
                target_node_id: o.request.target_node_id,
                timeout: o.request.delegation.timeout,
                acked_at_ms: now_ms,
            },
        }
    } else {
        AckOutcome::Declined {
            user_id: o.request.user_id,
            target_node_id: o.request.target_node_id,
            at_ms: now_ms,
        }
    }
}

/// How long a refusal keeps a gateway out of the running, in
/// milliseconds.
pub const DECLINE_MEMORY_MS: u64 = 300_000;

/// `at + span`, or `u64::MAX` where that overflows.
pub open spec fn sat_add(at: u64, span: u64) -> int {
    if at + span > u64::MAX { u64::MAX as int } else { at + span }
}

/// Whether a subscribe sent at `sent_at_ms` still waits for its answer
/// when answers are awaited `timeout_secs` seconds.
pub fn subscribe_live(sent_at_ms: u64, now_ms: u64, timeout_secs: u64) -> (r: bool)
    ensures
        r == (now_ms < sat_add(sent_at_ms, if timeout_secs * 1000 > u64::MAX {
            u64::MAX
        } else {
            (timeout_secs * 1000) as u64
        })),
{
    let window: u64 = if timeout_secs > u64::MAX / 1000 {
        u64::MAX
    } else {
        timeout_secs * 1000
    };
    now_ms < sent_at_ms.saturating_add(window)
}

/// Whether a refusal recorded at `at_ms` is still remembered.
pub fn decline_remembered(at_ms: u64, now_ms: u64) -> (r: bool)
    ensures
        r == (now_ms < sat_add(at_ms, DECLINE_MEMORY_MS)),
{
    now_ms < at_ms.saturating_add(DECLINE_MEMORY_MS)
}


/// The candidates the qualifying records make, in the records' order.
pub open spec fn candidates_of(rs: Seq<GatewayRecord>) -> Seq<GatewayCandidate>
    decreases rs.len(),
{
    if rs.len() == 0 {
        seq![]
    } else {
        let rest = candidates_of(rs.drop_last());
        if qualifies(rs.last()) {
            rest.push(spec_candidate(rs.last()))
        } else {
            rest
        }
    }
}

/// `x` placed after every candidate whose metric is at most its own.
pub open spec fn metric_sorted_insert(s: Seq<GatewayCandidate>, x: GatewayCandidate) -> Seq<
    GatewayCandidate,
>
    decreases s.len(),
{
    if s.len() == 0 {
        seq![x]
    } else if s.last().metric <= x.metric {
        s.push(x)
    } else {
        metric_sorted_insert(s.drop_last(), x).push(s.last())
    }
}

/// The candidates sorted by metric, equal metrics in their given order.
pub open spec fn sort_by_metric(s: Seq<GatewayCandidate>) -> Seq<GatewayCandidate>
    decreases s.len(),
{
    if s.len() == 0 {
        seq![]
    } else {
        metric_sorted_insert(sort_by_metric(s.drop_last()), s.last())
    }
}

pub open spec fn metric_sorted(s: Seq<GatewayCandidate>) -> bool {
    forall|i: int, j: int| 0 <= i < j < s.len() ==> (#[trigger] s[i]).metric <= (#[trigger] s[j]).metric
}

#[verifier::spinoff_prover]
#[verifier::rlimit(40)]
proof fn lemma_metric_insert_at(s: Seq<GatewayCandidate>, x: GatewayCandidate, p: int)
    requires
        metric_sorted(s),
        0 <= p <= s.len(),
        p > 0 ==> s[p - 1].metric <= x.metric,
        forall|j: int| p <= j < s.len() ==> x.metric < (#[trigger] s[j]).metric,
    ensures
        metric_sorted_insert(s, x) == s.insert(p, x),
        metric_sorted(s.insert(p, x)),
    decreases s.len(),
{
    let t = s.insert(p, x);
    s.insert_ensures(p, x);
    assert forall|i: int, j: int| 0 <= i < j < t.len() implies (#[trigger] t[i]).metric <= (
    #[trigger] t[j]).metric by {
        if j < p {
        } else if j == p {
            if i < p - 1 {
                assert(s[i].metric <= s[p - 1].metric);
            }
        } else if i < p {
            assert(t[j] == s[j - 1]);
        } else if i == p {
            assert(t[j] == s[j - 1]);
        } else {
            assert(t[i] == s[i - 1]);
            assert(t[j] == s[j - 1]);
        }
    }
    if s.len() > 0 {
        if p == s.len() {
            assert(s.push(x) =~= t);
        } else {
            let d = s.drop_last();
            lemma_metric_insert_at(d, x, p);
            assert(d.insert(p, x).push(s.last()) =~= t);
        }
    } else {
        assert(seq![x] =~= t);
    }
}

/// Puts `x` into `out` where it keeps `out` sorted by metric.
fn insert_by_metric(out: &mut Vec<GatewayCandidate>, x: GatewayCandidate)
    requires
        metric_sorted(old(out)@),
    ensures
        final(out)@ == metric_sorted_insert(old(out)@, x),
        metric_sorted(final(out)@),
{
    let mut j = out.len();
    while j > 0 && out[j - 1].metric > x.metric
        invariant
            j <= out@.len(),
            forall|m: int| j <= m < out@.len() ==> x.metric < (#[trigger] out@[m]).metric,
        decreases j,
    {
        j -= 1;
    }
    proof {
        lemma_metric_insert_at(out@, x, j as int);
    }
    out.insert(j, x);
}

/// The delegation candidates among the nodes, best metric first; nodes of
/// equal metric keep their given order.
pub fn eligible_gateways(records: Vec<GatewayRecord>) -> (r: Vec<GatewayCandidate>)
    ensures
        r@ == sort_by_metric(candidates_of(records@)),
{
    let ghost rs = records@;
    let mut rest = records;
    let mut out: Vec<GatewayCandidate> = Vec::new();
    let n = rest.len();
    let mut i = 0usize;
    while i < n
        invariant
            n == rs.len(),
            i <= n,
            rest@ == rs.skip(i as int),
            out@ == sort_by_metric(candidates_of(rs.take(i as int))),
            metric_sorted(out@),
        decreases n - i,
    {
        let rec = rest.remove(0);
        proof {
            assert(rec == rs[i as int]);
            assert(rs.skip(i as int).skip(1) =~= rs.skip(i as int + 1));
            let next = rs.take(i as int + 1);
            assert(next.drop_last() =~= rs.take(i as int));
            assert(next.last() == rec);
        }
        if qualifies_rec(&rec) {
            let c = into_candidate(rec);
            proof {
                let pre = candidates_of(rs.take(i as int));
                assert(pre.push(c).drop_last() =~= pre);
            }
            insert_by_metric(&mut out, c);
        }
        i += 1;
    }
    proof {
        assert(rs.take(n as int) =~= rs);
    }
    out
}


/// A candidate that has not refused the user.
pub open spec fn not_declined(c: GatewayCandidate, declined: Seq<[u8; 8]>) -> bool {
    !declined.contains(c.node_id)
}

/// The first candidate, in order, that has not refused the user.
pub open spec fn first_not_declined(s: Seq<GatewayCandidate>, declined: Seq<[u8; 8]>) -> Option<
    GatewayCandidate,
>
    decreases s.len(),
{
    if s.len() == 0 {
        None
    } else if not_declined(s[0], declined) {
        Some(s[0])
    } else {
        first_not_declined(s.drop_first(), declined)
    }
}

/// The candidate with the lowest metric that has not refused the user,
/// the first such in order.
pub open spec fn best_not_declined(cs: Seq<GatewayCandidate>, declined: Seq<[u8; 8]>) -> Option<
    GatewayCandidate,
>
    decreases cs.len(),
{
    if cs.len() == 0 {
        None
    } else {
        let b = best_not_declined(cs.drop_last(), declined);
        let x = cs.last();
        if not_declined(x, declined) && (b is None || x.metric < b->0.metric) {
            Some(x)
        } else {
            b
        }
    }
}

proof fn lemma_first_not_declined_push(s: Seq<GatewayCandidate>, x: GatewayCandidate, declined: Seq<[u8; 8]>)
    ensures
        first_not_declined(s.push(x), declined) == (if first_not_declined(s, declined) is Some {
            first_not_declined(s, declined)
        } else if not_declined(x, declined) {
            Some(x)
        } else {
            None
        }),
    decreases s.len(),
{
    if s.len() > 0 {
        assert(s.push(x)[0] == s[0]);
        assert(s.push(x).drop_first() =~= s.drop_first().push(x));
        lemma_first_not_declined_push(s.drop_first(), x, declined);
    } else {
        assert(s.push(x)[0] == x);
        assert(s.push(x).drop_first() =~= Seq::<GatewayCandidate>::empty());
        assert(first_not_declined(Seq::<GatewayCandidate>::empty(), declined) is None);
    }
}

proof fn lemma_first_not_declined_member(s: Seq<GatewayCandidate>, declined: Seq<[u8; 8]>)
    ensures
        first_not_declined(s, declined) matches Some(c) ==> exists|i: int| 0 <= i < s.len() && s[i] == c,
    decreases s.len(),
{
    if s.len() > 0 && !not_declined(s[0], declined) {
        lemma_first_not_declined_member(s.drop_first(), declined);
        if let Some(c) = first_not_declined(s.drop_first(), declined) {
            let i = choose|i: int| 0 <= i < s.drop_first().len() && s.drop_first()[i] == c;
            assert(s[i + 1] == c);
        }
    }
}

proof fn lemma_insert_bounded(s: Seq<GatewayCandidate>, x: GatewayCandidate, m: u16)
    requires
        forall|i: int| 0 <= i < s.len() ==> (#[trigger] s[i]).metric <= m,
        x.metric <= m,
    ensures
        forall|i: int| 0 <= i < metric_sorted_insert(s, x).len() ==> (#[trigger] metric_sorted_insert(
            s,
            x,
        )[i]).metric <= m,
    decreases s.len(),
{
    if s.len() > 0 && s.last().metric > x.metric {
        lemma_insert_bounded(s.drop_last(), x, m);
    }
}

proof fn lemma_insert_keeps_sorted(s: Seq<GatewayCandidate>, x: GatewayCandidate)
    requires
        metric_sorted(s),
    ensures
        metric_sorted(metric_sorted_insert(s, x)),
    decreases s.len(),
{
    if s.len() > 0 {
        if s.last().metric <= x.metric {
        } else {
            let d = s.drop_last();
            lemma_insert_keeps_sorted(d, x);
            lemma_insert_bounded(d, x, s.last().metric);
            let t = metric_sorted_insert(d, x);
            assert forall|i: int, j: int| 0 <= i < j < t.push(s.last()).len() implies (#[trigger] t.push(
                s.last(),
            )[i]).metric <= (#[trigger] t.push(s.last())[j]).metric by {
                if j == t.len() {
                    assert(t[i].metric <= s.last().metric);
                } else {
                    assert(t.push(s.last())[i] == t[i]);
                    assert(t.push(s.last())[j] == t[j]);
                }
            }
        }
    }
}

proof fn lemma_sort_is_sorted(s: Seq<GatewayCandidate>)
    ensures
        metric_sorted(sort_by_metric(s)),
    decreases s.len(),
{
    if s.len() > 0 {
        lemma_sort_is_sorted(s.drop_last());
        lemma_insert_keeps_sorted(sort_by_metric(s.drop_last()), s.last());
    }
}

/// Inserting a candidate changes the first one not declined only where
/// the new one is not declined and strictly cheaper.
proof fn lemma_insert_first_not_declined(s: Seq<GatewayCandidate>, x: GatewayCandidate, declined: Seq<[u8; 8]>)
    requires
        metric_sorted(s),
    ensures
        first_not_declined(metric_sorted_insert(s, x), declined) == (if not_declined(x, declined) && (
        first_not_declined(s, declined) is None || x.metric < first_not_declined(s, declined)->0.metric) {
            Some(x)
        } else {
            first_not_declined(s, declined)
        }),
    decreases s.len(),
{
    if s.len() == 0 {
        assert(metric_sorted_insert(s, x) == seq![x]);
        assert(seq![x][0] == x);
        assert(seq![x].drop_first() =~= Seq::<GatewayCandidate>::empty());
        assert(first_not_declined(Seq::<GatewayCandidate>::empty(), declined) is None);
    } else {
        let d = s.drop_last();
        assert(d.push(s.last()) =~= s);
        lemma_first_not_declined_push(d, s.last(), declined);
        if s.last().metric <= x.metric {
            lemma_first_not_declined_push(s, x, declined);
            lemma_first_not_declined_member(s, declined);
        } else {
            assert(metric_sorted(d));
            lemma_insert_first_not_declined(d, x, declined);
            lemma_first_not_declined_push(metric_sorted_insert(d, x), s.last(), declined);
        }
    }
}

/// The first candidate not declined in the sorted list is the cheapest
/// one not declined, the first such in the given order.
proof fn lemma_sorted_first_is_best(cs: Seq<GatewayCandidate>, declined: Seq<[u8; 8]>)
    ensures
        first_not_declined(sort_by_metric(cs), declined) == best_not_declined(cs, declined),
    decreases cs.len(),
{
    if cs.len() > 0 {
        lemma_sorted_first_is_best(cs.drop_last(), declined);
        lemma_sort_is_sorted(cs.drop_last());
        lemma_insert_first_not_declined(sort_by_metric(cs.drop_last()), cs.last(), declined);
    }
}

/// `b` is best among the records after the last is dropped, or the last
/// is best; and where none is open, no candidate is left.
proof fn lemma_best_of_records(rs: Seq<GatewayRecord>, declined: Seq<[u8; 8]>)
    ensures
        (forall|j: int| 0 <= j < rs.len() ==> !open_for(#[trigger] rs[j], declined)) ==> best_not_declined(
            candidates_of(rs),
            declined,
        ) is None,
        forall|b: int| #[trigger] is_best(rs, declined, b) ==> best_not_declined(candidates_of(rs), declined)
            == Some(spec_candidate(rs[b])),
        (exists|j: int| 0 <= j < rs.len() && open_for(#[trigger] rs[j], declined)) ==> exists|b: int|
            is_best(rs, declined, b),
    decreases rs.len(),
{
    if rs.len() > 0 {
        let d = rs.drop_last();
        let n = rs.len() - 1;
        let last = rs.last();
        lemma_best_of_records(d, declined);
        let cd = candidates_of(d);
        assert(candidates_of(rs) == (if qualifies(last) {
            cd.push(spec_candidate(last))
        } else {
            cd
        }));
        if qualifies(last) {
            assert(cd.push(spec_candidate(last)).drop_last() =~= cd);
        }
        assert forall|j: int| 0 <= j < d.len() implies #[trigger] d[j] == rs[j] by {}
        // no record open
        if forall|j: int| 0 <= j < rs.len() ==> !open_for(#[trigger] rs[j], declined) {
            assert forall|j: int| 0 <= j < d.len() implies !open_for(#[trigger] d[j], declined) by {
                assert(!open_for(rs[j], declined));
            }
        }
        // the best of all records
        assert forall|b: int| #[trigger] is_best(rs, declined, b) implies best_not_declined(
            candidates_of(rs),
            declined,
        ) == Some(spec_candidate(rs[b])) by {
            if b == n {
                if exists|j: int| 0 <= j < d.len() && open_for(#[trigger] d[j], declined) {
                    let b2 = choose|b2: int| is_best(d, declined, b2);
                    assert(open_for(rs[b2], declined));
                    assert(route_metric(rs[b2]) > route_metric(rs[b]));
                } else {
                    assert forall|j: int| 0 <= j < d.len() implies !open_for(#[trigger] d[j], declined) by {}
                }
            } else {
                assert(is_best(d, declined, b)) by {
                    assert forall|j: int| 0 <= j < d.len() && open_for(#[trigger] d[j], declined) implies route_metric(
                        d[b],
                    ) <= route_metric(d[j]) by {
                        assert(open_for(rs[j], declined));
                    }
                    assert forall|j: int| 0 <= j < b && open_for(#[trigger] d[j], declined) implies route_metric(
                        d[b],
                    ) < route_metric(d[j]) by {
                        assert(open_for(rs[j], declined));
                    }
                }
                if open_for(last, declined) {
                    assert(route_metric(rs[b]) <= route_metric(rs[n]));
                }
            }
        }
        // some record open: a best one exists
        if exists|j: int| 0 <= j < rs.len() && open_for(#[trigger] rs[j], declined) {
            let any_d = exists|j: int| 0 <= j < d.len() && open_for(#[trigger] d[j], declined);
            if any_d {
                let b2 = choose|b2: int| is_best(d, declined, b2);
                if open_for(last, declined) && route_metric(last) < route_metric(d[b2]) {
                    assert(is_best(rs, declined, n)) by {
                        assert forall|j: int| 0 <= j < rs.len() && open_for(#[trigger] rs[j], declined) implies route_metric(
                            rs[n],
                        ) <= route_metric(rs[j]) by {
                            if j < n {
                                assert(open_for(d[j], declined));
                            }
                        }
                        assert forall|j: int| 0 <= j < n && open_for(#[trigger] rs[j], declined) implies route_metric(
                            rs[n],
                        ) < route_metric(rs[j]) by {
                            assert(open_for(d[j], declined));
                        }
                    }
                } else {
                    assert(is_best(rs, declined, b2)) by {
                        assert forall|j: int| 0 <= j < rs.len() && open_for(#[trigger] rs[j], declined) implies route_metric(
                            rs[b2],
                        ) <= route_metric(rs[j]) by {
                            if j < n {
                                assert(open_for(d[j], declined));
                            }
                        }
                        assert forall|j: int| 0 <= j < b2 && open_for(#[trigger] rs[j], declined) implies route_metric(
                            rs[b2],
                        ) < route_metric(rs[j]) by {
                            assert(open_for(d[j], declined));
                        }
                    }
                }
            } else {
                assert(open_for(last, declined)) by {
                    let j = choose|j: int| 0 <= j < rs.len() && open_for(#[trigger] rs[j], declined);
                    if j < n {
                        assert(open_for(d[j], declined));
                    }
                }
                assert(is_best(rs, declined, n)) by {
                    assert forall|j: int| 0 <= j < n && open_for(#[trigger] rs[j], declined) implies false by {
                        assert(open_for(d[j], declined));
                    }
                }
            }
        }
    }
}

/// The gateway a user falls through to is the first of the eligible
/// gateways, best metric first, that has not refused the user; where none
/// is open, no eligible gateway is left once the refusals are skipped.
pub proof fn lemma_selection_is_first_eligible_not_declined(rs: Seq<GatewayRecord>, declined: Seq<[u8; 8]>)
    ensures
        forall|b: int| #[trigger] is_best(rs, declined, b) ==> first_not_declined(
            sort_by_metric(candidates_of(rs)),
            declined,
        ) == Some(spec_candidate(rs[b])),
        (forall|j: int| 0 <= j < rs.len() ==> !open_for(#[trigger] rs[j], declined)) ==> first_not_declined(
            sort_by_metric(candidates_of(rs)),
            declined,
        ) is None,
{
    lemma_sorted_first_is_best(candidates_of(rs), declined);
    lemma_best_of_records(rs, declined);
}


/// Whether node `id` still qualifies as a delegation target: its first
/// record qualifies.
pub open spec fn target_qualifies(rs: Seq<GatewayRecord>, id: [u8; 8]) -> bool {
    exists|i: int| first_of(rs, id, i) && qualifies(#[trigger] rs[i])
}

/// The subscriptions, in order, whose target has stopped qualifying.
pub open spec fn broken_of(subs: Seq<([u8; 8], Subscription)>, rs: Seq<GatewayRecord>) -> Seq<([u8; 8], [u8; 8])>
    decreases subs.len(),
{
    if subs.len() == 0 {
        seq![]
    } else {
        let rest = broken_of(subs.drop_last(), rs);
        let (user, s) = subs.last();
        if target_qualifies(rs, s.target_node_id) {
            rest
        } else {
            rest.push((user, s.target_node_id))
        }
    }
}

/// Whether the first record of `id` qualifies.
fn qualifying_target(records: &Vec<GatewayRecord>, id: &[u8; 8]) -> (r: bool)
    ensures
        r == target_qualifies(records@, *id),
{
    let n = records.len();
    let mut i = 0usize;
    while i < n && !same_id(&records[i].node_id, id)
        invariant
            n == records@.len(),
            i <= n,
            forall|j: int| 0 <= j < i ==> (#[trigger] records@[j]).node_id != *id,
        decreases n - i,
    {
        i += 1;
    }
    if i == n {
        proof {
            assert forall|k: int| !(first_of(records@, *id, k) && qualifies(#[trigger] records@[k])) by {
                if first_of(records@, *id, k) {
                    assert(records@[k].node_id == *id);
                }
            }
        }
        return false;
    }
    proof {
        assert(first_of(records@, *id, i as int));
        assert forall|k: int| first_of(records@, *id, k) implies k == i by {
            if k < i {
            } else if k > i {
                assert(records@[i as int].node_id == *id);
            }
        }
    }
    qualifies_rec(&records[i])
}

/// The subscriptions (user and target) whose target has stopped
/// qualifying, and are dropped so that the user selects again.
pub fn broken_subscriptions(subscriptions: &Vec<([u8; 8], Subscription)>, records: &Vec<GatewayRecord>) -> (r:
    Vec<([u8; 8], [u8; 8])>)
    ensures
        r@ == broken_of(subscriptions@, records@),
{
    let mut out: Vec<([u8; 8], [u8; 8])> = Vec::new();
    let n = subscriptions.len();
    let mut i = 0usize;
    while i < n
        invariant
            n == subscriptions@.len(),
            i <= n,
            out@ == broken_of(subscriptions@.take(i as int), records@),
        decreases n - i,
    {
        let (user, s) = subscriptions[i];
        proof {
            let next = subscriptions@.take(i as int + 1);
            assert(next.drop_last() =~= subscriptions@.take(i as int));
            assert(next.last() == (user, s));
        }
        if !qualifying_target(records, &s.target_node_id) {
            out.push((user, s.target_node_id));
        }
        i += 1;
    }
    proof {
        assert(subscriptions@.take(n as int) =~= subscriptions@);
    }
    out
}

} // verus!
