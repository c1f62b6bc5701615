//! Transports, spheres and the other small enumerations the router
//! decides on.

use vstd::prelude::*;

use std::collections::HashSet;

use crate::codec::messages::ManifestEntry;
use crate::keyed::{id_key, same_id, spec_id_key};
use crate::seq::{is_fresher_u32, spec_is_fresher_u32};

verus! {

/// The connection module a neighbour is reached over.
#[derive(Debug, Clone, Copy, PartialEq, Eq, Hash, Structural)]
pub enum ConnectionModule {
    /// this node itself
    Local,
    Lan,
    Internet,
    Ble1m,
    BleCoded,
    /// no connection module
    NoModule,
}

/// The two spheres of the gateway membrane.
#[derive(Debug, Clone, Copy, PartialEq, Eq, Structural)]
pub enum Sphere {
    Local,
    Internet,
}

impl Sphere {
    /// The sphere a transport belongs to: only the Internet module is
    /// outside the Local sphere.
    pub open spec fn spec_of(module: ConnectionModule) -> Sphere {
        match module {
            ConnectionModule::Internet => Sphere::Internet,
            _ => Sphere::Local,
        }
    }

    /// The sphere a transport belongs to.
    pub fn of(module: ConnectionModule) -> (s: Sphere)
        ensures
            s == Sphere::spec_of(module),
    {
        match module {
            ConnectionModule::Internet => Sphere::Internet,
            ConnectionModule::Lan => Sphere::Local,
            ConnectionModule::Ble1m => Sphere::Local,
            ConnectionModule::BleCoded => Sphere::Local,
            ConnectionModule::Local => Sphere::Local,
            ConnectionModule::NoModule => Sphere::Local,
        }
    }
}

/// The two index spaces a node keeps.
#[derive(Debug, Clone, Copy, PartialEq, Eq, Hash, Structural)]
pub enum Space {
    User,
    Node,
}

/// Which kind of entry this node originates for itself.
#[derive(Debug, Clone, Copy, PartialEq, Eq, Structural)]
pub enum PropagationForm {
    User,
    Node,
}

impl PropagationForm {
    /// The index space this node originates its own entry in.
    pub fn origin_space(self) -> (s: Space)
        ensures
            self == PropagationForm::User ==> s == Space::User,
            self == PropagationForm::Node ==> s == Space::Node,
    {
        match self {
            PropagationForm::User => Space::User,
            PropagationForm::Node => Space::Node,
        }
    }
}

/// Why a `manifest_version` bump is being attempted.
#[derive(Debug, Clone, Copy, PartialEq, Eq, Structural)]
pub enum BumpTrigger {
    Accumulated,
    FormTransition,
    /// removal forced by loss of routing reachability to a delegated user
    ForcedRemoval,
}

/// Which pipe carries an outbound frame.
#[derive(Debug, Clone, Copy, PartialEq, Eq, Structural)]
pub enum OutboundKind {
    /// a routing protocol frame
    Routing,
    /// a management envelope
    Management,
}

/// The indexes of each space left over from an INDEX_DUMP in progress.
#[derive(Debug)]
pub struct DumpStaleIndexes {
    pub users: HashSet<u16>,
    pub nodes: HashSet<u16>,
}

impl Default for DumpStaleIndexes {
    fn default() -> (d: DumpStaleIndexes)
        ensures
            d.users@ == Set::<u16>::empty(),
            d.nodes@ == Set::<u16>::empty(),
    {
        DumpStaleIndexes { users: HashSet::new(), nodes: HashSet::new() }
    }
}

/// The set after one chunk: the first chunk starts from every bound
/// index, later ones from what is left; the chunk's indexes are then
/// no longer stale.
pub open spec fn stale_after_chunk(stale: Set<u16>, is_first: bool, bound: Set<u16>, seen: Set<u16>) -> Set<u16> {
    (if is_first {
        bound
    } else {
        stale
    }).difference(seen)
}

/// Starts the set from the bound indexes where asked, then strikes out
/// the indexes the chunk announced.
fn track_space(stale: &mut HashSet<u16>, is_first: bool, bound: &Vec<u16>, seen: &Vec<u16>)
    ensures
        final(stale)@ == stale_after_chunk(old(stale)@, is_first, bound@.to_set(), seen@.to_set()),
{
    broadcast use vstd::std_specs::hash::group_hash_axioms;

    if is_first {
        let mut fresh: HashSet<u16> = HashSet::new();
        let mut i = 0usize;
        while i < bound.len()
            invariant
                i <= bound@.len(),
                fresh@ == bound@.take(i as int).to_set(),
            decreases bound@.len() - i,
        {
            fresh.insert(bound[i]);
            proof {
                assert(bound@.take(i as int + 1) =~= bound@.take(i as int).push(bound@[i as int]));
                bound@.take(i as int).lemma_push_to_set_commute(bound@[i as int]);
            }
            i += 1;
        }
        proof {
            assert(bound@.take(bound@.len() as int) =~= bound@);
        }
        *stale = fresh;
    }
    let ghost start = stale@;
    let mut j = 0usize;
    while j < seen.len()
        invariant
            j <= seen@.len(),
            stale@ == start.difference(seen@.take(j as int).to_set()),
        decreases seen@.len() - j,
    {
        stale.remove(&seen[j]);
        proof {
            assert(seen@.take(j as int + 1) =~= seen@.take(j as int).push(seen@[j as int]));
            seen@.take(j as int).lemma_push_to_set_commute(seen@[j as int]);
            assert(stale@ =~= start.difference(seen@.take(j as int + 1).to_set()));
        }
        j += 1;
    }
    proof {
        assert(seen@.take(seen@.len() as int) =~= seen@);
        assert(stale@ =~= stale_after_chunk(old(stale)@, is_first, bound@.to_set(), seen@.to_set()));
    }
}

impl DumpStaleIndexes {
    /// Takes one INDEX_DUMP chunk: the first chunk marks every index the
    /// neighbour's mirrors bind as stale, and each chunk clears the
    /// indexes it announces. Returns whether this was the last chunk.
    pub fn track_chunk(
        &mut self,
        chunk_index: u8,
        chunk_count: u8,
        bound_users: &Vec<u16>,
        bound_nodes: &Vec<u16>,
        user_idxs: &Vec<u16>,
        node_idxs: &Vec<u16>,
    ) -> (is_last: bool)
        ensures
            final(self).users@ == stale_after_chunk(
                old(self).users@,
                chunk_index == 0,
                bound_users@.to_set(),
                user_idxs@.to_set(),
            ),
            final(self).nodes@ == stale_after_chunk(
                old(self).nodes@,
                chunk_index == 0,
                bound_nodes@.to_set(),
                node_idxs@.to_set(),
            ),
            is_last == (chunk_index + 1 >= chunk_count),
    {
        let is_first = chunk_index == 0;
        track_space(&mut self.users, is_first, bound_users, user_idxs);
        track_space(&mut self.nodes, is_first, bound_nodes, node_idxs);
        chunk_index >= chunk_count || chunk_index + 1 >= chunk_count
    }

    /// Hands out the stale indexes, leaving both sets empty.
    pub fn take_stale(&mut self) -> (r: (HashSet<u16>, HashSet<u16>))
        ensures
            r.0@ == old(self).users@,
            r.1@ == old(self).nodes@,
            final(self).users@ == Set::<u16>::empty(),
            final(self).nodes@ == Set::<u16>::empty(),
    {
        let mut users: HashSet<u16> = HashSet::new();
        let mut nodes: HashSet<u16> = HashSet::new();
        std::mem::swap(&mut users, &mut self.users);
        std::mem::swap(&mut nodes, &mut self.nodes);
        (users, nodes)
    }
}

/// The stale set after a run of chunks, the first of which starts it.
pub open spec fn stale_after_dump(bound: Set<u16>, chunks: Seq<Set<u16>>) -> Set<u16>
    decreases chunks.len(),
{
    if chunks.len() == 0 {
        bound
    } else {
        stale_after_dump(bound, chunks.drop_last()).difference(chunks.last())
    }
}

/// Every index announced somewhere in a run of chunks.
pub open spec fn announced(chunks: Seq<Set<u16>>) -> Set<u16>
    decreases chunks.len(),
{
    if chunks.len() == 0 {
        Set::empty()
    } else {
        announced(chunks.drop_last()).union(chunks.last())
    }
}

/// After a whole dump, the stale indexes are exactly the bound ones that
/// no chunk announced: those the neighbour dropped.
pub proof fn lemma_dump_leaves_unannounced(bound: Set<u16>, chunks: Seq<Set<u16>>)
    ensures
        stale_after_dump(bound, chunks) == bound.difference(announced(chunks)),
    decreases chunks.len(),
{
    if chunks.len() > 0 {
        lemma_dump_leaves_unannounced(bound, chunks.drop_last());
        assert(bound.difference(announced(chunks.drop_last())).difference(chunks.last()) =~= bound.difference(
            announced(chunks),
        ));
    }
}

/// `id` is among the hosted users.
pub open spec fn hosts(hosted: Seq<[u8; 8]>, id: [u8; 8]) -> bool {
    exists|j: int| 0 <= j < hosted.len() && spec_id_key(#[trigger] hosted[j]) == spec_id_key(id)
}

/// Some manifest entry is of a user this node does not host.
pub open spec fn holds_foreign(entries: Seq<ManifestEntry>, hosted: Seq<[u8; 8]>) -> bool {
    exists|i: int| 0 <= i < entries.len() && !hosts(hosted, (#[trigger] entries[i]).user_id)
}

/// Whether the manifest carries an entry of a user this node does not
/// host.
pub fn holds_foreign_delegation(entries: &[ManifestEntry], hosted_user_ids: &Vec<[u8; 8]>) -> (r: bool)
    ensures
        r == holds_foreign(entries@, hosted_user_ids@),
{
    let n = entries.len();
    let mut i = 0usize;
    while i < n
        invariant
            n == entries@.len(),
            i <= n,
            forall|a: int| 0 <= a < i ==> hosts(hosted_user_ids@, (#[trigger] entries@[a]).user_id),
        decreases n - i,
    {
        let k = id_key(&entries[i].user_id);
        let m = hosted_user_ids.len();
        let mut j = 0usize;
        let mut found = false;
        while j < m
            invariant
                m == hosted_user_ids@.len(),
                j <= m,
                i < n,
                n == entries@.len(),
                k == spec_id_key(entries@[i as int].user_id),
                found ==> hosts(hosted_user_ids@, entries@[i as int].user_id),
                !found ==> forall|b: int| 0 <= b < j ==> spec_id_key(#[trigger] hosted_user_ids@[b]) != k,
            decreases m - j,
        {
            if id_key(&hosted_user_ids[j]) == k {
                found = true;
            }
            j += 1;
        }
        if !found {
            proof {
                assert(!hosts(hosted_user_ids@, entries@[i as int].user_id));
            }
            return true;
        }
        i += 1;
    }
    false
}

/// The form a node originates itself in: as a node when it hosts more
/// than one user, reaches the Internet, or carries a user it does not
/// host; else as its one user.
pub open spec fn spec_desired_propagation_form(
    hosted_count: nat,
    has_active_internet_transport: bool,
    holds_foreign_delegation: bool,
) -> PropagationForm {
    if hosted_count > 1 || has_active_internet_transport || holds_foreign_delegation {
        PropagationForm::Node
    } else {
        PropagationForm::User
    }
}

/// The form this node should originate itself in.
pub fn desired_propagation_form(
    hosted_user_ids: &Vec<[u8; 8]>,
    has_active_internet_transport: bool,
    manifest_entries: &[ManifestEntry],
) -> (f: PropagationForm)
    ensures
        f == spec_desired_propagation_form(
            hosted_user_ids@.len(),
            has_active_internet_transport,
            holds_foreign(manifest_entries@, hosted_user_ids@),
        ),
{
    if hosted_user_ids.len() > 1 {
        return PropagationForm::Node;
    }
    if has_active_internet_transport {
        return PropagationForm::Node;
    }
    if holds_foreign_delegation(manifest_entries, hosted_user_ids) {
        return PropagationForm::Node;
    }
    PropagationForm::User
}


/// The index work a change of propagation form takes.
#[derive(Debug, Clone)]
pub enum FormTransition {
    /// the form stays
    Stay,
    /// into node form: the hosted users' indexes are released and this
    /// node is bound at the reserved node index
    ToNode { release_users: Vec<[u8; 8]>, bind_node: [u8; 8] },
    /// into user form: this node's index is released and the first hosted
    /// user, if any, takes the reserved user index
    ToUser { release_node: [u8; 8], reclaim_user: Option<[u8; 8]> },
}

/// What moving from `current` to `desired` takes, for a node whose id is
/// `host_node_id` and which hosts `hosted`. Every change of form is also a
/// trigger to bump the manifest version.
pub fn plan_form_transition(
    current: PropagationForm,
    desired: PropagationForm,
    hosted: Vec<[u8; 8]>,
    host_node_id: [u8; 8],
) -> (t: FormTransition)
    ensures
        current == desired ==> t is Stay,
        (current != desired && desired == PropagationForm::Node) ==> (t matches FormTransition::ToNode {
            release_users,
            bind_node,
        } && release_users@ == hosted@ && bind_node == host_node_id),
        (current != desired && desired == PropagationForm::User) ==> (t matches FormTransition::ToUser {
            release_node,
            reclaim_user,
        } && release_node == host_node_id && (hosted@.len() == 0 ==> reclaim_user is None) && (
        hosted@.len() > 0 ==> reclaim_user == Some(hosted@[0]))),
{
    let same = match (current, desired) {
        (PropagationForm::User, PropagationForm::User) => true,
        (PropagationForm::Node, PropagationForm::Node) => true,
        _ => false,
    };
    if same {
        return FormTransition::Stay;
    }
    match desired {
        PropagationForm::Node => FormTransition::ToNode { release_users: hosted, bind_node: host_node_id },
        PropagationForm::User => {
            let reclaim_user = if hosted.len() > 0 {
                Some(hosted[0])
            } else {
                None
            };
            FormTransition::ToUser { release_node: host_node_id, reclaim_user }
        },
    }
}

/// The profile version kept for a user this node starts hosting: the
/// registered one where the user is new or it is fresher than the stored
/// one, else the stored one.
pub fn hosted_profile_version(stored: Option<u32>, registered: u32) -> (v: u32)
    ensures
        v == match stored {
            None => registered,
            Some(s) => if spec_is_fresher_u32(registered, s) {
                registered
            } else {
                s
            },
        },
{
    match stored {
        None => registered,
        Some(s) => if is_fresher_u32(registered, s) {
            registered
        } else {
            s
        },
    }
}

/// Whether registering hosted user `user_id` binds it at the reserved
/// user index, which `holder` holds now: not in node form, where users
/// are named through the manifest; not when it holds it already.
pub fn binds_reserved_user_index(form: PropagationForm, holder: Option<[u8; 8]>, user_id: [u8; 8]) -> (r:
    bool)
    ensures
        r == (form == PropagationForm::User && holder != Some(user_id)),
{
    match form {
        PropagationForm::Node => false,
        PropagationForm::User => match holder {
            Some(h) => !same_id(&h, &user_id),
            None => true,
        },
    }
}

} // verus!
