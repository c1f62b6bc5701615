//! What an incoming mapping does: a neighbour introduces, at one of its
//! indexes, a target and the version it knows of that target.

use vstd::prelude::*;

use crate::codec::messages::Mapping;
use crate::keyed::same_id;
use crate::seq::{is_fresher_u32, spec_is_fresher_u32};
use crate::sphere::Space;

verus! {

/// What becomes of the version the table keeps for the mapped target
/// (the advertised manifest version of a node, the profile version of a
/// user).
#[derive(Debug, Clone, Copy, PartialEq, Eq, Structural)]
pub enum VersionUpdate {
    /// the target was unknown: a stub is created with this version
    Create(u32),
    /// the incoming version is fresher: it replaces the stored one
    Raise(u32),
    /// the incoming version is equal or older: the stored one stays
    Keep,
}

/// The steps that applying a mapping takes. The mapping itself is always
/// bound into the neighbour's mirror dictionary.
#[derive(Debug, Clone, Copy)]
pub struct MappingPlan {
    /// a different target the neighbour had at that index, whose own index
    /// is released
    pub release: Option<[u8; 8]>,
    pub version: VersionUpdate,
    /// whether the node's manifest is to be pulled (a node that is new or
    /// advertises a fresher version)
    pub request_manifest: bool,
    /// whether the user's profile is to be fetched (a user that is new,
    /// advertises a fresher version, or whose key is still unknown)
    pub request_profile: bool,
    /// whether the user's profile version advanced, which the manifest
    /// entries that carry it must follow
    pub profile_bumped: bool,
}

/// The plan for `mapping`, received in `space`, where the neighbour's
/// mirror held `mirror_id` at the mapping's index, the table holds
/// `stored` as the target's version (`None` for an unknown target), and
/// `key_known` tells whether it holds the target's key.
pub open spec fn spec_plan_mapping(
    mirror_id: Option<[u8; 8]>,
    mapping: Mapping,
    space: Space,
    stored: Option<u32>,
    key_known: bool,
) -> MappingPlan {
    let release = match mirror_id {
        Some(id) => if id != mapping.target_id { Some(id) } else { None },
        None => None,
    };
    let version = match stored {
        None => VersionUpdate::Create(mapping.version),
        Some(v) => if spec_is_fresher_u32(mapping.version, v) {
            VersionUpdate::Raise(mapping.version)
        } else {
            VersionUpdate::Keep
        },
    };
    let is_user = space == Space::User;
    MappingPlan {
        release,
        version,
        request_manifest: !is_user && !(version is Keep),
        request_profile: is_user && (!(version is Keep) || (stored == Some(mapping.version)
            && !key_known)),
        profile_bumped: is_user && version is Raise,
    }
}

/// Decides what applying an incoming mapping does.
pub fn plan_mapping(
    mirror_id: Option<[u8; 8]>,
    mapping: &Mapping,
    space: Space,
    stored: Option<u32>,
    key_known: bool,
) -> (p: MappingPlan)
    ensures
        p == spec_plan_mapping(mirror_id, *mapping, space, stored, key_known),
{
    let release = match mirror_id {
        Some(id) => if !same_id(&id, &mapping.target_id) {
            Some(id)
        } else {
            None
        },
        None => None,
    };
    let version = match stored {
        None => VersionUpdate::Create(mapping.version),
        Some(v) => if is_fresher_u32(mapping.version, v) {
            VersionUpdate::Raise(mapping.version)
        } else {
            VersionUpdate::Keep
        },
    };
    let changes = match version {
        VersionUpdate::Keep => false,
        _ => true,
    };
    let raised = match version {
        VersionUpdate::Raise(_) => true,
        _ => false,
    };
    let is_user = match space {
        Space::Node => false,
        Space::User => true,
    };
    let same_version = match stored {
        Some(v) => v == mapping.version,
        None => false,
    };
    MappingPlan {
        release,
        version,
        request_manifest: !is_user && changes,
        request_profile: is_user && (changes || (same_version && !key_known)),
        profile_bumped: is_user && raised,
    }
}

/// A mapping applied twice changes nothing the second time: once its
/// target is bound at its index and its version stored, the same mapping
/// releases nothing, keeps the version, pulls no manifest and bumps no
/// profile; it fetches the profile only while the key is still unknown.
pub proof fn lemma_mapping_reapplied_is_noop(
    mapping: Mapping,
    space: Space,
    stored: Option<u32>,
    key_known: bool,
)
    ensures
        ({
            let first = spec_plan_mapping(Some(mapping.target_id), mapping, space, stored, key_known);
            let after = match first.version {
                VersionUpdate::Create(v) => Some(v),
                VersionUpdate::Raise(v) => Some(v),
                VersionUpdate::Keep => stored,
            };
            let second = spec_plan_mapping(Some(mapping.target_id), mapping, space, after, key_known);
            &&& first.release is None
            &&& (!(first.version is Keep) ==> {
                &&& second.release is None
                &&& second.version is Keep
                &&& !second.request_manifest
                &&& !second.profile_bumped
                &&& second.request_profile == (space == Space::User && !key_known)
            })
        }),
{
}

} // verus!
