//! Serve-side decisions and inbound chunk assembly.

use vstd::prelude::*;

use std::collections::HashMap;

use crate::codec::messages::{ManifestDelta, ManifestEntry, ManifestRequestItem, NodeManifest};
use crate::manifest::log::LogRecord;
use crate::manifest::{
    delta_adds_of, delta_removes_of, delta_size_estimate, reconstruct_single_chunk_full, DeltaHeader,
    MAX_BODY,
};
use crate::keyed::{
    has_key, id_key, keyed_map, lemma_dense_keys, lemma_keyed_insert, lemma_keyed_map_at, lemma_keyed_map_len, lemma_keys_at_least,
    lemma_keyed_update, spec_id_key, strictly_sorted_by,
};
use crate::seq::{is_fresher_u32, spec_is_fresher_u32};
use crate::sphere::Sphere;

verus! {

/// What is known about an origin when answering a request for it.
pub struct OriginServeState {
    pub committed: u32,
    pub log_base: u32,
    /// Sphere the manifest was learned over.
    pub learn_sphere: Option<Sphere>,
}

/// How a MANIFEST_REQUEST item is answered.
#[derive(Debug, Clone, Copy, PartialEq, Eq, Structural)]
pub enum ServeDecision {
    /// a full NODE_MANIFEST: the requester holds nothing, or its version
    /// lies at or before the log base
    Full,
    /// a MANIFEST_DELTA from the requester's version
    Delta { from_version: u32 },
    /// the versions are equal
    Nothing,
    /// learnt over the Internet and asked from the Local sphere
    Sealed,
}

/// The checks in order: the membrane, a requester holding
/// nothing, a version at or before the log base, equal versions, a
/// version behind the committed one; anything else gets the full
/// manifest.
pub open spec fn spec_decide_serve(
    have_none: bool,
    have_version: u32,
    origin: OriginServeState,
    requester_sphere: Sphere,
) -> ServeDecision {
    if origin.learn_sphere == Some(Sphere::Internet) && requester_sphere == Sphere::Local {
        ServeDecision::Sealed
    } else if have_none {
        ServeDecision::Full
    } else if !spec_is_fresher_u32(have_version, origin.log_base) {
        ServeDecision::Full
    } else if have_version == origin.committed {
        ServeDecision::Nothing
    } else if spec_is_fresher_u32(origin.committed, have_version) {
        ServeDecision::Delta { from_version: have_version }
    } else {
        ServeDecision::Full
    }
}

/// The membrane seals a manifest only one way: the answer is `Sealed`
/// exactly when the manifest was learnt over the Internet and the
/// requester is in the Local sphere.
pub proof fn lemma_sealed_only_from_internet_to_local(
    have_none: bool,
    have_version: u32,
    origin: OriginServeState,
    requester_sphere: Sphere,
)
    ensures
        (spec_decide_serve(have_none, have_version, origin, requester_sphere) == ServeDecision::Sealed) <==> (
        origin.learn_sphere == Some(Sphere::Internet) && requester_sphere == Sphere::Local),
{
}

/// For a manifest not learnt over the Internet, the requester's sphere
/// does not matter: a Local and an Internet requester get the same answer.
pub proof fn lemma_local_learnt_answer_ignores_requester(
    have_none: bool,
    have_version: u32,
    origin: OriginServeState,
)
    requires
        origin.learn_sphere != Some(Sphere::Internet),
    ensures
        spec_decide_serve(have_none, have_version, origin, Sphere::Local) == spec_decide_serve(
            have_none,
            have_version,
            origin,
            Sphere::Internet,
        ),
{
}

/// What each answer means about the versions: a delta starts at the
/// requester's version, which is past the log base and behind the
/// committed one; nothing is sent only to a requester already at the
/// committed version; a requester holding nothing, outside the sealed
/// case, gets the full manifest.
pub proof fn lemma_serve_answer_matches_versions(
    have_none: bool,
    have_version: u32,
    origin: OriginServeState,
    requester_sphere: Sphere,
)
    ensures
        ({
            let d = spec_decide_serve(have_none, have_version, origin, requester_sphere);
            &&& d matches ServeDecision::Delta { from_version } ==> from_version == have_version && !have_none
                && spec_is_fresher_u32(have_version, origin.log_base) && spec_is_fresher_u32(
                origin.committed,
                have_version,
            )
            &&& d == ServeDecision::Nothing ==> !have_none && have_version == origin.committed
            &&& (have_none && d != ServeDecision::Sealed) ==> d == ServeDecision::Full
        }),
{
}

/// Decides how to answer one request item.
pub fn decide_serve(
    item: &ManifestRequestItem,
    origin: &OriginServeState,
    requester_sphere: Sphere,
) -> (d: ServeDecision)
    ensures
        d == spec_decide_serve(item.spec_have_none(), item.have_version, *origin, requester_sphere),
{
    let internet_learned = match origin.learn_sphere {
        Some(Sphere::Internet) => true,
        _ => false,
    };
    let local_requester = match requester_sphere {
        Sphere::Local => true,
        Sphere::Internet => false,
    };
    if internet_learned && local_requester {
        return ServeDecision::Sealed;
    }
    if item.have_none() {
        return ServeDecision::Full;
    }
    if !is_fresher_u32(item.have_version, origin.log_base) {
        return ServeDecision::Full;
    }
    if item.have_version == origin.committed {
        return ServeDecision::Nothing;
    }
    if is_fresher_u32(origin.committed, item.have_version) {
        return ServeDecision::Delta { from_version: item.have_version };
    }
    ServeDecision::Full
}


/// What is known about another node's manifest when answering for it:
/// nothing, when the node is a stub made from a mapping (version zero, no
/// entries); else its committed version, log base and learn sphere.
pub fn node_serve_state(
    manifest_version: u32,
    entry_count: usize,
    log_base: u32,
    learn_sphere: Option<Sphere>,
) -> (r: Option<OriginServeState>)
    ensures
        r is None <==> (manifest_version == 0 && entry_count == 0),
        r matches Some(o) ==> o.committed == manifest_version && o.log_base == log_base
            && o.learn_sphere == learn_sphere,
{
    if manifest_version == 0 && entry_count == 0 {
        return None;
    }
    Some(OriginServeState { committed: manifest_version, log_base, learn_sphere })
}

/// The chunks a full answer for an origin consists of: the signed chunks
/// retained as received or built, else the whole manifest rebuilt into a
/// single chunk under its whole-state signature; nothing when neither is
/// held.
pub fn full_manifest_chunks(
    origin_node_id: [u8; 8],
    manifest_version: u32,
    is_gateway: bool,
    entries: Vec<ManifestEntry>,
    signature: Option<[u8; 64]>,
    retained: Option<Vec<NodeManifest>>,
) -> (r: Option<Vec<NodeManifest>>)
    ensures
        retained matches Some(cs) ==> r == Some(cs),
        retained is None ==> (r is Some <==> signature is Some),
        (retained is None && signature is Some) ==> (r matches Some(cs) && cs@.len() == 1
            && cs@[0].origin_node_id == origin_node_id && cs@[0].manifest_version == manifest_version
            && cs@[0].chunk_index == 0 && cs@[0].chunk_count == 1 && cs@[0].flags == (if is_gateway {
            1u8
        } else {
            0u8
        }) && Some(cs@[0].manifest_signature) == signature && cs@[0].entries@ == entries@),
{
    match retained {
        Some(cs) => Some(cs),
        None => match signature {
            Some(sig) => {
                let c = reconstruct_single_chunk_full(
                    origin_node_id,
                    manifest_version,
                    is_gateway,
                    entries,
                    sig,
                );
                Some(vec![c])
            },
            None => None,
        },
    }
}

/// The MANIFEST_DELTA that answers a request from `from_version`: the log
/// records after it under the whole-state signature. `None` means the
/// full manifest is served instead: no whole-state signature is held, or
/// the delta would exceed `MAX_BODY` (a delta is never chunked).
pub fn delta_answer(
    origin_node_id: [u8; 8],
    from_version: u32,
    to_version: u32,
    is_gateway: bool,
    signature: Option<[u8; 64]>,
    records_after: Vec<LogRecord>,
) -> (r: Option<ManifestDelta>)
    ensures
        r is Some <==> (signature is Some && delta_size_estimate(records_after@) <= MAX_BODY),
        r matches Some(d) ==> {
            &&& d.origin_node_id == origin_node_id
            &&& d.from_version == from_version
            &&& d.to_version == to_version
            &&& d.flags == (if is_gateway { 1u8 } else { 0u8 })
            &&& Some(d.manifest_signature) == signature
            &&& d.adds@ == delta_adds_of(records_after@)
            &&& d.removes@ == delta_removes_of(records_after@)
        },
{
    let sig = match signature {
        Some(s) => s,
        None => {
            return None;
        },
    };
    let header = DeltaHeader {
        origin_node_id,
        from_version,
        to_version,
        is_gateway,
        manifest_signature: sig,
    };
    match header.assemble(records_after) {
        Ok(d) => Some(d),
        Err(_) => None,
    }
}

// ---------- chunk assembly ----------

/// A manifest assembled from all of its chunks.
pub struct CompletedManifest {
    pub manifest_version: u32,
    pub flags: u8,
    /// the entries of every chunk, in chunk order
    pub entries: Vec<ManifestEntry>,
    /// the chunks, in chunk order
    pub chunks: Vec<NodeManifest>,
}

pub struct CompletedV {
    pub manifest_version: u32,
    pub flags: u8,
    pub entries: Seq<ManifestEntry>,
    pub chunks: Seq<NodeManifest>,
}

impl View for CompletedManifest {
    type V = CompletedV;

    open spec fn view(&self) -> CompletedV {
        CompletedV {
            manifest_version: self.manifest_version,
            flags: self.flags,
            entries: self.entries@,
            chunks: self.chunks@,
        }
    }
}

impl CompletedManifest {
    /// Whether the origin serves as a gateway: bit 0 of the flags.
    pub fn is_gateway(&self) -> (r: bool)
        ensures
            r == (self.flags & 1u8 != 0),
    {
        self.flags & 1u8 != 0
    }

    /// The signature over the whole state, which only a single-chunk
    /// manifest carries.
    pub fn whole_state_signature(&self) -> (r: Option<[u8; 64]>)
        ensures
            self.chunks@.len() == 1 ==> r == Some(self.chunks@[0].manifest_signature),
            self.chunks@.len() != 1 ==> r is None,
    {
        if self.chunks.len() == 1 {
            Some(self.chunks[0].manifest_signature)
        } else {
            None
        }
    }
}

/// The chunks of one origin's manifest collected so far.
pub struct PartialV {
    pub manifest_version: u32,
    pub chunk_count: u8,
    pub flags: u8,
    /// chunk index to chunk
    pub received: Map<u64, NodeManifest>,
}

/// The entries of a run of chunks, one chunk after the other.
pub open spec fn chunks_entries(chunks: Seq<NodeManifest>) -> Seq<ManifestEntry>
    decreases chunks.len(),
{
    if chunks.len() == 0 {
        seq![]
    } else {
        chunks_entries(chunks.drop_last()) + chunks.last().entries@
    }
}

/// All chunks have arrived: as many distinct indexes as the count.
pub open spec fn partial_complete(p: PartialV) -> bool {
    p.received.dom().len() >= p.chunk_count
}

/// The manifest a complete partial assembles into: chunks in index
/// order, and their entries one after the other.
pub open spec fn partial_completed(p: PartialV) -> CompletedV {
    let chunks = Seq::new(p.chunk_count as nat, |i: int| p.received[i as u64]);
    CompletedV {
        manifest_version: p.manifest_version,
        flags: p.flags,
        entries: chunks_entries(chunks),
        chunks,
    }
}

/// What inserting chunk `c` from the origin with key `k` does to the
/// partials, and the manifest it completes if any: an out-of-range index
/// is dropped; a chunk of the version being collected that disagrees on
/// count or flags discards the partial; a chunk of another version starts
/// a fresh partial; a partial that is complete leaves the assembler.
pub open spec fn spec_assemble(parts: Map<u64, PartialV>, k: u64, c: NodeManifest) -> (
    Map<u64, PartialV>,
    Option<CompletedV>,
) {
    if c.chunk_index >= c.chunk_count {
        (parts, None)
    } else if parts.dom().contains(k) && parts[k].manifest_version == c.manifest_version && (
    c.chunk_count != parts[k].chunk_count || c.flags != parts[k].flags) {
        (parts.remove(k), None)
    } else {
        let p = spec_assemble_partial(parts, k, c);
        if partial_complete(p) {
            (parts.remove(k), Some(partial_completed(p)))
        } else {
            (parts.insert(k, p), None)
        }
    }
}

pub open spec fn chunk_key() -> spec_fn(NodeManifest) -> u64 {
    |c: NodeManifest| c.chunk_index as u64
}

/// One origin's chunks, ascending by chunk index.
struct PartialManifest {
    manifest_version: u32,
    chunk_count: u8,
    flags: u8,
    received: Vec<NodeManifest>,
}

impl PartialManifest {
    spec fn wf(&self) -> bool {
        &&& strictly_sorted_by(self.received@, chunk_key())
        &&& forall|i: int| 0 <= i < self.received@.len() ==> (#[trigger] self.received@[i]).chunk_index < self.chunk_count
    }

    spec fn view(&self) -> PartialV {
        PartialV {
            manifest_version: self.manifest_version,
            chunk_count: self.chunk_count,
            flags: self.flags,
            received: keyed_map(self.received@, chunk_key()),
        }
    }

    /// A partial holding just `c`.
    fn fresh(c: NodeManifest) -> (p: PartialManifest)
        requires
            c.chunk_index < c.chunk_count,
        ensures
            p.wf(),
            p.view() == (PartialV {
                manifest_version: c.manifest_version,
                chunk_count: c.chunk_count,
                flags: c.flags,
                received: Map::<u64, NodeManifest>::empty().insert(c.chunk_index as u64, c),
            }),
    {
        let ghost cv = c;
        let manifest_version = c.manifest_version;
        let chunk_count = c.chunk_count;
        let flags = c.flags;
        let mut received = Vec::new();
        received.push(c);
        let p = PartialManifest { manifest_version, chunk_count, flags, received };
        proof {
            let s = p.received@;
            assert(s[0] == cv);
            lemma_keyed_map_at(s, chunk_key(), 0);
            assert(keyed_map(s, chunk_key()) =~= Map::<u64, NodeManifest>::empty().insert(cv.chunk_index as u64, cv));
        }
        p
    }

    /// Stores `c` under its chunk index, replacing an earlier copy.
    fn add(&mut self, c: NodeManifest)
        requires
            old(self).wf(),
            c.chunk_index < old(self).chunk_count,
        ensures
            final(self).wf(),
            final(self).view() == (PartialV {
                received: old(self).view().received.insert(c.chunk_index as u64, c),
                ..old(self).view()
            }),
    {
        let k = c.chunk_index;
        let n = self.received.len();
        let mut i = 0usize;
        while i < n && self.received[i].chunk_index < k
            invariant
                self.wf(),
                self.received@ == old(self).received@,
                n == self.received@.len(),
                i <= n,
                forall|j: int| 0 <= j < i ==> chunk_key()(#[trigger] self.received@[j]) < k,
            decreases n - i,
        {
            i += 1;
        }
        let ghost s = self.received@;
        if i < n && self.received[i].chunk_index == k {
            proof {
                lemma_keyed_update(s, chunk_key(), i as int, c);
            }
            self.received.set(i, c);
        } else {
            proof {
                assert forall|j: int| i <= j < s.len() implies k < chunk_key()(#[trigger] s[j]) by {
                    if j > i {
                        assert(chunk_key()(s[i as int]) < chunk_key()(s[j]));
                    }
                }
                lemma_keyed_insert(s, chunk_key(), i as int, c);
                s.insert_ensures(i as int, c);
            }
            self.received.insert(i, c);
        }
    }
}

/// Collects the chunks of NODE_MANIFESTs per origin until each is whole.
pub struct ChunkAssembler {
    /// the partial manifests by the key of their origin's id
    partials: HashMap<u64, PartialManifest>,
}

impl View for ChunkAssembler {
    type V = Map<u64, PartialV>;

    closed spec fn view(&self) -> Map<u64, PartialV> {
        self.partials@.map_values(|p: PartialManifest| p.view())
    }
}

impl ChunkAssembler {
    pub closed spec fn wf(&self) -> bool {
        forall|k: u64| #[trigger] self.partials@.dom().contains(k) ==> self.partials@[k].wf()
    }

    /// Every partial a well-formed assembler holds is valid.
    pub proof fn lemma_partials_valid(&self)
        requires
            self.wf(),
        ensures
            forall|k: u64| #[trigger] self@.dom().contains(k) ==> partial_valid(self@[k]),
    {
        assert forall|k: u64| #[trigger] self@.dom().contains(k) implies partial_valid(self@[k]) by {
            let pm = self.partials@[k];
            assert(pm.wf());
            lemma_keyed_map_len(pm.received@, chunk_key());
            assert forall|i: u64| #[trigger] pm.view().received.dom().contains(i) implies i < pm.chunk_count
                && pm.view().received[i].chunk_index == i by {
                let m = choose|m: int| 0 <= m < pm.received@.len() && chunk_key()(#[trigger] pm.received@[m]) == i;
                lemma_keyed_map_at(pm.received@, chunk_key(), m);
            }
        }
    }

    /// An assembler collecting nothing.
    pub fn new() -> (a: ChunkAssembler)
        ensures
            a.wf(),
            a@ == Map::<u64, PartialV>::empty(),
    {
        let a = ChunkAssembler { partials: HashMap::new() };
        assert(a@ =~= Map::<u64, PartialV>::empty());
        a
    }

    /// Takes one chunk of `origin_node_id`'s manifest; returns the whole
    /// manifest once its last chunk has arrived (see `spec_assemble`).
    #[verifier::spinoff_prover]
    #[verifier::rlimit(40)]
    pub fn insert(&mut self, origin_node_id: [u8; 8], chunk: NodeManifest) -> (r: Option<
        CompletedManifest,
    >)
        requires
            old(self).wf(),
        ensures
            final(self).wf(),
            final(self)@ == spec_assemble(old(self)@, spec_id_key(origin_node_id), chunk).0,
            completed_view(r) == spec_assemble(old(self)@, spec_id_key(origin_node_id), chunk).1,
    {
        broadcast use vstd::std_specs::hash::group_hash_axioms;

        let ghost old_parts = self@;
        if chunk.chunk_index >= chunk.chunk_count {
            return None;
        }
        let k = id_key(&origin_node_id);
        let taken = self.partials.remove(&k);
        proof {
            assert(self@ =~= old_parts.remove(k));
        }
        let p = match taken {
            Some(partial) => {
                proof {
                    assert(old_parts[k] == partial.view());
                }
                if partial.manifest_version == chunk.manifest_version {
                    if chunk.chunk_count != partial.chunk_count || chunk.flags != partial.flags {
                        return None;
                    }
                    let mut partial = partial;
                    partial.add(chunk);
                    partial
                } else {
                    PartialManifest::fresh(chunk)
                }
            },
            None => {
                proof {
                    assert(old_parts.remove(k) =~= old_parts);
                }
                PartialManifest::fresh(chunk)
            },
        };
        let ghost pv = p.view();
        proof {
            lemma_keyed_map_len(p.received@, chunk_key());
            assert(self@ == old_parts.remove(k));
            assert(pv == spec_assemble_partial(old_parts, k, chunk));
        }
        if p.received.len() < p.chunk_count as usize {
            self.partials.insert(k, p);
            proof {
                assert(self@ =~= old_parts.remove(k).insert(k, pv));
                assert(old_parts.remove(k).insert(k, pv) =~= old_parts.insert(k, pv));
            }
            return None;
        }
        let manifest_version = p.manifest_version;
        let flags = p.flags;
        let ghost cc = p.chunk_count;
        let chunks = p.received;
        proof {
            let rs = chunks@;
            if rs.len() > 0 {
                lemma_keys_at_least(rs, chunk_key(), rs.len() - 1);
            }
            assert(rs.len() == cc);
            lemma_dense_keys(rs, chunk_key());
            assert forall|j: int| 0 <= j < cc implies #[trigger] pv.received[j as u64] == rs[j] by {
                lemma_keyed_map_at(rs, chunk_key(), j);
            }
            assert(Seq::new(cc as nat, |j: int| pv.received[j as u64]) =~= rs);
        }
        let entries = collect_entries(&chunks);
        Some(CompletedManifest { manifest_version, flags, entries, chunks })
    }
}

/// The partial that a chunk of a known version turns into, before the
/// completeness test.
pub open spec fn spec_assemble_partial(parts: Map<u64, PartialV>, k: u64, c: NodeManifest) -> PartialV {
    if parts.dom().contains(k) && parts[k].manifest_version == c.manifest_version {
        PartialV {
            manifest_version: parts[k].manifest_version,
            chunk_count: parts[k].chunk_count,
            flags: parts[k].flags,
            received: parts[k].received.insert(c.chunk_index as u64, c),
        }
    } else {
        PartialV {
            manifest_version: c.manifest_version,
            chunk_count: c.chunk_count,
            flags: c.flags,
            received: Map::<u64, NodeManifest>::empty().insert(c.chunk_index as u64, c),
        }
    }
}

/// The chunk indexes of a manifest cut into `n` chunks.
pub open spec fn chunk_range(n: u8) -> Set<u64> {
    Set::new(|i: u64| i < n)
}

/// The indexes below `n` are `n` of them.
proof fn lemma_index_range_len(n: nat)
    requires
        n <= 256,
    ensures
        Set::new(|i: u64| i < n).finite(),
        Set::new(|i: u64| i < n).len() == n,
    decreases n,
{
    if n == 0 {
        assert(Set::new(|i: u64| i < n) =~= Set::<u64>::empty());
    } else {
        lemma_index_range_len((n - 1) as nat);
        let last = (n - 1) as u64;
        assert(Set::new(|i: u64| i < n) =~= Set::new(|i: u64| i < (n - 1) as nat).insert(last));
    }
}

/// What a partial holds is valid: finitely many chunks, each under its own
/// index, all below the count.
pub open spec fn partial_valid(p: PartialV) -> bool {
    &&& p.received.dom().finite()
    &&& forall|i: u64| #[trigger] p.received.dom().contains(i) ==> i < p.chunk_count && p.received[i].chunk_index == i
}

/// A partial is complete exactly when the indexes it holds cover every
/// chunk index.
pub proof fn lemma_complete_iff_covered(p: PartialV)
    requires
        partial_valid(p),
    ensures
        partial_complete(p) <==> p.received.dom() == chunk_range(p.chunk_count),
{
    let held = p.received.dom();
    let all = chunk_range(p.chunk_count);
    lemma_index_range_len(p.chunk_count as nat);
    assert(held.subset_of(all));
    vstd::set_lib::lemma_len_subset(held, all);
    if held != all {
        let x = choose|x: u64| all.contains(x) && !held.contains(x);
        assert(all.contains(x) && !held.contains(x)) by {
            if !(exists|x: u64| all.contains(x) && !held.contains(x)) {
                assert(held =~= all);
            }
        }
        assert(held.subset_of(all.remove(x)));
        vstd::set_lib::lemma_len_subset(held, all.remove(x));
    }
}

/// Inserting a chunk completes a manifest exactly when the indexes held
/// for its version, with its own, cover every chunk index; the completed
/// manifest has the chunk's version and flags, its chunks in index order
/// with their entries one after the other, and no partial stays behind.
pub proof fn lemma_assembly_completes_on_cover(parts: Map<u64, PartialV>, k: u64, c: NodeManifest)
    requires
        c.chunk_index < c.chunk_count,
        !(parts.dom().contains(k) && parts[k].manifest_version == c.manifest_version && (c.chunk_count
            != parts[k].chunk_count || c.flags != parts[k].flags)),
        parts.dom().contains(k) ==> partial_valid(parts[k]),
    ensures
        ({
            let held = if parts.dom().contains(k) && parts[k].manifest_version == c.manifest_version {
                parts[k].received.dom()
            } else {
                Set::<u64>::empty()
            };
            let (after, done) = spec_assemble(parts, k, c);
            &&& done is Some <==> held.insert(c.chunk_index as u64) == chunk_range(c.chunk_count)
            &&& done matches Some(m) ==> {
                &&& m.manifest_version == c.manifest_version
                &&& m.flags == c.flags
                &&& m.chunks.len() == c.chunk_count
                &&& forall|i: int| 0 <= i < m.chunks.len() ==> (#[trigger] m.chunks[i]).chunk_index == i
                &&& m.entries == chunks_entries(m.chunks)
                &&& !after.dom().contains(k)
            }
        }),
{
    let p = spec_assemble_partial(parts, k, c);
    assert(p.received.dom() =~= (if parts.dom().contains(k) && parts[k].manifest_version == c.manifest_version {
        parts[k].received.dom()
    } else {
        Set::<u64>::empty()
    }).insert(c.chunk_index as u64));
    assert(partial_valid(p));
    lemma_complete_iff_covered(p);
    if partial_complete(p) {
        let m = partial_completed(p);
        assert forall|i: int| 0 <= i < m.chunks.len() implies (#[trigger] m.chunks[i]).chunk_index == i by {
            assert(chunk_range(p.chunk_count).contains(i as u64));
            assert(p.received.dom().contains(i as u64));
        }
    }
}

/// The model of an optional completed manifest.
pub open spec fn completed_view(r: Option<CompletedManifest>) -> Option<CompletedV> {
    match r {
        Some(c) => Some(c@),
        None => None,
    }
}

/// The entries of `chunks`, one chunk after the other.
fn collect_entries(chunks: &Vec<NodeManifest>) -> (entries: Vec<ManifestEntry>)
    ensures
        entries@ == chunks_entries(chunks@),
{
    let mut entries: Vec<ManifestEntry> = Vec::new();
    let mut i = 0usize;
    while i < chunks.len()
        invariant
            i <= chunks@.len(),
            entries@ == chunks_entries(chunks@.take(i as int)),
        decreases chunks@.len() - i,
    {
        let ghost before = entries@;
        let src = &chunks[i].entries;
        let mut j = 0usize;
        while j < src.len()
            invariant
                j <= src@.len(),
                entries@ == before + src@.take(j as int),
            decreases src@.len() - j,
        {
            entries.push(src[j]);
            proof {
                assert(src@.take(j as int + 1) =~= src@.take(j as int).push(src@[j as int]));
            }
            j += 1;
        }
        proof {
            let next = chunks@.take(i as int + 1);
            assert(next.drop_last() =~= chunks@.take(i as int));
            assert(src@.take(j as int) =~= src@);
        }
        i += 1;
    }
    proof {
        assert(chunks@.take(chunks@.len() as int) =~= chunks@);
    }
    entries
}

} // verus!
