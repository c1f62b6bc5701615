//! A node's manifest: the users that delegated to it, the per-origin
//! delta log, and serve-side decisions.

pub mod log;
pub mod origin;
pub mod serve;
pub mod own;

use vstd::prelude::*;

use crate::codec::messages::{
    encode_manifest_entry_section, manifest_entries_bytes, manifest_entries_view, DeltaAdd,
    DeltaRemove, ManifestDelta, ManifestEntry, NodeManifest,
};
use crate::identity::{
    sign_with_host, signature_verifies, spec_chunk_signing_input, spec_delegation_signing_input,
    delegation_signing_input, ChunkSigningCtx, Multikey, SigningKeys,
};
use crate::keyed::{id_key, lemma_id_key_injective, spec_id_key};
use crate::manifest::log::LogRecord;

verus! {

/// Bytes of one manifest entry on the wire.
pub const ENTRY_BYTES: usize = 84;

/// Bytes of a NODE_MANIFEST body besides its entries.
pub const HEADER_OVERHEAD: usize = 85;

/// The largest body a manifest message may have.
pub const MAX_BODY: usize = 61440;

/// Bytes of one add in a MANIFEST_DELTA.
pub const DELTA_ADD_BYTES: usize = 88;

/// Bytes of one remove in a MANIFEST_DELTA.
pub const DELTA_REMOVE_BYTES: usize = 12;

/// Bytes of a MANIFEST_DELTA body besides its adds and removes.
pub const DELTA_OVERHEAD: usize = 89;

/// Why a manifest could not be signed into chunks.
#[derive(Debug, Clone, Copy, PartialEq, Eq, Structural)]
pub enum ManifestError {
    /// the signing key refused to sign
    SigningFailed,
    /// the entries need more than 256 chunks
    TooManyChunks,
}

/// Why a received manifest or entry was refused.
#[derive(Debug, Clone, Copy, PartialEq, Eq, Structural)]
pub enum VerifyError {
    /// the signature does not verify
    SignatureInvalid,
}

/// Why a MANIFEST_DELTA was not built.
#[derive(Debug, Clone, Copy, PartialEq, Eq, Structural)]
pub enum BuildError {
    /// the delta body would exceed the 60 KiB bound; a full manifest is
    /// served instead
    WouldExceedSizeLimit,
}

impl ManifestError {
    /// The message that describes the error.
    pub fn message(&self) -> (s: &'static str)
        ensures
            *self is SigningFailed ==> s@ == "failed to sign the input"@,
            *self is TooManyChunks ==> s@ == "too many chunks to add to this batch"@,
    {
        match self {
            ManifestError::SigningFailed => "failed to sign the input",
            ManifestError::TooManyChunks => "too many chunks to add to this batch",
        }
    }
}

impl VerifyError {
    /// The message that describes the error.
    pub fn message(&self) -> (s: &'static str)
        ensures
            s@ == "signature does not verify"@,
    {
        match self {
            VerifyError::SignatureInvalid => "signature does not verify",
        }
    }
}

impl BuildError {
    /// The message that describes the error.
    pub fn message(&self) -> (s: &'static str)
        ensures
            s@ == "delta body would exceed the 60 KiB bound; serve a full manifest instead"@,
    {
        match self {
            BuildError::WouldExceedSizeLimit => "delta body would exceed the 60 KiB bound; serve a full manifest instead",
        }
    }
}

// ---------- ordering of entries ----------

/// The order key of an entry: the key of its user id.
pub open spec fn entry_key(e: ManifestEntry) -> u64 {
    spec_id_key(e.user_id)
}

/// Entries ascend by user id; equal ids may repeat.
pub open spec fn sorted_by_user(s: Seq<ManifestEntry>) -> bool {
    forall|i: int, j: int| 0 <= i < j < s.len() ==> entry_key(#[trigger] s[i]) <= entry_key(#[trigger] s[j])
}

/// `x` placed after every entry whose key is at most its own: the step
/// of a stable insertion sort.
pub open spec fn sorted_insert(s: Seq<ManifestEntry>, x: ManifestEntry) -> Seq<ManifestEntry>
    decreases s.len(),
{
    if s.len() == 0 {
        seq![x]
    } else if entry_key(s.last()) <= entry_key(x) {
        s.push(x)
    } else {
        sorted_insert(s.drop_last(), x).push(s.last())
    }
}

/// The entries sorted by user id, entries with equal ids kept in their
/// given order.
pub open spec fn sort_by_user(s: Seq<ManifestEntry>) -> Seq<ManifestEntry>
    decreases s.len(),
{
    if s.len() == 0 {
        seq![]
    } else {
        sorted_insert(sort_by_user(s.drop_last()), s.last())
    }
}

/// The number of entries whose key lies below `k`; in a sorted run it is
/// the position of the first entry with key `k` or above.
pub open spec fn count_below(s: Seq<ManifestEntry>, k: u64) -> nat
    decreases s.len(),
{
    if s.len() == 0 {
        0
    } else {
        count_below(s.drop_last(), k) + if entry_key(s.last()) < k {
            1nat
        } else {
            0nat
        }
    }
}

/// Two entries of one user that carry the same delegation.
pub open spec fn same_delegation(a: ManifestEntry, b: ManifestEntry) -> bool {
    &&& a.timeout == b.timeout
    &&& a.entry_signature == b.entry_signature
    &&& a.profile_version == b.profile_version
}

/// Inserting or replacing the entry of `e`'s user: the new entries and
/// whether they changed.
pub open spec fn spec_upsert(s: Seq<ManifestEntry>, e: ManifestEntry) -> (Seq<ManifestEntry>, bool) {
    let p = count_below(s, entry_key(e)) as int;
    if p < s.len() && entry_key(s[p]) == entry_key(e) {
        if same_delegation(s[p], e) {
            (s, false)
        } else {
            (s.update(p, e), true)
        }
    } else {
        (s.insert(p, e), true)
    }
}

/// Removing the entry of `user_id`: the new entries and whether one was
/// there.
pub open spec fn spec_remove(s: Seq<ManifestEntry>, user_id: [u8; 8]) -> (Seq<ManifestEntry>, bool) {
    let p = count_below(s, spec_id_key(user_id)) as int;
    if p < s.len() && entry_key(s[p]) == spec_id_key(user_id) {
        (s.remove(p), true)
    } else {
        (s, false)
    }
}

/// In a sorted run, a position that splits the keys below `k` from the
/// others is the count of keys below `k`.
pub proof fn lemma_count_below_at(s: Seq<ManifestEntry>, k: u64, p: int)
    requires
        0 <= p <= s.len(),
        forall|j: int| 0 <= j < p ==> entry_key(#[trigger] s[j]) < k,
        forall|j: int| p <= j < s.len() ==> entry_key(#[trigger] s[j]) >= k,
    ensures
        count_below(s, k) == p,
    decreases s.len(),
{
    if s.len() > 0 {
        let t = s.drop_last();
        if p == s.len() {
            assert(entry_key(s[p - 1]) < k);
            lemma_count_below_at(t, k, p - 1);
        } else {
            assert(entry_key(s[s.len() - 1]) >= k);
            lemma_count_below_at(t, k, p);
        }
    }
}

/// In a sorted run the count of keys below `k` splits the keys below
/// `k` from the others.
pub proof fn lemma_count_below_splits(s: Seq<ManifestEntry>, k: u64)
    requires
        sorted_by_user(s),
    ensures
        count_below(s, k) <= s.len(),
        forall|j: int| 0 <= j < count_below(s, k) ==> entry_key(#[trigger] s[j]) < k,
        forall|j: int| count_below(s, k) <= j < s.len() ==> entry_key(#[trigger] s[j]) >= k,
    decreases s.len(),
{
    if s.len() > 0 {
        let d = s.drop_last();
        assert forall|i: int, j: int| 0 <= i < j < d.len() implies entry_key(#[trigger] d[i]) <= entry_key(
            #[trigger] d[j],
        ) by {
            assert(entry_key(s[i]) <= entry_key(s[j]));
        }
        lemma_count_below_splits(d, k);
        let c = count_below(s, k);
        if entry_key(s.last()) < k {
            assert forall|j: int| 0 <= j < c implies entry_key(#[trigger] s[j]) < k by {
                if j < d.len() {
                    assert(entry_key(s[j]) <= entry_key(s[s.len() - 1]));
                }
            }
        } else {
            assert forall|j: int| 0 <= j < c implies entry_key(#[trigger] s[j]) < k by {
                assert(s[j] == d[j]);
            }
            assert forall|j: int| c <= j < s.len() implies entry_key(#[trigger] s[j]) >= k by {
                if j < d.len() {
                    assert(s[j] == d[j]);
                }
            }
        }
    }
}

/// An upsert reports a change exactly when the entries differ afterwards.
pub proof fn lemma_upsert_reports_change(s: Seq<ManifestEntry>, e: ManifestEntry)
    requires
        sorted_by_user(s),
    ensures
        spec_upsert(s, e).1 <==> spec_upsert(s, e).0 != s,
{
    lemma_count_below_splits(s, entry_key(e));
    let p = count_below(s, entry_key(e)) as int;
    if p < s.len() && entry_key(s[p]) == entry_key(e) {
        if same_delegation(s[p], e) {
            lemma_id_key_injective(s[p].user_id, e.user_id);
        } else {
            assert(s.update(p, e)[p] != s[p]);
        }
    } else {
        assert(s.insert(p, e).len() != s.len());
    }
}

/// After an upsert the manifest holds the given entry.
pub proof fn lemma_upsert_holds_entry(s: Seq<ManifestEntry>, e: ManifestEntry)
    requires
        sorted_by_user(s),
    ensures
        spec_upsert(s, e).0.contains(e),
{
    lemma_count_below_splits(s, entry_key(e));
    let p = count_below(s, entry_key(e)) as int;
    if p < s.len() && entry_key(s[p]) == entry_key(e) {
        if same_delegation(s[p], e) {
            lemma_id_key_injective(s[p].user_id, e.user_id);
            assert(s[p] == e);
        } else {
            assert(s.update(p, e)[p] == e);
        }
    } else {
        s.insert_ensures(p, e);
        assert(s.insert(p, e)[p] == e);
    }
}

/// Removing a user that an upsert just added gives back the entries as
/// they were.
#[verifier::spinoff_prover]
#[verifier::rlimit(30)]
pub proof fn lemma_remove_undoes_upsert(s: Seq<ManifestEntry>, e: ManifestEntry)
    requires
        sorted_by_user(s),
        forall|j: int| 0 <= j < s.len() ==> entry_key(#[trigger] s[j]) != entry_key(e),
    ensures
        spec_remove(spec_upsert(s, e).0, e.user_id) == (s, true),
{
    let k = entry_key(e);
    lemma_count_below_splits(s, k);
    let p = count_below(s, k) as int;
    let t = s.insert(p, e);
    s.insert_ensures(p, e);
    assert(spec_upsert(s, e).0 == t);
    assert forall|j: int| 0 <= j < p implies entry_key(#[trigger] t[j]) < k by {
        assert(t[j] == s[j]);
    }
    assert forall|j: int| p <= j < t.len() implies entry_key(#[trigger] t[j]) >= k by {
        if j > p {
            assert(t[j] == s[j - 1]);
        }
    }
    lemma_count_below_at(t, k, p);
    assert(t.remove(p) =~= s);
}

/// Inserting at the first position whose key exceeds `x`'s is the sort
/// step, and keeps the run sorted.
#[verifier::spinoff_prover]
proof fn lemma_sorted_insert_at(s: Seq<ManifestEntry>, x: ManifestEntry, p: int)
    requires
        sorted_by_user(s),
        0 <= p <= s.len(),
        p > 0 ==> entry_key(s[p - 1]) <= entry_key(x),
        forall|j: int| p <= j < s.len() ==> entry_key(x) < entry_key(#[trigger] s[j]),
    ensures
        sorted_insert(s, x) == s.insert(p, x),
        sorted_by_user(s.insert(p, x)),
    decreases s.len(),
{
    let t = s.insert(p, x);
    s.insert_ensures(p, x);
    assert forall|i: int, j: int| 0 <= i < j < t.len() implies entry_key(#[trigger] t[i]) <= entry_key(
        #[trigger] t[j],
    ) by {
        if j < p {
        } else if j == p {
            if i < p - 1 {
                assert(entry_key(s[i]) <= entry_key(s[p - 1]));
            }
        } else if i < p {
            assert(t[j] == s[j - 1]);
        } else if i == p {
            assert(t[j] == s[j - 1]);
        } else {
            assert(t[i] == s[i - 1]);
            assert(t[j] == s[j - 1]);
        }
    }
    if s.len() > 0 {
        if p == s.len() {
            assert(s.push(x) =~= t);
        } else {
            let d = s.drop_last();
            lemma_sorted_insert_at(d, x, p);
            assert(d.insert(p, x).push(s.last()) =~= t);
        }
    } else {
        assert(seq![x] =~= t);
    }
}

/// The sort step adds exactly `x` to the entries.
proof fn lemma_sorted_insert_multiset(s: Seq<ManifestEntry>, x: ManifestEntry)
    ensures
        sorted_insert(s, x).to_multiset() =~= s.to_multiset().insert(x),
    decreases s.len(),
{
    broadcast use vstd::seq_lib::group_to_multiset_ensures;

    if s.len() > 0 && entry_key(s.last()) > entry_key(x) {
        let d = s.drop_last();
        lemma_sorted_insert_multiset(d, x);
        assert(d.push(s.last()) =~= s);
    } else if s.len() == 0 {
        assert(seq![x] =~= Seq::<ManifestEntry>::empty().push(x));
    }
}

/// Sorting keeps every entry, as many times as it was given.
pub proof fn lemma_sort_by_user_permutes(s: Seq<ManifestEntry>)
    ensures
        sort_by_user(s).to_multiset() =~= s.to_multiset(),
    decreases s.len(),
{
    broadcast use vstd::seq_lib::group_to_multiset_ensures;

    if s.len() > 0 {
        let d = s.drop_last();
        lemma_sort_by_user_permutes(d);
        lemma_sorted_insert_multiset(sort_by_user(d), s.last());
        assert(d.push(s.last()) =~= s);
    }
}

/// The sort step keeps a sorted run sorted, adds one entry, and every
/// entry it holds is `x` or one of the run's.
proof fn lemma_sorted_insert_sorted(s: Seq<ManifestEntry>, x: ManifestEntry)
    requires
        sorted_by_user(s),
    ensures
        sorted_by_user(sorted_insert(s, x)),
        sorted_insert(s, x).len() == s.len() + 1,
        forall|i: int|
            0 <= i < sorted_insert(s, x).len() ==> #[trigger] sorted_insert(s, x)[i] == x || s.contains(
                sorted_insert(s, x)[i],
            ),
    decreases s.len(),
{
    let r = sorted_insert(s, x);
    if s.len() == 0 {
        assert(r == seq![x]);
    } else if entry_key(s.last()) <= entry_key(x) {
        assert(r == s.push(x));
        assert forall|i: int, j: int| 0 <= i < j < r.len() implies entry_key(#[trigger] r[i]) <= entry_key(
            #[trigger] r[j],
        ) by {
            if j == s.len() {
                if i < s.len() - 1 {
                    assert(entry_key(s[i]) <= entry_key(s[s.len() - 1]));
                }
            }
        }
        assert forall|i: int| 0 <= i < r.len() implies #[trigger] r[i] == x || s.contains(r[i]) by {
            if i < s.len() {
                assert(s[i] == r[i]);
            }
        }
    } else {
        let d = s.drop_last();
        assert forall|i: int, j: int| 0 <= i < j < d.len() implies entry_key(#[trigger] d[i]) <= entry_key(
            #[trigger] d[j],
        ) by {
            assert(entry_key(s[i]) <= entry_key(s[j]));
        }
        lemma_sorted_insert_sorted(d, x);
        let m = sorted_insert(d, x);
        assert(r == m.push(s.last()));
        assert forall|i: int| 0 <= i < m.len() implies entry_key(#[trigger] m[i]) <= entry_key(s.last()) by {
            if m[i] != x {
                let k = choose|k: int| 0 <= k < d.len() && d[k] == m[i];
                assert(entry_key(s[k]) <= entry_key(s[s.len() - 1]));
            }
        }
        assert forall|i: int, j: int| 0 <= i < j < r.len() implies entry_key(#[trigger] r[i]) <= entry_key(
            #[trigger] r[j],
        ) by {
            if j == m.len() {
                assert(entry_key(m[i]) <= entry_key(s.last()));
            } else {
                assert(entry_key(m[i]) <= entry_key(m[j]));
            }
        }
        assert forall|i: int| 0 <= i < r.len() implies #[trigger] r[i] == x || s.contains(r[i]) by {
            if i < m.len() {
                assert(r[i] == m[i]);
                if m[i] != x {
                    let k = choose|k: int| 0 <= k < d.len() && d[k] == m[i];
                    assert(s[k] == d[k]);
                }
            } else {
                assert(r[i] == s[s.len() - 1]);
            }
        }
    }
}

/// Sorting by user id gives entries ascending by user id.
pub proof fn lemma_sort_by_user_sorted(s: Seq<ManifestEntry>)
    ensures
        sorted_by_user(sort_by_user(s)),
    decreases s.len(),
{
    if s.len() > 0 {
        lemma_sort_by_user_sorted(s.drop_last());
        lemma_sorted_insert_sorted(sort_by_user(s.drop_last()), s.last());
    }
}

/// No two entries share a user id, and they ascend by it.
pub open spec fn strictly_sorted_by_user(s: Seq<ManifestEntry>) -> bool {
    forall|i: int, j: int| 0 <= i < j < s.len() ==> entry_key(#[trigger] s[i]) < entry_key(#[trigger] s[j])
}

/// An upsert keeps entries that ascend strictly by user id ascending
/// strictly: one entry per user.
pub proof fn lemma_upsert_keeps_strict_order(s: Seq<ManifestEntry>, e: ManifestEntry)
    requires
        strictly_sorted_by_user(s),
    ensures
        strictly_sorted_by_user(spec_upsert(s, e).0),
{
    assert(sorted_by_user(s)) by {
        assert forall|i: int, j: int| 0 <= i < j < s.len() implies entry_key(#[trigger] s[i]) <= entry_key(
            #[trigger] s[j],
        ) by {
            assert(entry_key(s[i]) < entry_key(s[j]));
        }
    }
    lemma_count_below_splits(s, entry_key(e));
    let p = count_below(s, entry_key(e)) as int;
    let t = spec_upsert(s, e).0;
    if p < s.len() && entry_key(s[p]) == entry_key(e) {
        if !same_delegation(s[p], e) {
            assert forall|i: int, j: int| 0 <= i < j < t.len() implies entry_key(#[trigger] t[i]) < entry_key(
                #[trigger] t[j],
            ) by {
                assert(entry_key(s[i]) < entry_key(s[j]));
            }
        }
    } else {
        s.insert_ensures(p, e);
        assert forall|i: int, j: int| 0 <= i < j < t.len() implies entry_key(#[trigger] t[i]) < entry_key(
            #[trigger] t[j],
        ) by {
            if j < p {
                assert(entry_key(s[i]) < entry_key(s[j]));
            } else if j == p {
            } else if i < p {
                assert(t[j] == s[j - 1]);
            } else if i == p {
                assert(t[j] == s[j - 1]);
                assert(entry_key(s[p]) >= entry_key(e));
                if j - 1 > p {
                    assert(entry_key(s[p]) < entry_key(s[j - 1]));
                }
            } else {
                assert(t[i] == s[i - 1]);
                assert(t[j] == s[j - 1]);
                assert(entry_key(s[i - 1]) < entry_key(s[j - 1]));
            }
        }
    }
}

/// With one entry per user, an upsert leaves the entries unchanged exactly
/// when the user already holds the same delegation; otherwise the user's
/// entry is replaced by, or a new slot holds, the given entry. Every entry
/// of another user stays, and nothing else is held afterwards.
#[verifier::spinoff_prover]
pub proof fn lemma_upsert_contents(s: Seq<ManifestEntry>, e: ManifestEntry)
    requires
        strictly_sorted_by_user(s),
    ensures
        !spec_upsert(s, e).1 <==> exists|i: int|
            #![trigger s[i]]
            0 <= i < s.len() && s[i].user_id == e.user_id && same_delegation(s[i], e),
        !spec_upsert(s, e).1 ==> spec_upsert(s, e).0 == s,
        spec_upsert(s, e).0.contains(e),
        forall|i: int| 0 <= i < s.len() && s[i].user_id != e.user_id ==> spec_upsert(s, e).0.contains(#[trigger] s[i]),
        forall|x: ManifestEntry| #[trigger] spec_upsert(s, e).0.contains(x) ==> x == e || (s.contains(x) && x.user_id != e.user_id),
{
    let k = entry_key(e);
    assert(sorted_by_user(s)) by {
        assert forall|i: int, j: int| 0 <= i < j < s.len() implies entry_key(#[trigger] s[i]) <= entry_key(
            #[trigger] s[j],
        ) by {
            assert(entry_key(s[i]) < entry_key(s[j]));
        }
    }
    lemma_count_below_splits(s, k);
    lemma_upsert_holds_entry(s, e);
    let p = count_below(s, k) as int;
    let r = spec_upsert(s, e).0;
    assert forall|i: int| 0 <= i < s.len() && s[i].user_id == e.user_id implies entry_key(#[trigger] s[i]) == k by {}
    if p < s.len() && entry_key(s[p]) == k {
        lemma_id_key_injective(s[p].user_id, e.user_id);
        assert forall|i: int| 0 <= i < s.len() && i != p implies (#[trigger] s[i]).user_id != e.user_id by {
            if i < p {
                assert(entry_key(s[i]) < entry_key(s[p]));
            } else {
                assert(entry_key(s[p]) < entry_key(s[i]));
            }
        }
        if same_delegation(s[p], e) {
            assert(s[p] == e);
            assert forall|x: ManifestEntry| #[trigger] r.contains(x) implies x == e || (s.contains(x)
                && x.user_id != e.user_id) by {
                let j = choose|j: int| 0 <= j < r.len() && r[j] == x;
                if j != p {
                    assert(s[j].user_id != e.user_id);
                }
            }
        } else {
            assert(r == s.update(p, e));
            assert forall|i: int| 0 <= i < s.len() && s[i].user_id != e.user_id implies r.contains(#[trigger] s[i]) by {
                assert(r[i] == s[i]);
            }
            assert forall|x: ManifestEntry| #[trigger] r.contains(x) implies x == e || (s.contains(x)
                && x.user_id != e.user_id) by {
                let j = choose|j: int| 0 <= j < r.len() && r[j] == x;
                if j != p {
                    assert(r[j] == s[j]);
                    assert(s[j].user_id != e.user_id);
                }
            }
            assert(!(exists|i: int|
                #![trigger s[i]]
                0 <= i < s.len() && s[i].user_id == e.user_id && same_delegation(s[i], e)));
        }
    } else {
        s.insert_ensures(p, e);
        assert(r == s.insert(p, e));
        assert forall|i: int| 0 <= i < s.len() implies (#[trigger] s[i]).user_id != e.user_id by {
            if i < p {
                assert(entry_key(s[i]) < k);
            } else if i == p {
                assert(entry_key(s[p]) != k);
            } else {
                assert(entry_key(s[p]) < entry_key(s[i]));
                assert(entry_key(s[p]) >= k);
            }
        }
        assert forall|i: int| 0 <= i < s.len() && s[i].user_id != e.user_id implies r.contains(#[trigger] s[i]) by {
            if i < p {
                assert(r[i] == s[i]);
            } else {
                assert(r[i + 1] == s[i]);
            }
        }
        assert forall|x: ManifestEntry| #[trigger] r.contains(x) implies x == e || (s.contains(x)
            && x.user_id != e.user_id) by {
            let j = choose|j: int| 0 <= j < r.len() && r[j] == x;
            if j < p {
                assert(r[j] == s[j]);
            } else if j > p {
                assert(r[j] == s[j - 1]);
            }
        }
    }
}

/// Whether two 64-byte arrays hold the same bytes.
fn same_bytes64(a: &[u8; 64], b: &[u8; 64]) -> (r: bool)
    ensures
        r == (*a == *b),
{
    let mut i = 0usize;
    while i < 64
        invariant
            i <= 64,
            forall|j: int| 0 <= j < i ==> a@[j] == b@[j],
        decreases 64 - i,
    {
        if a[i] != b[i] {
            return false;
        }
        i += 1;
    }
    assert(a@ =~= b@);
    assert(*a =~= *b);
    true
}

/// The first position whose key is at least `k`.
fn lower_bound(entries: &Vec<ManifestEntry>, k: u64) -> (p: usize)
    requires
        sorted_by_user(entries@),
    ensures
        p <= entries@.len(),
        p == count_below(entries@, k),
        forall|j: int| 0 <= j < p ==> entry_key(#[trigger] entries@[j]) < k,
        forall|j: int| p <= j < entries@.len() ==> entry_key(#[trigger] entries@[j]) >= k,
{
    let n = entries.len();
    let mut lo = 0usize;
    let mut hi = n;
    while lo < hi
        invariant
            n == entries@.len(),
            lo <= hi <= n,
            sorted_by_user(entries@),
            forall|j: int| 0 <= j < lo ==> entry_key(#[trigger] entries@[j]) < k,
            forall|j: int| hi <= j < n ==> entry_key(#[trigger] entries@[j]) >= k,
        decreases hi - lo,
    {
        let mid = lo + (hi - lo) / 2;
        if id_key(&entries[mid].user_id) < k {
            proof {
                assert forall|j: int| 0 <= j <= mid implies entry_key(#[trigger] entries@[j]) < k by {
                    if j < mid {
                        assert(entry_key(entries@[j]) <= entry_key(entries@[mid as int]));
                    }
                }
            }
            lo = mid + 1;
        } else {
            proof {
                assert forall|j: int| mid <= j < n implies entry_key(#[trigger] entries@[j]) >= k by {
                    if j > mid {
                        assert(entry_key(entries@[mid as int]) <= entry_key(entries@[j]));
                    }
                }
            }
            hi = mid;
        }
    }
    proof {
        lemma_count_below_at(entries@, k, lo as int);
    }
    lo
}


/// Inserts or replaces the entry of `entry`'s user in a sorted run;
/// returns whether the run changed.
pub(crate) fn upsert_sorted(entries: &mut Vec<ManifestEntry>, entry: ManifestEntry) -> (changed: bool)
    requires
        sorted_by_user(old(entries)@),
    ensures
        sorted_by_user(final(entries)@),
        (final(entries)@, changed) == spec_upsert(old(entries)@, entry),
{
    let ghost s = entries@;
    let k = id_key(&entry.user_id);
    let i = lower_bound(entries, k);
    if i < entries.len() && id_key(&entries[i].user_id) == k {
        let existing = entries[i];
        if existing.timeout == entry.timeout && same_bytes64(&existing.entry_signature, &entry.entry_signature)
            && existing.profile_version == entry.profile_version {
            return false;
        }
        entries.set(i, entry);
        proof {
            assert forall|a: int, b: int| 0 <= a < b < entries@.len() implies entry_key(
                #[trigger] entries@[a],
            ) <= entry_key(#[trigger] entries@[b]) by {
                assert(entry_key(s[a]) <= entry_key(s[b]));
            }
        }
        true
    } else {
        proof {
            let p = i as int;
            if p > 0 {
                assert(entry_key(s[p - 1]) < k);
            }
            assert forall|j: int| p <= j < s.len() implies k < entry_key(#[trigger] s[j]) by {
                if j > p {
                    assert(entry_key(s[p]) <= entry_key(s[j]));
                }
            }
            lemma_sorted_insert_at(s, entry, p);
        }
        entries.insert(i, entry);
        true
    }
}

/// A node's manifest: the users that delegated to it, ascending by user
/// id, with the version and signature of the state last published.
#[derive(Debug)]
pub struct Manifest {
    manifest_version: u32,
    is_gateway: bool,
    entries: Vec<ManifestEntry>,
    manifest_signature: Option<[u8; 64]>,
    retained_chunks: Option<Vec<NodeManifest>>,
}

/// The entries sorted by user id; entries of one user keep their given
/// order.
pub fn sort_entries(entries: Vec<ManifestEntry>) -> (r: Vec<ManifestEntry>)
    ensures
        r@ == sort_by_user(entries@),
        sorted_by_user(r@),
{
    let mut out: Vec<ManifestEntry> = Vec::new();
    let n = entries.len();
    let mut i = 0usize;
    while i < n
        invariant
            n == entries@.len(),
            i <= n,
            out@ == sort_by_user(entries@.take(i as int)),
            sorted_by_user(out@),
        decreases n - i,
    {
        let x = entries[i];
        let kx = id_key(&x.user_id);
        let mut j = out.len();
        while j > 0 && id_key(&out[j - 1].user_id) > kx
            invariant
                j <= out@.len(),
                kx == entry_key(x),
                forall|m: int| j <= m < out@.len() ==> kx < entry_key(#[trigger] out@[m]),
            decreases j,
        {
            j -= 1;
        }
        proof {
            lemma_sorted_insert_at(out@, x, j as int);
            let next = entries@.take(i as int + 1);
            assert(next.drop_last() =~= entries@.take(i as int));
            assert(next.last() == x);
        }
        out.insert(j, x);
        i += 1;
    }
    proof {
        assert(entries@.take(n as int) =~= entries@);
    }
    out
}

impl Manifest {
    pub closed spec fn spec_manifest_version(&self) -> u32 {
        self.manifest_version
    }

    pub closed spec fn spec_is_gateway(&self) -> bool {
        self.is_gateway
    }

    pub closed spec fn spec_manifest_signature(&self) -> Option<[u8; 64]> {
        self.manifest_signature
    }

    pub closed spec fn spec_retained_chunks(&self) -> Option<Vec<NodeManifest>> {
        self.retained_chunks
    }
    /// The entries, ascending by user id.
    pub closed spec fn spec_entries(&self) -> Seq<ManifestEntry> {
        self.entries@
    }

    pub closed spec fn wf(&self) -> bool {
        sorted_by_user(self.entries@)
    }

    /// The committed version.
    pub fn manifest_version(&self) -> (r: u32)
        ensures
            r == self.spec_manifest_version(),
    {
        self.manifest_version
    }

    /// Whether this node declares itself a gateway.
    pub fn is_gateway(&self) -> (r: bool)
        ensures
            r == self.spec_is_gateway(),
    {
        self.is_gateway
    }

    /// The signature of the whole entry set, where there is one.
    pub fn manifest_signature(&self) -> (r: Option<[u8; 64]>)
        ensures
            r == self.spec_manifest_signature(),
    {
        self.manifest_signature
    }

    /// The signed chunks kept to be served as they are, where there are
    /// any.
    pub fn retained_chunks(&self) -> (r: &Option<Vec<NodeManifest>>)
        ensures
            *r == self.spec_retained_chunks(),
    {
        &self.retained_chunks
    }

    /// Sets the committed version.
    pub fn set_manifest_version(&mut self, version: u32)
        ensures
            final(self).spec_manifest_version() == version,
            final(self).spec_is_gateway() == old(self).spec_is_gateway(),
            final(self).spec_manifest_signature() == old(self).spec_manifest_signature(),
            final(self).spec_retained_chunks() == old(self).spec_retained_chunks(),
            final(self).spec_entries() == old(self).spec_entries(),
            final(self).wf() == old(self).wf(),
    {
        self.manifest_version = version;
    }

    /// Stores the signature of the whole entry set and the signed chunks.
    pub fn set_signed(&mut self, signature: Option<[u8; 64]>, chunks: Option<Vec<NodeManifest>>)
        ensures
            final(self).spec_manifest_signature() == signature,
            final(self).spec_retained_chunks() == chunks,
            final(self).spec_manifest_version() == old(self).spec_manifest_version(),
            final(self).spec_is_gateway() == old(self).spec_is_gateway(),
            final(self).spec_entries() == old(self).spec_entries(),
            final(self).wf() == old(self).wf(),
    {
        self.manifest_signature = signature;
        self.retained_chunks = chunks;
    }

    /// The empty manifest at version 0.
    pub fn new() -> (m: Manifest)
        ensures
            m.wf(),
            m.spec_manifest_version() == 0,
            !m.spec_is_gateway(),
            m.spec_entries() == Seq::<ManifestEntry>::empty(),
            m.spec_manifest_signature() is None,
            m.spec_retained_chunks() is None,
    {
        Manifest {
            manifest_version: 0,
            is_gateway: false,
            entries: Vec::new(),
            manifest_signature: None,
            retained_chunks: None,
        }
    }

    /// The entries, ascending by user id.
    pub fn entries(&self) -> (r: &[ManifestEntry])
        ensures
            r@ == self.spec_entries(),
    {
        self.entries.as_slice()
    }

    /// Replaces the entries with `entries` sorted by user id; entries of
    /// one user keep their given order.
    pub fn set_entries(&mut self, entries: Vec<ManifestEntry>)
        ensures
            final(self).wf(),
            final(self).spec_manifest_version() == old(self).spec_manifest_version(),
            final(self).spec_is_gateway() == old(self).spec_is_gateway(),
            final(self).spec_manifest_signature() == old(self).spec_manifest_signature(),
            final(self).spec_retained_chunks() == old(self).spec_retained_chunks(),
            final(self).spec_entries() == sort_by_user(entries@),
    {
        self.entries = sort_entries(entries);
    }

    /// Sets whether this node serves as a gateway.
    pub fn set_gateway(&mut self, is_gateway: bool)
        ensures
            final(self).spec_is_gateway() == is_gateway,
            final(self).spec_manifest_version() == old(self).spec_manifest_version(),
            final(self).spec_manifest_signature() == old(self).spec_manifest_signature(),
            final(self).spec_retained_chunks() == old(self).spec_retained_chunks(),
            final(self).spec_entries() == old(self).spec_entries(),
            final(self).wf() == old(self).wf(),
    {
        self.is_gateway = is_gateway;
    }

    /// Inserts or replaces the entry of `entry`'s user; returns whether
    /// the stored entries changed.
    pub fn upsert_entry(&mut self, entry: ManifestEntry) -> (changed: bool)
        requires
            old(self).wf(),
        ensures
            final(self).wf(),
            final(self).spec_manifest_version() == old(self).spec_manifest_version(),
            final(self).spec_is_gateway() == old(self).spec_is_gateway(),
            final(self).spec_manifest_signature() == old(self).spec_manifest_signature(),
            final(self).spec_retained_chunks() == old(self).spec_retained_chunks(),
            (final(self).spec_entries(), changed) == spec_upsert(old(self).spec_entries(), entry),
    {
        upsert_sorted(&mut self.entries, entry)
    }

    /// Removes the entry of `user_id`; returns whether there was one.
    pub fn remove_entry(&mut self, user_id: &[u8; 8]) -> (removed: bool)
        requires
            old(self).wf(),
        ensures
            final(self).wf(),
            final(self).spec_manifest_version() == old(self).spec_manifest_version(),
            final(self).spec_is_gateway() == old(self).spec_is_gateway(),
            final(self).spec_manifest_signature() == old(self).spec_manifest_signature(),
            final(self).spec_retained_chunks() == old(self).spec_retained_chunks(),
            (final(self).spec_entries(), removed) == spec_remove(old(self).spec_entries(), *user_id),
    {
        let ghost s = self.entries@;
        let k = id_key(user_id);
        let i = lower_bound(&self.entries, k);
        if i < self.entries.len() && id_key(&self.entries[i].user_id) == k {
            self.entries.remove(i);
            proof {
                s.remove_ensures(i as int);
                let t = self.entries@;
                assert forall|a: int, b: int| 0 <= a < b < t.len() implies entry_key(#[trigger] t[a]) <= entry_key(
                    #[trigger] t[b],
                ) by {
                    if b < i {
                    } else if a < i {
                        assert(t[b] == s[b + 1]);
                    } else {
                        assert(t[a] == s[a + 1]);
                        assert(t[b] == s[b + 1]);
                    }
                }
            }
            true
        } else {
            false
        }
    }

    /// Moves to the next manifest version, wrapping after `u32::MAX`.
    pub fn bump_version(&mut self)
        ensures
            final(self).spec_manifest_version() == old(self).spec_manifest_version().wrapping_add(1),
            final(self).spec_is_gateway() == old(self).spec_is_gateway(),
            final(self).spec_manifest_signature() == old(self).spec_manifest_signature(),
            final(self).spec_retained_chunks() == old(self).spec_retained_chunks(),
            final(self).spec_entries() == old(self).spec_entries(),
            final(self).wf() == old(self).wf(),
    {
        self.manifest_version = self.manifest_version.wrapping_add(1);
    }

    /// The canonical bytes of the entries in `chunk_range`.
    pub fn canonical_chunk_bytes(&self, chunk_range: std::ops::Range<usize>) -> (r: Vec<u8>)
        requires
            chunk_range.start <= chunk_range.end <= self.spec_entries().len(),
        ensures
            r@ == manifest_entries_bytes(
                manifest_entries_view(self.spec_entries().subrange(chunk_range.start as int, chunk_range.end as int)),
            ),
    {
        canonical_entry_bytes(&self.entries.as_slice()[chunk_range.start..chunk_range.end])
    }
}

// ---------- signing into chunks ----------

/// How many entries one NODE_MANIFEST chunk carries.
pub const ENTRIES_PER_CHUNK: usize = 730;

/// The flags byte of a manifest: bit 0 is `is_gateway`.
pub open spec fn manifest_flags(is_gateway: bool) -> u8 {
    if is_gateway {
        1
    } else {
        0
    }
}

/// How many chunks `n` entries take: one for none, else as many full
/// chunks as needed.
pub open spec fn spec_chunk_count(n: nat) -> nat {
    if n == 0 {
        1
    } else {
        n / (ENTRIES_PER_CHUNK as nat) + if n % (ENTRIES_PER_CHUNK as nat) == 0 {
            0nat
        } else {
            1nat
        }
    }
}

/// Where chunk `i` of `n` entries begins.
pub open spec fn chunk_start(i: int) -> int {
    i * ENTRIES_PER_CHUNK
}

/// Where chunk `i` of `n` entries ends.
pub open spec fn chunk_end(i: int, n: int) -> int {
    if chunk_start(i) + ENTRIES_PER_CHUNK <= n {
        chunk_start(i) + ENTRIES_PER_CHUNK
    } else {
        n
    }
}

/// Every chunk but the last is full, and the last ends at `n`.
proof fn lemma_chunk_bounds(n: nat, i: int)
    requires
        0 <= i < spec_chunk_count(n),
    ensures
        0 <= chunk_start(i) <= chunk_end(i, n as int) <= n,
        i == spec_chunk_count(n) - 1 ==> chunk_end(i, n as int) == n,
{
    let m = ENTRIES_PER_CHUNK as int;
    if n > 0 {
        let q = n as int / m;
        let r = n as int % m;
        assert(n == q * m + r && 0 <= r < m) by (nonlinear_arith)
            requires
                q == n as int / m,
                r == n as int % m,
                m == 730,
        ;
        if r == 0 {
            assert(i <= q - 1);
            assert(i * m <= (q - 1) * m) by (nonlinear_arith)
                requires
                    i <= q - 1,
                    m > 0,
            ;
            if i == q - 1 {
                assert((q - 1) * m + m == q * m) by (nonlinear_arith);
            }
        } else {
            assert(i <= q);
            assert(i * m <= q * m) by (nonlinear_arith)
                requires
                    i <= q,
                    m > 0,
            ;
            if i == q {
                assert(q * m + m > n) by (nonlinear_arith)
                    requires
                        n == q * m + r,
                        r < m,
                ;
            }
        }
        assert(0 <= i * m) by (nonlinear_arith)
            requires
                0 <= i,
                m > 0,
        ;
    }
}

impl Manifest {
    /// The bytes chunk `i` of this manifest is signed over, for the given
    /// origin multikey.
    pub open spec fn spec_chunk_input(&self, multikey: Seq<u8>, i: int) -> Seq<u8> {
        let n = self.spec_entries().len() as int;
        spec_chunk_signing_input(
            multikey,
            self.spec_manifest_version(),
            i as u8,
            spec_chunk_count(n as nat) as u8,
            manifest_flags(self.spec_is_gateway()),
            manifest_entries_bytes(
                manifest_entries_view(self.spec_entries().subrange(chunk_start(i), chunk_end(i, n))),
            ),
        )
    }

    /// Chunk `i` of this manifest carries these fields; only its
    /// signature is left open.
    pub open spec fn chunk_matches(&self, origin_node_id: [u8; 8], i: int, c: NodeManifest) -> bool {
        let n = self.spec_entries().len() as int;
        &&& c.origin_node_id == origin_node_id
        &&& c.manifest_version == self.spec_manifest_version()
        &&& c.chunk_index == i as u8
        &&& c.chunk_count == spec_chunk_count(n as nat) as u8
        &&& c.flags == manifest_flags(self.spec_is_gateway())
        &&& c.entries@ == self.spec_entries().subrange(chunk_start(i), chunk_end(i, n))
    }

    /// The bytes the signature of the whole entry set covers: the single
    /// chunk signing input of all entries, as chunk 0 of 1.
    pub open spec fn spec_state_input(&self, origin_multikey: Seq<u8>) -> Seq<u8> {
        spec_chunk_signing_input(
            origin_multikey,
            self.spec_manifest_version(),
            0,
            1,
            manifest_flags(self.spec_is_gateway()),
            manifest_entries_bytes(manifest_entries_view(self.spec_entries())),
        )
    }

    /// The bytes the signature of the whole entry set covers.
    pub fn state_signing_input(&self, origin_multikey: &[u8]) -> (r: Vec<u8>)
        ensures
            r@ == self.spec_state_input(origin_multikey@),
    {
        let entry_bytes = canonical_entry_bytes(self.entries.as_slice());
        let ctx = ChunkSigningCtx {
            origin_multikey,
            manifest_version: self.manifest_version,
            chunk_index: 0,
            chunk_count: 1,
            flags: if self.is_gateway { 1 } else { 0 },
            canonical_entries: entry_bytes.as_slice(),
        };
        ctx.signing_input()
    }

    /// Signs the whole entry set as one; this is the signature a
    /// MANIFEST_DELTA carries, and it verifies under the host's public
    /// key. Signing with the ed25519 keys built here does not fail.
    pub fn sign_state(&self, host_keys: &SigningKeys, origin_multikey: &[u8]) -> (r: Result<
        [u8; 64],
        ManifestError,
    >)
        ensures
            r matches Ok(sig) && signature_verifies(
                host_keys.spec_public(),
                self.spec_state_input(origin_multikey@),
                sig@,
            ),
    {
        let input = self.state_signing_input(origin_multikey);
        sign_64(host_keys, input.as_slice())
    }

    /// The signing inputs of the chunks of this manifest, one per chunk;
    /// `TooManyChunks` when the entries need more than 256 chunks.
    pub fn chunk_signing_inputs(&self, multikey: &[u8]) -> (r: Result<Vec<Vec<u8>>, ManifestError>)
        ensures
            spec_chunk_count(self.spec_entries().len()) > 256 ==> r == Err::<Vec<Vec<u8>>, ManifestError>(
                ManifestError::TooManyChunks,
            ),
            spec_chunk_count(self.spec_entries().len()) <= 256 ==> (r matches Ok(v) && v@.len()
                == spec_chunk_count(self.spec_entries().len()) && forall|i: int|
                0 <= i < v@.len() ==> (#[trigger] v@[i])@ == self.spec_chunk_input(multikey@, i)),
    {
        let n = self.entries.len();
        let chunk_count: usize = if n == 0 {
            1
        } else {
            n / ENTRIES_PER_CHUNK + if n % ENTRIES_PER_CHUNK == 0 { 0 } else { 1 }
        };
        if chunk_count > 256 {
            return Err(ManifestError::TooManyChunks);
        }
        let flags: u8 = if self.is_gateway { 1 } else { 0 };
        let mut inputs: Vec<Vec<u8>> = Vec::new();
        let mut i = 0usize;
        while i < chunk_count
            invariant
                n == self.spec_entries().len(),
                chunk_count == spec_chunk_count(n as nat),
                chunk_count <= 256,
                flags == manifest_flags(self.spec_is_gateway()),
                i <= chunk_count,
                inputs@.len() == i,
                forall|j: int| 0 <= j < i ==> (#[trigger] inputs@[j])@ == self.spec_chunk_input(multikey@, j),
            decreases chunk_count - i,
        {
            proof {
                lemma_chunk_bounds(n as nat, i as int);
            }
            let start = i * ENTRIES_PER_CHUNK;
            let end = if start + ENTRIES_PER_CHUNK <= n { start + ENTRIES_PER_CHUNK } else { n };
            let chunk_bytes = canonical_entry_bytes(&self.entries.as_slice()[start..end]);
            let ctx = ChunkSigningCtx {
                origin_multikey: multikey,
                manifest_version: self.manifest_version,
                chunk_index: i as u8,
                chunk_count: chunk_count as u8,
                flags,
                canonical_entries: chunk_bytes.as_slice(),
            };
            inputs.push(ctx.signing_input());
            i += 1;
        }
        Ok(inputs)
    }

    /// The chunks of this manifest, carrying the given signatures, one
    /// per chunk in chunk order.
    pub fn chunks_from_signatures(&self, origin_node_id: [u8; 8], signatures: &Vec<[u8; 64]>) -> (r: Vec<
        NodeManifest,
    >)
        requires
            signatures@.len() == spec_chunk_count(self.spec_entries().len()),
            signatures@.len() <= 256,
        ensures
            r@.len() == signatures@.len(),
            forall|i: int|
                0 <= i < r@.len() ==> self.chunk_matches(origin_node_id, i, #[trigger] r@[i])
                    && r@[i].manifest_signature == signatures@[i],
    {
        let n = self.entries.len();
        let chunk_count = signatures.len();
        let flags: u8 = if self.is_gateway { 1 } else { 0 };
        let mut chunks: Vec<NodeManifest> = Vec::new();
        let mut i = 0usize;
        while i < chunk_count
            invariant
                n == self.spec_entries().len(),
                chunk_count == signatures@.len(),
                chunk_count == spec_chunk_count(n as nat),
                chunk_count <= 256,
                flags == manifest_flags(self.spec_is_gateway()),
                i <= chunk_count,
                chunks@.len() == i,
                forall|j: int|
                    0 <= j < i ==> self.chunk_matches(origin_node_id, j, #[trigger] chunks@[j])
                        && chunks@[j].manifest_signature == signatures@[j],
            decreases chunk_count - i,
        {
            proof {
                lemma_chunk_bounds(n as nat, i as int);
            }
            let start = i * ENTRIES_PER_CHUNK;
            let end = if start + ENTRIES_PER_CHUNK <= n { start + ENTRIES_PER_CHUNK } else { n };
            let entries = slice_to_vec(&self.entries.as_slice()[start..end]);
            chunks.push(
                NodeManifest {
                    origin_node_id,
                    manifest_version: self.manifest_version,
                    chunk_index: i as u8,
                    chunk_count: chunk_count as u8,
                    flags,
                    manifest_signature: signatures[i],
                    entries,
                },
            );
            i += 1;
        }
        chunks
    }

    /// The chunks of this manifest built and signed by the host: one per
    /// chunk in chunk order, each matching its part of the entries and
    /// carrying the host's signature over its signing input.
    pub open spec fn signed_chunks(
        &self,
        origin_node_id: [u8; 8],
        public: Seq<u8>,
        multikey: Seq<u8>,
        cs: Seq<NodeManifest>,
    ) -> bool {
        &&& cs.len() == spec_chunk_count(self.spec_entries().len())
        &&& forall|i: int|
            0 <= i < cs.len() ==> self.chunk_matches(origin_node_id, i, #[trigger] cs[i]) && signature_verifies(
                public,
                self.spec_chunk_input(multikey, i),
                cs[i].manifest_signature@,
            )
    }

    /// Splits the entries into chunks of at most 730 entries (one empty
    /// chunk when there are none), signs each, and returns them in chunk
    /// order; `TooManyChunks` when they need more than 256 chunks.
    /// Signing with the ed25519 keys built here does not fail.
    pub fn build_chunks(&self, origin_node_id: [u8; 8], host_keys: &SigningKeys, multikey: &[u8]) -> (r:
        Result<Vec<NodeManifest>, ManifestError>)
        ensures
            spec_chunk_count(self.spec_entries().len()) > 256 ==> r == Err::<
                Vec<NodeManifest>,
                ManifestError,
            >(ManifestError::TooManyChunks),
            spec_chunk_count(self.spec_entries().len()) <= 256 ==> (r matches Ok(cs) && self.signed_chunks(
                origin_node_id,
                host_keys.spec_public(),
                multikey@,
                cs@,
            )),
    {
        let inputs = self.chunk_signing_inputs(multikey)?;
        let mut signatures: Vec<[u8; 64]> = Vec::new();
        let mut i = 0usize;
        while i < inputs.len()
            invariant
                inputs@.len() == spec_chunk_count(self.spec_entries().len()),
                inputs@.len() <= 256,
                i <= inputs@.len(),
                signatures@.len() == i,
                forall|j: int| 0 <= j < inputs@.len() ==> (#[trigger] inputs@[j])@ == self.spec_chunk_input(multikey@, j),
                forall|j: int|
                    0 <= j < i ==> signature_verifies(
                        host_keys.spec_public(),
                        self.spec_chunk_input(multikey@, j),
                        (#[trigger] signatures@[j])@,
                    ),
            decreases inputs@.len() - i,
        {
            let sig = sign_64(host_keys, inputs[i].as_slice())?;
            signatures.push(sig);
            i += 1;
        }
        let cs = self.chunks_from_signatures(origin_node_id, &signatures);
        assert forall|j: int| 0 <= j < cs@.len() implies self.chunk_matches(origin_node_id, j, #[trigger] cs@[j])
            && signature_verifies(host_keys.spec_public(), self.spec_chunk_input(multikey@, j), cs@[j].manifest_signature@) by {
            assert(cs@[j].manifest_signature == signatures@[j]);
        }
        Ok(cs)
    }

    /// Checks a received chunk's signature against the origin's key.
    pub fn verify_chunk(msg: &NodeManifest, multikey: &Multikey) -> (r: Result<(), VerifyError>)
        ensures
            r is Ok <==> signature_verifies(
                multikey.spec_encoded(),
                spec_chunk_signing_input(
                    multikey.spec_encoded(),
                    msg.manifest_version,
                    msg.chunk_index,
                    msg.chunk_count,
                    msg.flags,
                    manifest_entries_bytes(manifest_entries_view(msg.entries@)),
                ),
                msg.manifest_signature@,
            ),
            r matches Err(e) ==> e == VerifyError::SignatureInvalid,
    {
        let res = canonical_entry_bytes(msg.entries.as_slice());
        let encoded = multikey.encode();
        let sign_ctx = ChunkSigningCtx {
            origin_multikey: encoded.as_slice(),
            manifest_version: msg.manifest_version,
            chunk_index: msg.chunk_index,
            chunk_count: msg.chunk_count,
            flags: msg.flags,
            canonical_entries: res.as_slice(),
        };
        let input_sig = sign_ctx.signing_input();
        if multikey.verify(input_sig.as_slice(), &msg.manifest_signature) {
            Ok(())
        } else {
            Err(VerifyError::SignatureInvalid)
        }
    }

    /// Checks a delegation entry's signature: the user's key over the
    /// host's multikey and the entry's timeout.
    pub fn verify_entry(entry: &ManifestEntry, host_mk: &Multikey, user_mk: &Multikey) -> (r: Result<
        (),
        VerifyError,
    >)
        ensures
            r is Ok <==> signature_verifies(
                user_mk.spec_encoded(),
                spec_delegation_signing_input(host_mk.spec_encoded(), entry.timeout),
                entry.entry_signature@,
            ),
            r matches Err(e) ==> e == VerifyError::SignatureInvalid,
    {
        let host = host_mk.encode();
        let signing_input = delegation_signing_input(host.as_slice(), entry.timeout);
        if user_mk.verify(signing_input.as_slice(), &entry.entry_signature) {
            Ok(())
        } else {
            Err(VerifyError::SignatureInvalid)
        }
    }
}

/// Signs `msg` and returns the 64-byte signature, which verifies under
/// the public key of `keys`; a refusal would be `SigningFailed`, which
/// the ed25519 keys built here never give.
fn sign_64(keys: &SigningKeys, msg: &[u8]) -> (r: Result<[u8; 64], ManifestError>)
    ensures
        r matches Ok(sig) && signature_verifies(keys.spec_public(), msg@, sig@),
{
    match sign_with_host(keys, msg) {
        Some(sig) => Ok(sig),
        None => Err(ManifestError::SigningFailed),
    }
}

/// A copy of the entries of a slice.
fn slice_to_vec(s: &[ManifestEntry]) -> (v: Vec<ManifestEntry>)
    ensures
        v@ == s@,
{
    let mut v: Vec<ManifestEntry> = Vec::new();
    let mut i = 0usize;
    while i < s.len()
        invariant
            i <= s@.len(),
            v@ == s@.take(i as int),
        decreases s@.len() - i,
    {
        v.push(s[i]);
        assert(s@.take(i as int + 1) =~= s@.take(i as int).push(s@[i as int]));
        i += 1;
    }
    assert(s@.take(s@.len() as int) =~= s@);
    v
}

/// The canonical bytes of `entries`: each entry's 84 bytes, in the given
/// order.
pub fn canonical_entry_bytes(entries: &[ManifestEntry]) -> (r: Vec<u8>)
    ensures
        r@ == manifest_entries_bytes(manifest_entries_view(entries@)),
{
    let mut res: Vec<u8> = Vec::new();
    encode_manifest_entry_section(entries, &mut res);
    res
}

/// The single chunk that holds a whole manifest, rebuilt from stored
/// entries and signature.
pub fn reconstruct_single_chunk_full(
    origin_node_id: [u8; 8],
    manifest_version: u32,
    is_gateway: bool,
    entries: Vec<ManifestEntry>,
    stored_signature: [u8; 64],
) -> (nm: NodeManifest)
    ensures
        nm.origin_node_id == origin_node_id,
        nm.manifest_version == manifest_version,
        nm.chunk_index == 0,
        nm.chunk_count == 1,
        nm.flags == (if is_gateway { 1u8 } else { 0u8 }),
        nm.manifest_signature == stored_signature,
        nm.entries@ == entries@,
{
    NodeManifest {
        origin_node_id,
        manifest_version,
        chunk_index: 0,
        chunk_count: 1,
        flags: if is_gateway { 1 } else { 0 },
        manifest_signature: stored_signature,
        entries,
    }
}

// ---------- MANIFEST_DELTA ----------

/// The adds of a run of log records, in record order.
pub open spec fn delta_adds_of(rs: Seq<LogRecord>) -> Seq<DeltaAdd>
    decreases rs.len(),
{
    if rs.len() == 0 {
        seq![]
    } else {
        let prev = delta_adds_of(rs.drop_last());
        match rs.last() {
            LogRecord::Add { record_version, entry } => prev.push(DeltaAdd { record_version, entry }),
            LogRecord::Tombstone { .. } => prev,
        }
    }
}

/// The removes of a run of log records, in record order.
pub open spec fn delta_removes_of(rs: Seq<LogRecord>) -> Seq<DeltaRemove>
    decreases rs.len(),
{
    if rs.len() == 0 {
        seq![]
    } else {
        let prev = delta_removes_of(rs.drop_last());
        match rs.last() {
            LogRecord::Add { .. } => prev,
            LogRecord::Tombstone { user_id, record_version, .. } => prev.push(
                DeltaRemove { user_id, record_version },
            ),
        }
    }
}

/// The estimated body size of a delta with these records.
pub open spec fn delta_size_estimate(rs: Seq<LogRecord>) -> int {
    DELTA_ADD_BYTES * delta_adds_of(rs).len() + DELTA_REMOVE_BYTES * delta_removes_of(rs).len()
        + DELTA_OVERHEAD
}

/// Everything of a MANIFEST_DELTA but its adds and removes.
pub struct DeltaHeader {
    pub origin_node_id: [u8; 8],
    /// the version the delta builds upon; it is not signed
    pub from_version: u32,
    pub to_version: u32,
    pub is_gateway: bool,
    pub manifest_signature: [u8; 64],
}

impl DeltaHeader {
    /// The delta carrying `records`, split into adds and removes in
    /// record order; refused when its estimated body exceeds `MAX_BODY`.
    pub fn assemble(self, records: Vec<LogRecord>) -> (r: Result<ManifestDelta, BuildError>)
        ensures
            match r {
                Err(e) => e == BuildError::WouldExceedSizeLimit && delta_size_estimate(records@)
                    > MAX_BODY,
                Ok(d) => {
                    &&& delta_size_estimate(records@) <= MAX_BODY
                    &&& d.origin_node_id == self.origin_node_id
                    &&& d.from_version == self.from_version
                    &&& d.to_version == self.to_version
                    &&& d.flags == (if self.is_gateway { 1u8 } else { 0u8 })
                    &&& d.manifest_signature == self.manifest_signature
                    &&& d.adds@ == delta_adds_of(records@)
                    &&& d.removes@ == delta_removes_of(records@)
                },
            },
    {
        let mut adds: Vec<DeltaAdd> = Vec::new();
        let mut removes: Vec<DeltaRemove> = Vec::new();
        let n = records.len();
        let mut i = 0usize;
        while i < n
            invariant
                n == records@.len(),
                i <= n,
                adds@ == delta_adds_of(records@.take(i as int)),
                removes@ == delta_removes_of(records@.take(i as int)),
                adds@.len() + removes@.len() == i,
            decreases n - i,
        {
            proof {
                let next = records@.take(i as int + 1);
                assert(next.drop_last() =~= records@.take(i as int));
            }
            match records[i] {
                LogRecord::Add { record_version, entry } => {
                    adds.push(DeltaAdd { record_version, entry });
                },
                LogRecord::Tombstone { user_id, record_version, .. } => {
                    removes.push(DeltaRemove { user_id, record_version });
                },
            }
            i += 1;
        }
        proof {
            assert(records@.take(n as int) =~= records@);
        }
        let estimated: u128 = (DELTA_ADD_BYTES as u128) * (adds.len() as u128) + (DELTA_REMOVE_BYTES as u128) * (
        removes.len() as u128) + (DELTA_OVERHEAD as u128);
        if estimated > MAX_BODY as u128 {
            return Err(BuildError::WouldExceedSizeLimit);
        }
        Ok(
            ManifestDelta {
                origin_node_id: self.origin_node_id,
                from_version: self.from_version,
                to_version: self.to_version,
                flags: if self.is_gateway { 1 } else { 0 },
                manifest_signature: self.manifest_signature,
                adds,
                removes,
            },
        )
    }
}

} // verus!
