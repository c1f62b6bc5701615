//! The per-origin delta log: the most recent transition of
//! each delegated user, from which ranged MANIFEST_DELTAs are served.

use vstd::prelude::*;

use crate::codec::messages::ManifestEntry;
use crate::keyed::{
    has_key, is_selection, source_index, lemma_selects_covers, lemma_selects_insert, lemma_selects_member, lemma_selects_skip, selects, lemma_keyed_selection, lemma_selection_step, map_where, id_key, keyed_map, lemma_keyed_insert, lemma_keyed_map_at, lemma_keyed_map_len, lemma_keyed_update,
    spec_id_key, strictly_sorted_by,
};
use crate::seq::{is_fresher_u32, spec_is_fresher_u32};

verus! {

/// The most recent transition of one delegated user.
#[derive(Debug, Clone, Copy)]
pub enum LogRecord {
    Add { record_version: u32, entry: ManifestEntry },
    Tombstone { user_id: [u8; 8], record_version: u32, created_ms: u64 },
}

impl LogRecord {
    pub open spec fn spec_record_version(self) -> u32 {
        match self {
            LogRecord::Add { record_version, .. } => record_version,
            LogRecord::Tombstone { record_version, .. } => record_version,
        }
    }

    pub open spec fn spec_user_id(self) -> [u8; 8] {
        match self {
            LogRecord::Add { entry, .. } => entry.user_id,
            LogRecord::Tombstone { user_id, .. } => user_id,
        }
    }

    /// The manifest version at which this transition happened.
    pub fn record_version(&self) -> (v: u32)
        ensures
            v == self.spec_record_version(),
    {
        match self {
            LogRecord::Add { record_version, .. } => *record_version,
            LogRecord::Tombstone { record_version, .. } => *record_version,
        }
    }

    /// The user this transition is about.
    pub fn user_id(&self) -> (id: [u8; 8])
        ensures
            id == self.spec_user_id(),
    {
        match self {
            LogRecord::Add { entry, .. } => entry.user_id,
            LogRecord::Tombstone { user_id, .. } => *user_id,
        }
    }
}

/// The order key of a record: the key of its user id.
pub open spec fn record_key() -> spec_fn(LogRecord) -> u64 {
    |r: LogRecord| spec_id_key(r.spec_user_id())
}

/// The records fresher than version `v`.
pub open spec fn fresher_than(v: u32) -> spec_fn(LogRecord) -> bool {
    |r: LogRecord| spec_is_fresher_u32(r.spec_record_version(), v)
}

/// The creation time at or before which tombstones expire: `now_ms`
/// less the time to live, or zero.
pub open spec fn ttl_cutoff(now_ms: u64, ttl_ms: u64) -> u64 {
    if now_ms >= ttl_ms {
        (now_ms - ttl_ms) as u64
    } else {
        0
    }
}

/// A tombstone whose creation lies at or before `cutoff`.
pub open spec fn expired_at(cutoff: u64) -> spec_fn(LogRecord) -> bool {
    |r: LogRecord|
        match r {
            LogRecord::Tombstone { created_ms, .. } => created_ms <= cutoff,
            _ => false,
        }
}

/// Every record but the tombstones expired by `cutoff`.
pub open spec fn live_at(cutoff: u64) -> spec_fn(LogRecord) -> bool {
    |r: LogRecord| !expired_at(cutoff)(r)
}

/// The newest of a run of discarded versions, compared circularly in the
/// order they were discarded, starting from `acc`.
pub open spec fn newest_discarded(acc: Option<u32>, vs: Seq<u32>) -> Option<u32>
    decreases vs.len(),
{
    if vs.len() == 0 {
        acc
    } else {
        match newest_discarded(acc, vs.drop_last()) {
            None => Some(vs.last()),
            Some(m) => if spec_is_fresher_u32(vs.last(), m) {
                Some(vs.last())
            } else {
                Some(m)
            },
        }
    }
}

/// The log base after discarding: advanced to the newest discarded
/// version when that is fresher than the old base.
pub open spec fn settled_base(base: u32, newest: Option<u32>) -> u32 {
    match newest {
        Some(m) => if spec_is_fresher_u32(m, base) {
            m
        } else {
            base
        },
        None => base,
    }
}

/// Compaction never moves the log base back: the settled base is the old
/// one or fresher than it.
pub proof fn lemma_settled_base_never_older(base: u32, newest: Option<u32>)
    ensures
        settled_base(base, newest) == base || spec_is_fresher_u32(settled_base(base, newest), base),
{
}

/// The versions of a run of records.
pub open spec fn versions_of(rs: Seq<LogRecord>) -> Seq<u32> {
    rs.map_values(|r: LogRecord| r.spec_record_version())
}

fn newest_step(acc: Option<u32>, v: u32) -> (r: Option<u32>)
    ensures
        r == newest_discarded(acc, seq![v]),
{
    proof {
        reveal_with_fuel(newest_discarded, 2);
        assert(seq![v].drop_last() =~= Seq::<u32>::empty());
    }
    match acc {
        None => Some(v),
        Some(m) => if is_fresher_u32(v, m) {
            Some(v)
        } else {
            Some(m)
        },
    }
}

proof fn lemma_newest_push(acc: Option<u32>, vs: Seq<u32>, v: u32)
    ensures
        newest_discarded(acc, vs.push(v)) == newest_discarded(newest_discarded(acc, vs), seq![v]),
{
    reveal_with_fuel(newest_discarded, 2);
    assert(vs.push(v).drop_last() =~= vs);
    assert(seq![v].drop_last() =~= Seq::<u32>::empty());
}

/// Records ordered by version, ties by user.
pub open spec fn version_lt(a: LogRecord, b: LogRecord) -> bool {
    a.spec_record_version() < b.spec_record_version() || (a.spec_record_version()
        == b.spec_record_version() && record_key()(a) < record_key()(b))
}

/// Every record.
pub open spec fn any_record() -> spec_fn(LogRecord) -> bool {
    |r: LogRecord| true
}

/// `o` lists exactly the records of `s` (no more, no fewer).
pub open spec fn same_records(o: Seq<LogRecord>, s: Seq<LogRecord>) -> bool {
    selects(s, o, any_record(), s.len() as int)
}

/// Strictly ascending by version, ties by user.
pub open spec fn sorted_by_version(o: Seq<LogRecord>) -> bool {
    forall|i: int, j: int| 0 <= i < j < o.len() ==> version_lt(#[trigger] o[i], #[trigger] o[j])
}

/// Per-origin delta log: at most one record per user.
#[derive(Debug, Clone)]
pub struct ManifestLog {
    /// Oldest servable version.
    log_base: u32,
    /// ascending by user id, one record per user
    records: Vec<LogRecord>,
}

/// Whether `a` comes before `b` by version, ties by user.
fn record_lt(a: &LogRecord, b: &LogRecord) -> (r: bool)
    ensures
        r == version_lt(*a, *b),
{
    let av = a.record_version();
    let bv = b.record_version();
    let au = a.user_id();
    let bu = b.user_id();
    av < bv || (av == bv && id_key(&au) < id_key(&bu))
}

/// Inserts `rec` where it keeps `out` ascending by version (ties by
/// user) and returns the position.
fn insert_by_version(out: &mut Vec<LogRecord>, rec: LogRecord) -> (pos: usize)
    requires
        sorted_by_version(old(out)@),
        forall|a: int| 0 <= a < old(out)@.len() ==> record_key()(#[trigger] old(out)@[a]) != record_key()(rec),
    ensures
        pos <= old(out)@.len(),
        final(out)@ == old(out)@.insert(pos as int, rec),
        sorted_by_version(final(out)@),
{
    let mut pos = out.len();
    while pos > 0 && !record_lt(&out[pos - 1], &rec)
        invariant
            pos <= out@.len(),
            out@ == old(out)@,
            sorted_by_version(out@),
            forall|a: int| 0 <= a < out@.len() ==> record_key()(#[trigger] out@[a]) != record_key()(rec),
            forall|a: int| pos <= a < out@.len() ==> version_lt(rec, #[trigger] out@[a]),
        decreases pos,
    {
        assert(record_key()(out@[pos - 1]) != record_key()(rec));
        pos -= 1;
    }
    proof {
        if pos > 0 {
            assert forall|a: int| 0 <= a < pos implies version_lt(#[trigger] out@[a], rec) by {
                if a < pos - 1 {
                    assert(version_lt(out@[a], out@[pos - 1]));
                }
            }
        }
    }
    let ghost old_out = out@;
    out.insert(pos, rec);
    proof {
        old_out.insert_ensures(pos as int, rec);
        assert forall|a: int, b: int| 0 <= a < b < out@.len() implies version_lt(
            #[trigger] out@[a],
            #[trigger] out@[b],
        ) by {
            if b < pos {
            } else if b == pos {
            } else if a < pos {
                assert(out@[b] == old_out[b - 1]);
            } else if a == pos {
                assert(out@[b] == old_out[b - 1]);
            } else {
                assert(out@[a] == old_out[a - 1]);
                assert(out@[b] == old_out[b - 1]);
            }
        }
    }
    pos
}

/// In a listing sorted by version, a record is among the first `e`
/// exactly when it comes before the `e`-th.
proof fn lemma_dropped_below(kept: Seq<LogRecord>, o: Seq<LogRecord>, e: int)
    requires
        sorted_by_version(o),
        same_records(o, kept),
        0 <= e < o.len(),
    ensures
        forall|j: int| 0 <= j < kept.len() ==> (version_lt(#[trigger] kept[j], o[e]) == o.take(e).contains(kept[j])),
{
    assert forall|j: int| 0 <= j < kept.len() implies (version_lt(#[trigger] kept[j], o[e]) == o.take(e).contains(kept[j])) by {
        let idx = lemma_selects_covers(kept, o, any_record(), kept.len() as int, j);
        if idx < e {
            assert(o.take(e)[idx] == kept[j]);
        } else {
            if o.take(e).contains(kept[j]) {
                let i2 = choose|i2: int| 0 <= i2 < o.take(e).len() && o.take(e)[i2] == kept[j];
                assert(o[i2] == o[idx]);
                assert(version_lt(o[i2], o[idx]));
            }
            if idx > e {
                assert(version_lt(o[e], o[idx]));
            }
        }
    }
}

/// The records of `kept` ascending by version, ties by user.
fn sort_by_version(kept: &Vec<LogRecord>) -> (o: Vec<LogRecord>)
    requires
        strictly_sorted_by(kept@, record_key()),
    ensures
        sorted_by_version(o@),
        same_records(o@, kept@),
        o@.len() == kept@.len(),
{
    let mut by_version: Vec<LogRecord> = Vec::new();
    let m = kept.len();
    for i in 0..m
        invariant
            m == kept@.len(),
            strictly_sorted_by(kept@, record_key()),
            sorted_by_version(by_version@),
            by_version@.len() == i,
            selects(kept@, by_version@, any_record(), i as int),
    {
        let rec = kept[i];
        assert forall|a: int| 0 <= a < by_version@.len() implies record_key()(#[trigger] by_version@[a])
            != record_key()(rec) by {
            let j = lemma_selects_member(kept@, by_version@, any_record(), i as int, a);
            assert(record_key()(kept@[j]) < record_key()(kept@[i as int]));
        }
        let ghost old_bv = by_version@;
        let pos = insert_by_version(&mut by_version, rec);
        proof {
            lemma_selects_insert(kept@, old_bv, any_record(), i as int, pos as int);
        }
    }
    by_version
}

/// Folds the versions of the first `excess` records of `o` into `acc`.
fn newest_over(acc: Option<u32>, o: &Vec<LogRecord>, excess: usize) -> (r: Option<u32>)
    requires
        excess <= o@.len(),
    ensures
        r == newest_discarded(acc, versions_of(o@.take(excess as int))),
{
    let mut newest = acc;
    assert(versions_of(o@.take(0)) =~= Seq::<u32>::empty());
    for k in 0..excess
        invariant
            excess <= o@.len(),
            newest == newest_discarded(acc, versions_of(o@.take(k as int))),
    {
        let v = o[k].record_version();
        proof {
            lemma_newest_push(acc, versions_of(o@.take(k as int)), v);
            assert(o@.take(k + 1) =~= o@.take(k as int).push(o@[k as int]));
            assert(versions_of(o@.take(k + 1)) =~= versions_of(o@.take(k as int)).push(v));
        }
        newest = newest_step(newest, v);
    }
    newest
}

/// The records of `kept` at or above the `e`-th of its version-ordered
/// listing `o` are exactly `o`'s last `len - e`, so there are as many.
proof fn lemma_rest_len(kept: Seq<LogRecord>, o: Seq<LogRecord>, rest: Seq<LogRecord>, e: int)
    requires
        strictly_sorted_by(kept, record_key()),
        sorted_by_version(o),
        same_records(o, kept),
        o.len() == kept.len(),
        0 <= e < o.len(),
        is_selection(kept, rest, record_key(), |r: LogRecord| !version_lt(r, o[e]), kept.len() as int),
    ensures
        rest.len() == kept.len() - e,
{
    let p = |r: LogRecord| !version_lt(r, o[e]);
    let top = o.skip(e);
    assert forall|i: int, j: int| 0 <= i < rest.len() && 0 <= j < rest.len() && i != j implies rest[i] != rest[j] by {
        if i < j {
            assert(record_key()(rest[i]) < record_key()(rest[j]));
        } else {
            assert(record_key()(rest[j]) < record_key()(rest[i]));
        }
    }
    assert forall|i: int, j: int| 0 <= i < top.len() && 0 <= j < top.len() && i != j implies top[i] != top[j] by {
        if i < j {
            assert(version_lt(o[e + i], o[e + j]));
        } else {
            assert(version_lt(o[e + j], o[e + i]));
        }
    }
    assert forall|x: LogRecord| #[trigger] rest.to_set().contains(x) implies top.to_set().contains(x) by {
        let a = choose|a: int| 0 <= a < rest.len() && rest[a] == x;
        let j = lemma_selects_member(kept, rest, p, kept.len() as int, a);
        let b = lemma_selects_covers(kept, o, any_record(), kept.len() as int, j);
        assert(o[b] == x);
        if b < e {
            assert(version_lt(o[b], o[e]));
        }
        assert(top[b - e] == x);
    }
    assert forall|x: LogRecord| #[trigger] top.to_set().contains(x) implies rest.to_set().contains(x) by {
        let c = choose|c: int| 0 <= c < top.len() && top[c] == x;
        assert(o[e + c] == x);
        let j = lemma_selects_member(kept, o, any_record(), kept.len() as int, e + c);
        assert(kept[j] == x);
        if c > 0 {
            assert(version_lt(o[e], o[e + c]));
        }
        assert(p(kept[j]));
        let a = lemma_selects_covers(kept, rest, p, kept.len() as int, j);
        assert(rest[a] == x);
    }
    assert(rest.to_set() =~= top.to_set());
    rest.unique_seq_to_set();
    top.unique_seq_to_set();
}

/// The records of `kept` that are not among the first `excess` of its
/// version-ordered listing `o`, ascending by user.
fn drop_lowest(kept: &Vec<LogRecord>, o: &Vec<LogRecord>, excess: usize) -> (rest: Vec<LogRecord>)
    requires
        strictly_sorted_by(kept@, record_key()),
        sorted_by_version(o@),
        same_records(o@, kept@),
        o@.len() == kept@.len(),
        excess <= o@.len(),
    ensures
        strictly_sorted_by(rest@, record_key()),
        keyed_map(rest@, record_key()) == map_where(
            keyed_map(kept@, record_key()),
            |r: LogRecord| !o@.take(excess as int).contains(r),
        ),
        rest@.len() == kept@.len() - excess,
{
    let ghost dropped = o@.take(excess as int);
    let mut rest: Vec<LogRecord> = Vec::new();
    let m = kept.len();
    if excess < m {
        let threshold = o[excess];
        for i in 0..m
            invariant
                m == kept@.len(),
                strictly_sorted_by(kept@, record_key()),
                is_selection(kept@, rest@, record_key(), |r: LogRecord| !version_lt(r, threshold), i as int),
        {
            let rec = kept[i];
            proof {
                lemma_selection_step(kept@, rest@, record_key(), |r: LogRecord| !version_lt(r, threshold), i as int);
            }
            if !record_lt(&rec, &threshold) {
                rest.push(rec);
            }
        }
        proof {
            lemma_keyed_selection(kept@, rest@, record_key(), |r: LogRecord| !version_lt(r, threshold));
            lemma_dropped_below(kept@, o@, excess as int);
            let km = keyed_map(kept@, record_key());
            assert forall|k: u64| #[trigger] km.dom().contains(k) implies (!version_lt(km[k], threshold))
                == !dropped.contains(km[k]) by {
                let j = choose|j: int| 0 <= j < kept@.len() && record_key()(#[trigger] kept@[j]) == k;
                lemma_keyed_map_at(kept@, record_key(), j);
            }
            assert(map_where(km, |r: LogRecord| !version_lt(r, threshold)) =~= map_where(
                km,
                |r: LogRecord| !dropped.contains(r),
            ));
            lemma_rest_len(kept@, o@, rest@, excess as int);
        }
    } else {
        proof {
            let km = keyed_map(kept@, record_key());
            assert forall|k: u64| #[trigger] km.dom().contains(k) implies dropped.contains(km[k]) by {
                let j = choose|j: int| 0 <= j < kept@.len() && record_key()(#[trigger] kept@[j]) == k;
                lemma_keyed_map_at(kept@, record_key(), j);
                let a = lemma_selects_covers(kept@, o@, any_record(), kept@.len() as int, j);
                assert(dropped[a] == kept@[j]);
            }
            assert(keyed_map(rest@, record_key()) =~= map_where(km, |r: LogRecord| !dropped.contains(r)));
        }
    }
    rest
}

/// What retention does to a log: drops the tombstones created at or
/// before `now_ms - tombstone_ttl_ms` (saturating), then, while more than
/// `cap` records remain, the lowest by version (ties by user), so that at
/// most `cap` remain; the base advances to the newest discarded version
/// when that is fresher.
pub open spec fn compaction(before: ManifestLog, after: ManifestLog, now_ms: u64, tombstone_ttl_ms: u64, cap: usize) -> bool {
    &&& after.record_map().dom().len() <= cap
    &&& forall|k: u64| #[trigger]
            after.record_map().dom().contains(k) ==> {
                &&& before.record_map().dom().contains(k)
                &&& after.record_map()[k] == before.record_map()[k]
                &&& live_at(ttl_cutoff(now_ms, tombstone_ttl_ms))(after.record_map()[k])
            }
    &&& after.spec_log_base() == before.spec_log_base() || spec_is_fresher_u32(
        after.spec_log_base(),
        before.spec_log_base(),
    )
    &&& ({
            let cutoff = ttl_cutoff(now_ms, tombstone_ttl_ms);
            let s = before.spec_records();
            exists|kept: Seq<LogRecord>, gone: Seq<LogRecord>|
                #![trigger is_selection(s, kept, record_key(), live_at(cutoff), s.len() as int), is_selection(s, gone, record_key(), expired_at(cutoff), s.len() as int)]
                is_selection(s, kept, record_key(), live_at(cutoff), s.len() as int)
                && is_selection(s, gone, record_key(), expired_at(cutoff), s.len() as int)
                && if kept.len() <= cap {
                    &&& after.record_map() == map_where(before.record_map(), live_at(cutoff))
                    &&& after.spec_log_base() == settled_base(
                        before.spec_log_base(),
                        newest_discarded(None, versions_of(gone)),
                    )
                } else {
                    exists|o: Seq<LogRecord>|
                        #![trigger same_records(o, kept)]
                        sorted_by_version(o) && same_records(o, kept) && {
                            let dropped = o.take(kept.len() - cap);
                            &&& after.record_map() == map_where(
                                map_where(before.record_map(), live_at(cutoff)),
                                |r: LogRecord| !dropped.contains(r),
                            )
                            &&& after.spec_log_base() == settled_base(
                                before.spec_log_base(),
                                newest_discarded(
                                    newest_discarded(None, versions_of(gone)),
                                    versions_of(dropped),
                                ),
                            )
                        }
                }
        })
}

impl ManifestLog {
    /// The records are kept ascending by user, one per user.
    pub closed spec fn wf(&self) -> bool {
        strictly_sorted_by(self.records@, record_key())
    }

    /// Oldest servable version.
    pub closed spec fn spec_log_base(&self) -> u32 {
        self.log_base
    }

    /// The records in ascending order of user.
    pub closed spec fn spec_records(&self) -> Seq<LogRecord> {
        self.records@
    }

    /// The log as a map from user key to that user's record.
    pub open spec fn record_map(&self) -> Map<u64, LogRecord> {
        keyed_map(self.spec_records(), record_key())
    }

    /// The empty log with a zero base.
    pub fn default() -> (l: ManifestLog)
        ensures
            l.wf(),
            l.spec_log_base() == 0,
            l.record_map() == Map::<u64, LogRecord>::empty(),
    {
        let l = ManifestLog { log_base: 0, records: Vec::new() };
        assert(l.record_map() =~= Map::<u64, LogRecord>::empty());
        l
    }

    /// Where a record for `k` sits or would go.
    fn slot(&self, k: u64) -> (r: (usize, bool))
        requires
            self.wf(),
        ensures
            r.0 <= self.records@.len(),
            forall|i: int| 0 <= i < r.0 ==> record_key()(#[trigger] self.records@[i]) < k,
            r.1 ==> r.0 < self.records@.len() && record_key()(self.records@[r.0 as int]) == k,
            !r.1 ==> forall|i: int| r.0 <= i < self.records@.len() ==> k < record_key()(
                #[trigger] self.records@[i],
            ),
    {
        let n = self.records.len();
        let mut i = 0usize;
        while i < n
            invariant
                self.wf(),
                n == self.records@.len(),
                i <= n,
                forall|j: int| 0 <= j < i ==> record_key()(#[trigger] self.records@[j]) < k,
            decreases n - i,
        {
            let uid = self.records[i].user_id();
            let ki = id_key(&uid);
            if ki == k {
                return (i, true);
            }
            if ki > k {
                assert forall|j: int| i <= j < n implies k < record_key()(
                    #[trigger] self.records@[j],
                ) by {
                    if j > i {
                        assert(record_key()(self.records@[i as int]) < record_key()(self.records@[j]));
                    }
                }
                return (i, false);
            }
            i += 1;
        }
        (i, false)
    }

    /// Puts a record in place of the user's previous one, if any.
    fn upsert(&mut self, rec: LogRecord)
        requires
            old(self).wf(),
        ensures
            final(self).wf(),
            final(self).spec_log_base() == old(self).spec_log_base(),
            final(self).record_map() == old(self).record_map().insert(record_key()(rec), rec),
    {
        let uid = rec.user_id();
        let k = id_key(&uid);
        let (pos, found) = self.slot(k);
        proof {
            if found {
                lemma_keyed_update(self.records@, record_key(), pos as int, rec);
            } else {
                lemma_keyed_insert(self.records@, record_key(), pos as int, rec);
            }
        }
        if found {
            self.records[pos] = rec;
        } else {
            self.records.insert(pos, rec);
        }
    }

    /// Records that `entry` was added or changed at `record_version`,
    /// replacing whatever the log held for that user.
    pub fn insert_add(&mut self, record_version: u32, entry: ManifestEntry)
        requires
            old(self).wf(),
        ensures
            final(self).wf(),
            final(self).spec_log_base() == old(self).spec_log_base(),
            final(self).record_map() == old(self).record_map().insert(
                spec_id_key(entry.user_id),
                LogRecord::Add { record_version, entry },
            ),
    {
        self.upsert(LogRecord::Add { record_version, entry });
    }

    /// Records that the user was removed at `record_version`, replacing
    /// whatever the log held for that user; the tombstone's age starts at
    /// `now_ms`.
    pub fn insert_remove(&mut self, user_id: [u8; 8], record_version: u32, now_ms: u64)
        requires
            old(self).wf(),
        ensures
            final(self).wf(),
            final(self).spec_log_base() == old(self).spec_log_base(),
            final(self).record_map() == old(self).record_map().insert(
                spec_id_key(user_id),
                LogRecord::Tombstone { user_id, record_version, created_ms: now_ms },
            ),
    {
        self.upsert(LogRecord::Tombstone { user_id, record_version, created_ms: now_ms });
    }

    /// Drops every record and sets the base to `version`.
    pub fn reset_to(&mut self, version: u32)
        ensures
            final(self).wf(),
            final(self).spec_log_base() == version,
            final(self).record_map() == Map::<u64, LogRecord>::empty(),
    {
        self.records.clear();
        self.log_base = version;
        assert(self.record_map() =~= Map::<u64, LogRecord>::empty());
    }

    /// The number of records, one per user.
    pub fn len(&self) -> (n: usize)
        requires
            self.wf(),
        ensures
            n == self.record_map().dom().len(),
    {
        proof {
            self.lemma_dom_len();
        }
        self.records.len()
    }

    /// Whether the log holds no record.
    pub fn is_empty(&self) -> (b: bool)
        requires
            self.wf(),
        ensures
            b == (self.record_map().dom().len() == 0),
    {
        proof {
            self.lemma_dom_len();
        }
        self.records.len() == 0
    }

    /// The records whose version is fresher than `from_version`,
    /// ascending by version (ties by user): exactly what a ranged
    /// MANIFEST_DELTA from that version carries.
    pub fn records_after(&self, from_version: u32) -> (r: Vec<LogRecord>)
        requires
            self.wf(),
        ensures
            sorted_by_version(r@),
            forall|i: int|
                0 <= i < r@.len() ==> {
                    &&& self.record_map().dom().contains(record_key()(#[trigger] r@[i]))
                    &&& self.record_map()[record_key()(r@[i])] == r@[i]
                    &&& spec_is_fresher_u32(r@[i].spec_record_version(), from_version)
                },
            forall|k: u64|
                #[trigger] self.record_map().dom().contains(k) && spec_is_fresher_u32(
                    self.record_map()[k].spec_record_version(),
                    from_version,
                ) ==> exists|i: int| 0 <= i < r@.len() && r@[i] == self.record_map()[k],
    {
        let ghost s = self.records@;
        let mut out: Vec<LogRecord> = Vec::new();
        let n = self.records.len();
        for i in 0..n
            invariant
                s == self.records@,
                strictly_sorted_by(s, record_key()),
                n == s.len(),
                sorted_by_version(out@),
                selects(s, out@, fresher_than(from_version), i as int),
        {
            let rec = self.records[i];
            if is_fresher_u32(rec.record_version(), from_version) {
                // every record already in `out` comes earlier in user order
                assert forall|a: int| 0 <= a < out@.len() implies record_key()(#[trigger] out@[a])
                    != record_key()(rec) by {
                    let j = lemma_selects_member(s, out@, fresher_than(from_version), i as int, a);
                    assert(record_key()(s[j]) < record_key()(s[i as int]));
                }
                let ghost old_out = out@;
                let pos = insert_by_version(&mut out, rec);
                proof {
                    lemma_selects_insert(s, old_out, fresher_than(from_version), i as int, pos as int);
                }
            } else {
                proof {
                    lemma_selects_skip(s, out@, fresher_than(from_version), i as int);
                }
            }
        }
        proof {
            assert forall|i: int| 0 <= i < out@.len() implies {
                &&& self.record_map().dom().contains(record_key()(#[trigger] out@[i]))
                &&& self.record_map()[record_key()(out@[i])] == out@[i]
                &&& spec_is_fresher_u32(out@[i].spec_record_version(), from_version)
            } by {
                let j = lemma_selects_member(s, out@, fresher_than(from_version), n as int, i);
                lemma_keyed_map_at(s, record_key(), j);
            }
            assert forall|k: u64|
                #[trigger] self.record_map().dom().contains(k) && spec_is_fresher_u32(
                    self.record_map()[k].spec_record_version(),
                    from_version,
                ) implies exists|i: int| 0 <= i < out@.len() && out@[i] == self.record_map()[k] by {
                let j = choose|j: int| 0 <= j < s.len() && record_key()(#[trigger] s[j]) == k;
                lemma_keyed_map_at(s, record_key(), j);
                assert(fresher_than(from_version)(s[j]));
                let a = lemma_selects_covers(s, out@, fresher_than(from_version), n as int, j);
                assert(out@[a] == self.record_map()[k]);
            }
        }
        out
    }

    /// The oldest servable version.
    pub fn log_base(&self) -> (r: u32)
        ensures
            r == self.spec_log_base(),
    {
        self.log_base
    }

    /// Sets the oldest servable version and drops every record that is
    /// not fresher than it.
    pub fn set_log_base(&mut self, v: u32)
        requires
            old(self).wf(),
        ensures
            final(self).wf(),
            final(self).spec_log_base() == v,
            final(self).record_map() == map_where(old(self).record_map(), fresher_than(v)),
    {
        self.log_base = v;
        let ghost s = self.records@;
        let mut out: Vec<LogRecord> = Vec::new();
        let n = self.records.len();
        for i in 0..n
            invariant
                s == self.records@,
                strictly_sorted_by(s, record_key()),
                n == s.len(),
                is_selection(s, out@, record_key(), fresher_than(v), i as int),
        {
            let rec = self.records[i];
            proof {
                lemma_selection_step(s, out@, record_key(), fresher_than(v), i as int);
            }
            if is_fresher_u32(rec.record_version(), v) {
                out.push(rec);
            }
        }
        proof {
            lemma_keyed_selection(s, out@, record_key(), fresher_than(v));
        }
        self.records = out;
    }

    /// Within the cap, retention removes nothing but expired tombstones:
    /// where the records left after the expired tombstones go number at
    /// most `cap`, exactly those remain, so every add record stays; and
    /// where nothing has expired either, the log and its base are left as
    /// they were.
    pub proof fn lemma_compaction_within_cap(
        before: ManifestLog,
        after: ManifestLog,
        now_ms: u64,
        tombstone_ttl_ms: u64,
        cap: usize,
    )
        requires
            before.wf(),
            compaction(before, after, now_ms, tombstone_ttl_ms, cap),
            map_where(before.record_map(), live_at(ttl_cutoff(now_ms, tombstone_ttl_ms))).dom().len() <= cap,
        ensures
            after.record_map() == map_where(before.record_map(), live_at(ttl_cutoff(now_ms, tombstone_ttl_ms))),
            forall|k: u64|
                #[trigger] before.record_map().dom().contains(k) && before.record_map()[k] is Add
                    ==> after.record_map().dom().contains(k),
            (forall|k: u64|
                #[trigger] before.record_map().dom().contains(k) ==> live_at(ttl_cutoff(now_ms, tombstone_ttl_ms))(
                    before.record_map()[k],
                )) ==> after.spec_log_base() == before.spec_log_base() && after.record_map()
                == before.record_map(),
    {
        let cutoff = ttl_cutoff(now_ms, tombstone_ttl_ms);
        let s = before.spec_records();
        let (kept, gone) = choose|kept: Seq<LogRecord>, gone: Seq<LogRecord>|
            #![trigger is_selection(s, kept, record_key(), live_at(cutoff), s.len() as int), is_selection(s, gone, record_key(), expired_at(cutoff), s.len() as int)]
            is_selection(s, kept, record_key(), live_at(cutoff), s.len() as int)
            && is_selection(s, gone, record_key(), expired_at(cutoff), s.len() as int)
            && if kept.len() <= cap {
                &&& after.record_map() == map_where(before.record_map(), live_at(cutoff))
                &&& after.spec_log_base() == settled_base(
                    before.spec_log_base(),
                    newest_discarded(None, versions_of(gone)),
                )
            } else {
                exists|o: Seq<LogRecord>|
                    #![trigger same_records(o, kept)]
                    sorted_by_version(o) && same_records(o, kept) && {
                        let dropped = o.take(kept.len() - cap);
                        &&& after.record_map() == map_where(
                            map_where(before.record_map(), live_at(cutoff)),
                            |r: LogRecord| !dropped.contains(r),
                        )
                        &&& after.spec_log_base() == settled_base(
                            before.spec_log_base(),
                            newest_discarded(
                                newest_discarded(None, versions_of(gone)),
                                versions_of(dropped),
                            ),
                        )
                    }
            };
        lemma_keyed_selection(s, kept, record_key(), live_at(cutoff));
        lemma_keyed_map_len(kept, record_key());
        assert(kept.len() <= cap);
        assert forall|k: u64|
            #[trigger] before.record_map().dom().contains(k) && before.record_map()[k] is Add
                implies after.record_map().dom().contains(k) by {
            assert(live_at(cutoff)(before.record_map()[k]));
        }
        if forall|k: u64|
            #[trigger] before.record_map().dom().contains(k) ==> live_at(cutoff)(before.record_map()[k]) {
            if gone.len() > 0 {
                let j = lemma_selects_member(s, gone, expired_at(cutoff), s.len() as int, 0);
                lemma_keyed_map_at(s, record_key(), j);
                assert(before.record_map()[record_key()(s[j])] == s[j]);
            }
            assert(versions_of(gone) =~= Seq::<u32>::empty());
            assert(after.record_map() =~= before.record_map());
        }
    }

    /// Beyond the cap, retention drops the lowest records first: every
    /// record that outlived the tombstone expiry but not the cap comes
    /// before every record that remains, by version and then by user.
    pub proof fn lemma_compaction_drops_lowest_first(
        before: ManifestLog,
        after: ManifestLog,
        now_ms: u64,
        tombstone_ttl_ms: u64,
        cap: usize,
        k1: u64,
        k2: u64,
    )
        requires
            before.wf(),
            compaction(before, after, now_ms, tombstone_ttl_ms, cap),
            before.record_map().dom().contains(k1),
            live_at(ttl_cutoff(now_ms, tombstone_ttl_ms))(before.record_map()[k1]),
            !after.record_map().dom().contains(k1),
            after.record_map().dom().contains(k2),
        ensures
            version_lt(before.record_map()[k1], after.record_map()[k2]),
    {
        let cutoff = ttl_cutoff(now_ms, tombstone_ttl_ms);
        let s = before.spec_records();
        let (kept, gone) = choose|kept: Seq<LogRecord>, gone: Seq<LogRecord>|
            #![trigger is_selection(s, kept, record_key(), live_at(cutoff), s.len() as int), is_selection(s, gone, record_key(), expired_at(cutoff), s.len() as int)]
            is_selection(s, kept, record_key(), live_at(cutoff), s.len() as int)
            && is_selection(s, gone, record_key(), expired_at(cutoff), s.len() as int)
            && if kept.len() <= cap {
                &&& after.record_map() == map_where(before.record_map(), live_at(cutoff))
                &&& after.spec_log_base() == settled_base(
                    before.spec_log_base(),
                    newest_discarded(None, versions_of(gone)),
                )
            } else {
                exists|o: Seq<LogRecord>|
                    #![trigger same_records(o, kept)]
                    sorted_by_version(o) && same_records(o, kept) && {
                        let dropped = o.take(kept.len() - cap);
                        &&& after.record_map() == map_where(
                            map_where(before.record_map(), live_at(cutoff)),
                            |r: LogRecord| !dropped.contains(r),
                        )
                        &&& after.spec_log_base() == settled_base(
                            before.spec_log_base(),
                            newest_discarded(
                                newest_discarded(None, versions_of(gone)),
                                versions_of(dropped),
                            ),
                        )
                    }
            };
        lemma_keyed_selection(s, kept, record_key(), live_at(cutoff));
        if kept.len() <= cap {
            assert(after.record_map().dom().contains(k1));
        } else {
            let o = choose|o: Seq<LogRecord>|
                #![trigger same_records(o, kept)]
                sorted_by_version(o) && same_records(o, kept) && {
                    let dropped = o.take(kept.len() - cap);
                    &&& after.record_map() == map_where(
                        map_where(before.record_map(), live_at(cutoff)),
                        |r: LogRecord| !dropped.contains(r),
                    )
                    &&& after.spec_log_base() == settled_base(
                        before.spec_log_base(),
                        newest_discarded(
                            newest_discarded(None, versions_of(gone)),
                            versions_of(dropped),
                        ),
                    )
                };
            assert(o.len() == kept.len()) by {
                assert forall|i: int, j: int| 0 <= i < o.len() && 0 <= j < o.len() && i != j implies o[i] != o[j] by {
                    if i < j {
                        assert(version_lt(o[i], o[j]));
                    } else {
                        assert(version_lt(o[j], o[i]));
                    }
                }
                assert forall|i: int, j: int| 0 <= i < kept.len() && 0 <= j < kept.len() && i != j implies kept[i]
                    != kept[j] by {
                    if i < j {
                        assert(record_key()(kept[i]) < record_key()(kept[j]));
                    } else {
                        assert(record_key()(kept[j]) < record_key()(kept[i]));
                    }
                }
                assert forall|x: LogRecord| o.contains(x) implies kept.contains(x) by {
                    let a = choose|a: int| 0 <= a < o.len() && o[a] == x;
                    assert(source_index(a));
                    let j = choose|j: int| 0 <= j < kept.len() && o[a] == kept[j] && any_record()(kept[j]);
                    assert(kept[j] == x);
                }
                assert forall|x: LogRecord| kept.contains(x) implies o.contains(x) by {
                    let j = choose|j: int| 0 <= j < kept.len() && kept[j] == x;
                    assert(source_index(j));
                    assert(any_record()(kept[j]));
                    let a = choose|a: int| 0 <= a < o.len() && o[a] == kept[j];
                    assert(o[a] == x);
                }
                assert(o.to_set() =~= kept.to_set());
                o.unique_seq_to_set();
                kept.unique_seq_to_set();
            }
            let n = kept.len() - cap;
            let dropped = o.take(n);
            let r1 = before.record_map()[k1];
            let r2 = after.record_map()[k2];
            assert(dropped.contains(r1));
            let a = choose|a: int| 0 <= a < dropped.len() && dropped[a] == r1;
            assert(o[a] == r1);
            assert(keyed_map(kept, record_key()).dom().contains(k2));
            let i = choose|i: int| 0 <= i < kept.len() && record_key()(#[trigger] kept[i]) == k2;
            assert(keyed_map(kept, record_key())[k2] == r2);
            let i2 = choose|i: int| 0 <= i < kept.len() && record_key()(#[trigger] kept[i]) == k2;
            assert(kept[i2] == r2);
            assert(source_index(i2));
            let b = choose|b: int| 0 <= b < o.len() && o[b] == kept[i2];
            if b < n {
                assert(dropped[b] == r2);
                assert(dropped.contains(r2));
            }
            assert(version_lt(o[a], o[b]));
        }
    }

    /// Retention: drops the tombstones created at or before
    /// `now_ms - tombstone_ttl_ms` (saturating), then, while more than
    /// `cap` records remain, the lowest by version (ties by user); the
    /// base advances to the newest discarded version when that is fresher.
    pub fn compact(&mut self, now_ms: u64, tombstone_ttl_ms: u64, cap: usize)
        requires
            old(self).wf(),
        ensures
            final(self).wf(),
            compaction(*old(self), *final(self), now_ms, tombstone_ttl_ms, cap),
    {
        let cutoff = now_ms.saturating_sub(tombstone_ttl_ms);
        assert(cutoff == ttl_cutoff(now_ms, tombstone_ttl_ms));
        let ghost s = self.records@;
        let ghost old_map = self.record_map();
        let ghost old_base = self.log_base;
        let (kept, newest0, Ghost(gone)) = self.split_expired(cutoff);
        let mut newest = newest0;
        proof {
            lemma_keyed_selection(s, kept@, record_key(), live_at(cutoff));
        }
        if kept.len() > cap {
            let excess = kept.len() - cap;
            let by_version = sort_by_version(&kept);
            let ghost o = by_version@;
            newest = newest_over(newest0, &by_version, excess);
            let rest = drop_lowest(&kept, &by_version, excess);
            self.records = rest;
            self.settle(newest);
            proof {
                let dropped = o.take(excess as int);
                assert(self.record_map() == map_where(
                    map_where(old_map, live_at(cutoff)),
                    |r: LogRecord| !dropped.contains(r),
                ));
                assert(self.spec_log_base() == settled_base(
                    old_base,
                    newest_discarded(newest_discarded(None, versions_of(gone)), versions_of(dropped)),
                ));
                assert(sorted_by_version(o) && same_records(o, kept@));
            }
        } else {
            self.records = kept;
            self.settle(newest);
            proof {
                assert(self.record_map() == map_where(old_map, live_at(cutoff)));
            }
        }
        proof {
            assert(is_selection(s, kept@, record_key(), live_at(cutoff), s.len() as int));
            assert(is_selection(s, gone, record_key(), expired_at(cutoff), s.len() as int));
            lemma_settled_base_never_older(old_base, newest);
            self.lemma_dom_len();
        }
    }

    /// Advances the base to `newest` when that is fresher.
    fn settle(&mut self, newest: Option<u32>)
        ensures
            final(self).records@ == old(self).records@,
            final(self).log_base == settled_base(old(self).log_base, newest),
    {
        match newest {
            Some(mx) => {
                if is_fresher_u32(mx, self.log_base) {
                    self.log_base = mx;
                }
            },
            None => {},
        }
    }

    /// Splits the records into the live ones, ascending by user, and the
    /// tombstones expired by `cutoff`, whose newest version is returned.
    fn split_expired(&self, cutoff: u64) -> (r: (Vec<LogRecord>, Option<u32>, Ghost<Seq<LogRecord>>))
        requires
            self.wf(),
        ensures
            is_selection(self.records@, r.0@, record_key(), live_at(cutoff), self.records@.len() as int),
            is_selection(self.records@, r.2@, record_key(), expired_at(cutoff), self.records@.len() as int),
            r.1 == newest_discarded(None, versions_of(r.2@)),
    {
        let ghost s = self.records@;
        let mut kept: Vec<LogRecord> = Vec::new();
        let ghost mut gone: Seq<LogRecord> = seq![];
        let mut newest: Option<u32> = None;
        let n = self.records.len();
        assert(versions_of(gone) =~= Seq::<u32>::empty());
        for i in 0..n
            invariant
                s == self.records@,
                strictly_sorted_by(s, record_key()),
                n == s.len(),
                is_selection(s, kept@, record_key(), live_at(cutoff), i as int),
                is_selection(s, gone, record_key(), expired_at(cutoff), i as int),
                newest == newest_discarded(None, versions_of(gone)),
        {
            let rec = self.records[i];
            proof {
                lemma_selection_step(s, kept@, record_key(), live_at(cutoff), i as int);
                lemma_selection_step(s, gone, record_key(), expired_at(cutoff), i as int);
            }
            let expired = match rec {
                LogRecord::Tombstone { created_ms, .. } => created_ms <= cutoff,
                _ => false,
            };
            if expired {
                proof {
                    lemma_newest_push(None, versions_of(gone), rec.spec_record_version());
                    assert(versions_of(gone.push(rec)) =~= versions_of(gone).push(rec.spec_record_version()));
                    gone = gone.push(rec);
                }
                newest = newest_step(newest, rec.record_version());
            } else {
                kept.push(rec);
            }
        }
        (kept, newest, Ghost(gone))
    }

    proof fn lemma_dom_len(&self)
        requires
            self.wf(),
        ensures
            self.record_map().dom().finite(),
            self.record_map().dom().len() == self.records@.len(),
        decreases self.records@.len(),
    {
        let s = self.records@;
        let keys = s.map_values(|r: LogRecord| record_key()(r));
        assert forall|i: int, j: int| 0 <= i < keys.len() && 0 <= j < keys.len() && i != j implies keys[i]
            != keys[j] by {
            if i < j {
                assert(record_key()(s[i]) < record_key()(s[j]));
            } else {
                assert(record_key()(s[j]) < record_key()(s[i]));
            }
        }
        keys.unique_seq_to_set();
        assert forall|k: u64| #[trigger] self.record_map().dom().contains(k) == keys.to_set().contains(k) by {
            if has_key(s, record_key(), k) {
                let j = choose|j: int| 0 <= j < s.len() && record_key()(#[trigger] s[j]) == k;
                assert(keys[j] == k);
            }
            if keys.to_set().contains(k) {
                let j = choose|j: int| 0 <= j < keys.len() && keys[j] == k;
                assert(record_key()(s[j]) == k);
            }
        }
        assert(self.record_map().dom() =~= keys.to_set());
    }
}

} // verus!
