//! Allocation of the 16-bit indexes of one index space.

use vstd::prelude::*;

use bitvec::order::Lsb0;
use bitvec::vec::BitVec;
use std::collections::VecDeque;
use std::time::{Duration, Instant};

verus! {

/// One bit per index of a space: bitvec's `BitVec<u8, Lsb0>`, held where
/// Verus sees only the names and wrappers below.
#[verifier::external_body]
pub struct OccupancyBits {
    bits: BitVec<u8, Lsb0>,
}

#[verifier::external_type_specification]
#[verifier::external_body]
pub struct ExInstant(Instant);

/// The bits a bit-vector holds, in index order.
pub uninterp spec fn bit_contents(v: OccupancyBits) -> Seq<bool>;

/// bitvec's `BitVec::repeat(false, len)`: `len` clear bits.
#[verifier::external_body]
fn bits_cleared(len: usize) -> (r: OccupancyBits)
    requires
        len <= 65536,
    ensures
        bit_contents(r) == Seq::new(len as nat, |i: int| false),
{
    OccupancyBits { bits: BitVec::repeat(false, len) }
}

/// bitvec's indexing of a bit-vector: the bit at `i`.
#[verifier::external_body]
fn bits_get(v: &OccupancyBits, i: usize) -> (r: bool)
    requires
        i < bit_contents(*v).len(),
    ensures
        r == bit_contents(*v)[i as int],
{
    v.bits[i]
}

/// bitvec's `BitSlice::set`: writes the bit at `i`.
#[verifier::external_body]
fn bits_set(v: &mut OccupancyBits, i: usize, value: bool)
    requires
        i < bit_contents(*old(v)).len(),
    ensures
        bit_contents(*final(v)) == bit_contents(*old(v)).update(i as int, value),
{
    v.bits.set(i, value)
}

/// std's `Instant::now`. Nothing is stated: it reads the clock.
#[verifier::external_body]
fn instant_now() -> (r: Instant) {
    Instant::now()
}

/// std's `Instant::duration_since` (zero where `earlier` is later).
/// Nothing is stated: the instants are opaque to Verus.
#[verifier::external_body]
fn duration_since(now: &Instant, earlier: &Instant) -> (r: Duration) {
    now.duration_since(*earlier)
}

/// std's `Duration::as_secs`: the whole seconds of a duration. Nothing is
/// stated: the duration is opaque to Verus.
#[verifier::external_body]
fn duration_secs(d: &Duration) -> (r: u64) {
    d.as_secs()
}

/// The index never handed out.
pub const RESERVED_INDEX: u16 = 0;

/// How long a released index rests before it is handed out again.
pub const COOLDOWN_SECS: u64 = 60;

/// Some released index in `cd` is `idx`.
pub open spec fn in_cooldown(cd: Seq<(u16, Instant)>, idx: u16) -> bool {
    exists|j: int| 0 <= j < cd.len() && (#[trigger] cd[j]).0 == idx
}

/// An index that may be handed out: not the reserved one, not resting,
/// not taken.
pub open spec fn index_free(occupied: Seq<bool>, cd: Seq<(u16, Instant)>, idx: u16) -> bool {
    &&& idx != RESERVED_INDEX
    &&& !in_cooldown(cd, idx)
    &&& !occupied[idx as int]
}

/// The index `s` steps after `cursor`, wrapping after 65,535.
pub open spec fn probe(cursor: u16, s: int) -> u16 {
    ((cursor + s) % 65536) as u16
}

/// Allocating from `cursor` hands out `idx`, the first free index in
/// wrapping order from the cursor, marks it taken and moves the cursor
/// just past it.
pub open spec fn allocates(
    occupied: Seq<bool>,
    cd: Seq<(u16, Instant)>,
    cursor: u16,
    idx: u16,
    occupied2: Seq<bool>,
    cursor2: u16,
) -> bool {
    exists|s: int|
        #![trigger probe(cursor, s)]
        {
            &&& 0 <= s < 65536
            &&& idx == probe(cursor, s)
            &&& index_free(occupied, cd, idx)
            &&& forall|t: int| 0 <= t < s ==> !index_free(occupied, cd, #[trigger] probe(cursor, t))
            &&& cursor2 == probe(cursor, s + 1)
            &&& occupied2 == occupied.update(idx as int, true)
        }
}

/// The index allocator of one index space: a cursor that wraps over the
/// 16-bit range, the released indexes still resting, and which indexes
/// are taken.
pub struct IndexAllocator {
    cursor: u16,
    cooldown: VecDeque<(u16, Instant)>,
    occupiers: OccupancyBits,
}

impl IndexAllocator {
    pub closed spec fn spec_cursor(&self) -> u16 {
        self.cursor
    }

    /// The released indexes, oldest first, with when each was released.
    pub closed spec fn spec_cooldown(&self) -> Seq<(u16, Instant)> {
        self.cooldown@
    }

    /// Which indexes are taken.
    pub closed spec fn spec_occupied(&self) -> Seq<bool> {
        bit_contents(self.occupiers)
    }

    pub open spec fn wf(&self) -> bool {
        self.spec_occupied().len() == 65536
    }

    /// An allocator with every index free and the cursor at zero.
    pub fn new() -> (a: IndexAllocator)
        ensures
            a.wf(),
            a.spec_cursor() == 0,
            a.spec_cooldown() == Seq::<(u16, Instant)>::empty(),
            a.spec_occupied() == Seq::new(65536, |i: int| false),
    {
        IndexAllocator { cursor: 0, cooldown: VecDeque::new(), occupiers: bits_cleared(65536) }
    }

    /// Whether `idx` is resting after a release.
    pub fn idx_in_cooldown(&self, idx: u16) -> (r: bool)
        ensures
            r == in_cooldown(self.spec_cooldown(), idx),
    {
        let n = self.cooldown.len();
        let mut j = 0usize;
        while j < n
            invariant
                n == self.cooldown@.len(),
                j <= n,
                forall|m: int| 0 <= m < j ==> (#[trigger] self.cooldown@[m]).0 != idx,
            decreases n - j,
        {
            if self.cooldown[j].0 == idx {
                return true;
            }
            j += 1;
        }
        false
    }

    /// The whole seconds each released index has rested, oldest first,
    /// measured against `now`.
    fn cooldown_ages(&self, now: &Instant) -> (r: Vec<u64>)
        ensures
            r@.len() == self.spec_cooldown().len(),
    {
        let n = self.cooldown.len();
        let mut ages: Vec<u64> = Vec::new();
        let mut j = 0usize;
        while j < n
            invariant
                n == self.cooldown@.len(),
                j <= n,
                ages@.len() == j,
            decreases n - j,
        {
            let waited = duration_since(now, &self.cooldown[j].1);
            ages.push(duration_secs(&waited));
            j += 1;
        }
        ages
    }

    /// Drops the `d` oldest releases.
    fn drop_oldest(&mut self, d: usize)
        requires
            d <= old(self).spec_cooldown().len(),
        ensures
            final(self).spec_cursor() == old(self).spec_cursor(),
            final(self).spec_occupied() == old(self).spec_occupied(),
            final(self).spec_cooldown() == old(self).spec_cooldown().skip(d as int),
    {
        let mut k = 0usize;
        while k < d
            invariant
                k <= d,
                d <= old(self).cooldown@.len(),
                self.cursor == old(self).cursor,
                self.occupiers == old(self).occupiers,
                self.cooldown@ == old(self).cooldown@.skip(k as int),
            decreases d - k,
        {
            let _ = self.cooldown.pop_front();
            proof {
                assert(old(self).cooldown@.skip(k as int).subrange(1, old(self).cooldown@.skip(k as int).len() as int)
                    =~= old(self).cooldown@.skip(k as int + 1));
            }
            k += 1;
        }
    }

    /// Hands out an index now: the releases' ages are measured on the
    /// clock and the allocation is `allocate_aged`'s for them.
    pub fn allocate(&mut self) -> (r: Option<u16>)
        requires
            old(self).wf(),
        ensures
            final(self).wf(),
            allocation(*old(self), *final(self), r),
            exists|ages: Seq<u64>|
                ages.len() == old(self).spec_cooldown().len() && #[trigger] aged_allocation(
                    *old(self),
                    *final(self),
                    ages,
                    r,
                ),
    {
        let now = instant_now();
        let ages = self.cooldown_ages(&now);
        self.allocate_aged(&ages)
    }

    /// Hands out the first free index at or after the cursor, in
    /// wrapping order, after dropping the releases that have rested their
    /// time by `ages` (each release's age in whole seconds, oldest
    /// first); `None` when every index is reserved, resting or taken.
    pub fn allocate_aged(&mut self, ages: &Vec<u64>) -> (r: Option<u16>)
        requires
            old(self).wf(),
            ages@.len() == old(self).spec_cooldown().len(),
        ensures
            final(self).wf(),
            aged_allocation(*old(self), *final(self), ages@, r),
    {
        let d = rested_prefix(ages);
        self.drop_oldest(d);
        let ghost c0 = self.cursor;
        let ghost occ0 = self.spec_occupied();
        let ghost cd = self.spec_cooldown();
        let mut i = 0usize;
        while i < 65536
            invariant
                i <= 65536,
                d == rested_count(ages@),
                d <= old(self).spec_cooldown().len(),
                cd == old(self).spec_cooldown().skip(d as int),
                c0 == old(self).spec_cursor(),
                occ0 == old(self).spec_occupied(),
                self.spec_occupied() == occ0,
                self.spec_cooldown() == cd,
                occ0.len() == 65536,
                self.cursor == probe(c0, i as int),
                forall|t: int| 0 <= t < i ==> !index_free(occ0, cd, #[trigger] probe(c0, t)),
            decreases 65536 - i,
        {
            let idx = self.cursor;
            self.cursor = self.cursor.wrapping_add(1);
            proof {
                assert(self.cursor == probe(c0, i as int + 1));
            }
            if idx != RESERVED_INDEX && !self.idx_in_cooldown(idx) && !bits_get(&self.occupiers, idx as usize) {
                bits_set(&mut self.occupiers, idx as usize, true);
                proof {
                    assert(idx == probe(c0, i as int));
                    assert(index_free(occ0, cd, idx));
                    assert(self.spec_cursor() == probe(c0, i as int + 1));
                    assert(self.spec_occupied() == occ0.update(idx as int, true));
                }
                return Some(idx);
            }
            i += 1;
        }
        proof {
            assert(probe(c0, 65536) == c0);
        }
        None
    }

    /// Frees `idx` and lets it rest, released at `now`.
    pub fn release(&mut self, idx: u16, now: Instant)
        requires
            old(self).wf(),
        ensures
            final(self).wf(),
            final(self).spec_cursor() == old(self).spec_cursor(),
            final(self).spec_occupied() == old(self).spec_occupied().update(idx as int, false),
            final(self).spec_cooldown() == old(self).spec_cooldown().push((idx, now)),
    {
        bits_set(&mut self.occupiers, idx as usize, false);
        self.cooldown.push_back((idx, now));
    }
}

/// What allocating does: the rested releases are dropped, oldest first;
/// then either the first free index in wrapping order from the cursor is
/// handed out and taken, or no index is free and nothing else changes.
pub open spec fn allocation(before: IndexAllocator, after: IndexAllocator, r: Option<u16>) -> bool {
    &&& exists|d: int|
        0 <= d <= before.spec_cooldown().len() && after.spec_cooldown() == before.spec_cooldown().skip(d)
    &&& r matches Some(idx) ==> allocates(
        before.spec_occupied(),
        after.spec_cooldown(),
        before.spec_cursor(),
        idx,
        after.spec_occupied(),
        after.spec_cursor(),
    )
    &&& r is None ==> (forall|t: int|
        0 <= t < 65536 ==> !index_free(
            before.spec_occupied(),
            after.spec_cooldown(),
            #[trigger] probe(before.spec_cursor(), t),
        ))
    &&& r is None ==> after.spec_occupied() == before.spec_occupied()
    &&& r is None ==> after.spec_cursor() == before.spec_cursor()
}

/// How many of the oldest releases, by `ages` (whole seconds each has
/// rested, oldest first), have rested their time: the leading run of
/// ages of at least `COOLDOWN_SECS`.
pub open spec fn rested_count(ages: Seq<u64>) -> nat
    decreases ages.len(),
{
    if ages.len() == 0 {
        0
    } else if ages[0] >= COOLDOWN_SECS {
        1 + rested_count(ages.skip(1))
    } else {
        0
    }
}

/// The number of the oldest releases that have rested their time.
pub fn rested_prefix(ages: &Vec<u64>) -> (d: usize)
    ensures
        d == rested_count(ages@),
        d <= ages@.len(),
{
    let n = ages.len();
    let mut d = 0usize;
    assert(ages@.skip(0) =~= ages@);
    while d < n
        invariant
            n == ages@.len(),
            d <= n,
            rested_count(ages@) == d + rested_count(ages@.skip(d as int)),
        decreases n - d,
    {
        if ages[d] < COOLDOWN_SECS {
            return d;
        }
        assert(ages@.skip(d as int).skip(1) =~= ages@.skip(d as int + 1));
        d += 1;
    }
    d
}

/// Allocation with the releases' ages given: exactly the releases that
/// have rested their time by `ages` are dropped, and the rest is
/// `allocation`.
pub open spec fn aged_allocation(before: IndexAllocator, after: IndexAllocator, ages: Seq<u64>, r: Option<u16>) -> bool {
    &&& rested_count(ages) <= before.spec_cooldown().len()
    &&& after.spec_cooldown() == before.spec_cooldown().skip(rested_count(ages) as int)
    &&& allocation(before, after, r)
}

/// Two allocations in a row never hand out the same index, whatever the
/// releases resting in between.
pub proof fn lemma_allocations_distinct(
    occupied: Seq<bool>,
    cd1: Seq<(u16, Instant)>,
    cd2: Seq<(u16, Instant)>,
    cursor: u16,
    a: u16,
    occupied1: Seq<bool>,
    cursor1: u16,
    b: u16,
    occupied2: Seq<bool>,
    cursor2: u16,
)
    requires
        occupied.len() == 65536,
        allocates(occupied, cd1, cursor, a, occupied1, cursor1),
        allocates(occupied1, cd2, cursor1, b, occupied2, cursor2),
    ensures
        a != b,
        occupied2[a as int] && occupied2[b as int],
{
    let s = choose|s: int|
        #![trigger probe(cursor, s)]
        {
            &&& 0 <= s < 65536
            &&& a == probe(cursor, s)
            &&& index_free(occupied, cd1, a)
            &&& forall|t: int| 0 <= t < s ==> !index_free(occupied, cd1, #[trigger] probe(cursor, t))
            &&& cursor1 == probe(cursor, s + 1)
            &&& occupied1 == occupied.update(a as int, true)
        };
    let s2 = choose|s2: int|
        #![trigger probe(cursor1, s2)]
        {
            &&& 0 <= s2 < 65536
            &&& b == probe(cursor1, s2)
            &&& index_free(occupied1, cd2, b)
            &&& forall|t: int| 0 <= t < s2 ==> !index_free(occupied1, cd2, #[trigger] probe(cursor1, t))
            &&& cursor2 == probe(cursor1, s2 + 1)
            &&& occupied2 == occupied1.update(b as int, true)
        };
    assert(occupied1[a as int]);
}

} // verus!
