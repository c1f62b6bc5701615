//! Sequence numbers and their circular comparison.

use vstd::prelude::*;

verus! {

/// A 16-bit origin sequence number.
#[derive(Debug, Clone, Copy, PartialEq, Eq, Structural)]
pub struct SeqNum(pub u16);

/// How a received sequence number relates to the stored one.
#[derive(Debug, Clone, Copy, PartialEq, Eq, Structural)]
pub enum Acceptance {
    NoChange,
    Fresher,
    Reboot,
}

/// How far `new` lies ahead of `old` going forward around the 16-bit
/// circle.
pub open spec fn forward_distance16(old: u16, new: u16) -> int {
    if new >= old {
        new - old
    } else {
        new - old + 0x10000
    }
}

/// How far `new` lies ahead of `old` going forward around the 32-bit
/// circle.
pub open spec fn forward_distance32(old: u32, new: u32) -> int {
    if new >= old {
        new - old
    } else {
        new - old + 0x1_0000_0000
    }
}

/// `new` is fresher than `old` when it lies at most half the circle ahead.
pub open spec fn spec_is_fresher_u32(new: u32, old: u32) -> bool {
    1 <= forward_distance32(old, new) <= 0x7fff_ffff
}

impl From<u16> for SeqNum {
    fn from(value: u16) -> (s: SeqNum) {
        SeqNum(value)
    }
}

impl vstd::std_specs::convert::FromSpecImpl<u16> for SeqNum {
    open spec fn obeys_from_spec() -> bool {
        true
    }

    open spec fn from_spec(v: u16) -> SeqNum {
        SeqNum(v)
    }
}

/// rand's `random::<u16>()`. Nothing is stated of the value: it is random.
#[verifier::external_body]
fn random_u16() -> u16 {
    rand::random::<u16>()
}

impl SeqNum {
    /// `new` is fresher than `self` when it lies 1..=32767 ahead.
    pub open spec fn spec_is_fresher(self, new: SeqNum) -> bool {
        1 <= forward_distance16(self.0, new.0) <= 32_767
    }

    /// `new` is a reboot of `self` when it lies more than 100 ahead.
    pub open spec fn spec_is_reboot(self, new: SeqNum) -> bool {
        forward_distance16(self.0, new.0) > 100
    }

    pub open spec fn spec_acceptance(self, new: SeqNum) -> Acceptance {
        let d = forward_distance16(self.0, new.0);
        if d == 0 {
            Acceptance::NoChange
        } else if d <= 100 {
            Acceptance::Fresher
        } else {
            Acceptance::Reboot
        }
    }

    /// A random starting sequence number.
    pub fn new() -> (s: SeqNum) {
        SeqNum(random_u16())
    }

    pub fn is_fresher(&self, new: SeqNum) -> (r: bool)
        ensures
            r == self.spec_is_fresher(new),
    {
        let res = new.0.wrapping_sub(self.0);
        res >= 1 && res <= 32_767
    }

    pub fn is_reboot(&self, new: SeqNum) -> (r: bool)
        ensures
            r == self.spec_is_reboot(new),
    {
        let res = new.0.wrapping_sub(self.0);
        res > 100
    }

    /// Classifies a received sequence number against the stored one.
    pub fn acceptance(&self, new: SeqNum) -> (a: Acceptance)
        ensures
            a == self.spec_acceptance(new),
    {
        let res = new.0.wrapping_sub(self.0);
        if res == 0 {
            Acceptance::NoChange
        } else if res >= 1 && res <= 100 {
            Acceptance::Fresher
        } else {
            Acceptance::Reboot
        }
    }
}

/// Circular "fresher than" on 32-bit versions.
pub fn is_fresher_u32(new: u32, old: u32) -> (r: bool)
    ensures
        r == spec_is_fresher_u32(new, old),
{
    let res = new.wrapping_sub(old);
    res >= 1 && res <= 2_147_483_647
}

/// Freshness is irreflexive and asymmetric: of two distinct sequence
/// numbers at most one is fresher than the other, and none is fresher
/// than itself.
pub proof fn lemma_fresher_asymmetric(a: SeqNum, b: SeqNum)
    ensures
        !a.spec_is_fresher(a),
        a.spec_is_fresher(b) ==> !b.spec_is_fresher(a),
{
}

/// The acceptance classes agree with the predicates: `NoChange` exactly
/// for an equal number, `Reboot` exactly when `is_reboot` holds, and a
/// `Fresher` number is fresher.
pub proof fn lemma_acceptance_consistent(old: SeqNum, new: SeqNum)
    ensures
        (old.spec_acceptance(new) == Acceptance::NoChange) == (old == new),
        (old.spec_acceptance(new) == Acceptance::Reboot) == old.spec_is_reboot(new),
        old.spec_acceptance(new) == Acceptance::Fresher ==> old.spec_is_fresher(new),
{
}

/// Circular freshness of versions is irreflexive and asymmetric.
pub proof fn lemma_fresher_u32_asymmetric(a: u32, b: u32)
    ensures
        !spec_is_fresher_u32(a, a),
        spec_is_fresher_u32(a, b) ==> !spec_is_fresher_u32(b, a),
{
}

/// A version one step ahead (wrapping) is fresher.
pub proof fn lemma_fresher_u32_successor(a: u32)
    ensures
        spec_is_fresher_u32(if a == 0xffff_ffff { 0 } else { (a + 1) as u32 }, a),
{
}

} // verus!
