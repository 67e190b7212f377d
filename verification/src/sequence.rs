//! Sequence numbers with wrapping arithmetic and half-range ordering.

use vstd::prelude::*;
use crate::time::{signed32, wrapped_diff_i32};

verus! {

/// Sequence number type alias
pub type SeqNum = u32;

/// Half range for sequence comparison (2^31)
pub const HALF_RANGE: u32 = 0x8000_0000;

/// `x mod 2^32`, as a sequence number.
pub open spec fn wrap32(x: int) -> u32 {
    (x % 0x1_0000_0000) as u32
}

/// Forward distance from `b` to `a` on the 32-bit circle, in `[0, 2^32)`.
pub open spec fn seq_dist(a: u32, b: u32) -> int {
    if a >= b { a - b } else { a - b + 0x1_0000_0000 }
}

/// Sequence number with wrapping arithmetic support.
///
/// Ordering is by half-range comparison, which stays correct across wraparound.
#[derive(Clone, Copy, Debug, PartialEq, Eq, Structural)]
pub struct Sequence(pub SeqNum);

impl Default for Sequence {
    fn default() -> (r: Self)
        ensures
            r == Sequence(0),
    {
        Sequence(0)
    }
}

impl Sequence {
    /// `self` comes strictly after `other`: the forward distance is in `(0, 2^31)`.
    pub open spec fn spec_is_after(self, other: Self) -> bool {
        0 < seq_dist(self.0, other.0) < 0x8000_0000
    }

    /// `self` lies in the half-open circular range `[start, end)`.
    pub open spec fn spec_is_in_range(self, start: Self, end: Self) -> bool {
        seq_dist(self.0, start.0) < seq_dist(end.0, start.0)
    }

    /// The signed distance from `other` to `self`.
    pub open spec fn spec_diff(self, other: Self) -> int {
        signed32(seq_dist(self.0, other.0))
    }

    /// Create a new sequence number
    pub fn new(val: SeqNum) -> (r: Self)
        ensures
            r.0 == val,
    {
        Sequence(val)
    }

    /// Get the raw value
    pub fn value(self) -> (r: SeqNum)
        ensures
            r == self.0,
    {
        self.0
    }

    /// Increment sequence number (wrapping)
    pub fn increment(self) -> (r: Self)
        ensures
            r.0 == wrap32(self.0 + 1),
    {
        Sequence(self.0.wrapping_add(1))
    }

    /// Add offset to sequence number (wrapping)
    pub fn add(self, offset: u32) -> (r: Self)
        ensures
            r.0 == wrap32(self.0 + offset),
    {
        Sequence(self.0.wrapping_add(offset))
    }

    /// Signed difference between sequences (wrapping)
    pub fn diff(self, other: Self) -> (r: i32)
        ensures
            r == self.spec_diff(other),
    {
        wrapped_diff_i32(self.0, other.0)
    }

    /// Check if self is after other (half-range comparison)
    pub fn is_after(self, other: Self) -> (r: bool)
        ensures
            r == self.spec_is_after(other),
    {
        let diff = self.0.wrapping_sub(other.0);
        diff > 0 && diff < HALF_RANGE
    }

    /// Check if self is before other
    pub fn is_before(self, other: Self) -> (r: bool)
        ensures
            r == other.spec_is_after(self),
    {
        other.is_after(self)
    }

    /// Check if self is within the circular range [start, end)
    pub fn is_in_range(self, start: Self, end: Self) -> (r: bool)
        ensures
            r == self.spec_is_in_range(start, end),
    {
        let diff_start = self.0.wrapping_sub(start.0);
        let diff_end = end.0.wrapping_sub(start.0);
        diff_start < diff_end
    }

    /// Convert to ring buffer index using bitwise AND with `mask`
    pub fn to_index(self, mask: usize) -> (r: usize)
        ensures
            r == (self.0 as usize) & mask,
            r <= mask,
    {
        let v = self.0 as usize;
        let r = v & mask;
        assert(v & mask <= mask) by (bit_vector);
        r
    }
}

/// No sequence number is after itself, and "after" is asymmetric.
pub proof fn lemma_after_irreflexive_asymmetric(a: Sequence, b: Sequence)
    ensures
        !a.spec_is_after(a),
        a.spec_is_after(b) ==> !b.spec_is_after(a),
{
}

/// Two distinct sequence numbers are ordered one way or the other,
/// unless they are exactly half the range apart.
pub proof fn lemma_after_total(a: Sequence, b: Sequence)
    requires
        a.0 != b.0,
        seq_dist(a.0, b.0) != 0x8000_0000,
    ensures
        a.spec_is_after(b) || b.spec_is_after(a),
{
}

/// Advancing by `n` in `(0, 2^31)` gives a later sequence number,
/// whose signed difference from the start is `n`.
pub proof fn lemma_add_is_after(a: Sequence, n: u32)
    requires
        0 < n < 0x8000_0000,
    ensures
        Sequence(wrap32(a.0 + n)).spec_is_after(a),
        Sequence(wrap32(a.0 + n)).spec_diff(a) == n,
{
}

/// The range `[start, end)` holds `start` exactly when it is not empty,
/// never holds `end`, and holds exactly the sequence numbers `start + i` for `i` below its length.
pub proof fn lemma_in_range(x: Sequence, start: Sequence, end: Sequence)
    ensures
        start.spec_is_in_range(start, end) <==> start.0 != end.0,
        !end.spec_is_in_range(start, end),
        x.spec_is_in_range(start, end) <==> exists|i: int|
            0 <= i < seq_dist(end.0, start.0) && x.0 == #[trigger] wrap32(start.0 + i),
{
    if x.spec_is_in_range(start, end) {
        let i = seq_dist(x.0, start.0);
        assert(x.0 == wrap32(start.0 + i));
    }
}

/// Masking with `2^k - 1` is reduction modulo `2^k`, for every `k` up to 31.
pub proof fn lemma_index_is_mod(v: u32, k: nat)
    requires
        k <= 31,
    ensures
        (v as usize) & ((vstd::arithmetic::power2::pow2(k) - 1) as usize) == (v as usize)
            % (vstd::arithmetic::power2::pow2(k) as usize),
{
    vstd::arithmetic::power2::lemma_pow2_pos(k);
    vstd::bits::lemma_usize_low_bits_mask_is_mod(v as usize, k);
    assert(vstd::bits::low_bits_mask(k) == vstd::arithmetic::power2::pow2(k) - 1);
}

} // verus!
