//! Candidate masks: bit sets of the values a cell may still take.
//!
//! Value `v` (counted from 1) is present in a mask `m` exactly when bit
//! `v - 1` of `m` is set.  A board of dimension `N` uses the values
//! `1..=N`; an empty mask denotes a contradiction.

use vstd::prelude::*;
use vstd::std_specs::bits::axiom_u32_leading_zeros;
use vstd::std_specs::bits::axiom_u32_trailing_zeros;
use vstd::std_specs::bits::u32_leading_zeros;
use vstd::std_specs::bits::u32_trailing_zeros;

verus! {

/// Value `v` is a member of the mask `m`.
pub open spec fn mask_has(m: u32, v: int) -> bool {
    1 <= v <= 32 && (m >> ((v - 1) as u32)) & 1u32 == 1u32
}

/// Every value of `a` is also a value of `b`.
pub open spec fn mask_subset(a: u32, b: u32) -> bool {
    forall|v: int| mask_has(a, v) ==> mask_has(b, v)
}

/// The smallest value of a nonempty mask (see `lemma_mask_min`).
pub open spec fn mask_min(m: u32) -> int {
    u32_trailing_zeros(m) + 1
}

/// The largest value of a nonempty mask (see `lemma_mask_max`).
pub open spec fn mask_max(m: u32) -> int {
    32 - u32_leading_zeros(m)
}

/// A mask holding exactly one value.
pub open spec fn mask_is_single(m: u32) -> bool {
    m != 0 && mask_min(m) == mask_max(m)
}

/// The mask of the values `1..=k`.
pub open spec fn low_bits(k: int) -> u32
    recommends
        0 <= k <= 31,
{
    !(u32::MAX << (k as u32))
}

/// The mask holding the single value `w`.
pub open spec fn value_bit(w: int) -> u32
    recommends
        1 <= w <= 32,
{
    1u32 << ((w - 1) as u32)
}

proof fn lemma_bit_and(a: u32, b: u32, s: u32)
    by (bit_vector)
    requires
        s < 32,
    ensures
        ((a & b) >> s) & 1u32 == 1u32 <==> ((a >> s) & 1u32 == 1u32 && (b >> s) & 1u32 == 1u32),
{
}

proof fn lemma_bit_or(a: u32, b: u32, s: u32)
    by (bit_vector)
    requires
        s < 32,
    ensures
        ((a | b) >> s) & 1u32 == 1u32 <==> ((a >> s) & 1u32 == 1u32 || (b >> s) & 1u32 == 1u32),
{
}

proof fn lemma_bit_not(a: u32, s: u32)
    by (bit_vector)
    requires
        s < 32,
    ensures
        ((!a) >> s) & 1u32 == 1u32 <==> !((a >> s) & 1u32 == 1u32),
{
}

proof fn lemma_bit_low(k: u32, s: u32)
    by (bit_vector)
    requires
        k <= 31,
        s < 32,
    ensures
        ((!(u32::MAX << k)) >> s) & 1u32 == 1u32 <==> s < k,
{
}

proof fn lemma_bit_single(k: u32, s: u32)
    by (bit_vector)
    requires
        k < 32,
        s < 32,
    ensures
        ((1u32 << k) >> s) & 1u32 == 1u32 <==> s == k,
{
}

proof fn lemma_bit_widen_low(m: u32)
    by (bit_vector)
    ensures
        ((m << 1) | 1u32) & 1u32 == 1u32,
        (((m << 1) | 1u32) >> 0) & 1u32 == ((m << 1) | 1u32) & 1u32,
{
}

proof fn lemma_bit_widen_step(m: u32, t: u32)
    by (bit_vector)
    requires
        t < 31,
    ensures
        (((m << 1) | 1u32) >> (t + 1)) & 1u32 == 1u32 <==> (m >> t) & 1u32 == 1u32,
{
}

proof fn lemma_bit_01(m: u32, s: u32)
    by (bit_vector)
    requires
        s < 32,
    ensures
        (m >> s) & 1u32 == 0u32 || (m >> s) & 1u32 == 1u32,
{
}

proof fn lemma_bit_zero(s: u32)
    by (bit_vector)
    requires
        s < 32,
    ensures
        (0u32 >> s) & 1u32 == 0u32,
{
}

/// Membership in an intersection.
pub proof fn lemma_has_and(a: u32, b: u32)
    ensures
        forall|v: int| #[trigger] mask_has(a & b, v) <==> mask_has(a, v) && mask_has(b, v),
{
    assert forall|v: int| #[trigger] mask_has(a & b, v) <==> mask_has(a, v) && mask_has(b, v) by {
        if 1 <= v <= 32 {
            lemma_bit_and(a, b, (v - 1) as u32);
        }
    }
}

/// Membership in a union.
pub proof fn lemma_has_or(a: u32, b: u32)
    ensures
        forall|v: int| #[trigger] mask_has(a | b, v) <==> mask_has(a, v) || mask_has(b, v),
{
    assert forall|v: int| #[trigger] mask_has(a | b, v) <==> mask_has(a, v) || mask_has(b, v) by {
        if 1 <= v <= 32 {
            lemma_bit_or(a, b, (v - 1) as u32);
        }
    }
}

/// Membership in a difference.
pub proof fn lemma_has_diff(a: u32, b: u32)
    ensures
        forall|v: int| #[trigger] mask_has(a & !b, v) <==> mask_has(a, v) && !mask_has(b, v),
{
    assert forall|v: int| #[trigger] mask_has(a & !b, v) <==> mask_has(a, v) && !mask_has(b, v) by {
        if 1 <= v <= 32 {
            lemma_bit_and(a, !b, (v - 1) as u32);
            lemma_bit_not(b, (v - 1) as u32);
        }
    }
}

/// Membership in the mask of the values `1..=k`.
pub proof fn lemma_has_low(k: int)
    requires
        0 <= k <= 31,
    ensures
        forall|v: int| #[trigger] mask_has(low_bits(k), v) <==> 1 <= v <= k,
{
    assert forall|v: int| #[trigger] mask_has(low_bits(k), v) <==> 1 <= v <= k by {
        if 1 <= v <= 32 {
            lemma_bit_low(k as u32, (v - 1) as u32);
        }
    }
}

/// Membership in a single-value mask.
pub proof fn lemma_has_value_bit(w: int)
    requires
        1 <= w <= 32,
    ensures
        forall|v: int| #[trigger] mask_has(value_bit(w), v) <==> v == w,
{
    assert forall|v: int| #[trigger] mask_has(value_bit(w), v) <==> v == w by {
        if 1 <= v <= 32 {
            lemma_bit_single((w - 1) as u32, (v - 1) as u32);
        }
    }
}

/// The empty mask has no values.
pub proof fn lemma_has_zero()
    ensures
        forall|v: int| !#[trigger] mask_has(0u32, v),
{
    assert forall|v: int| !#[trigger] mask_has(0u32, v) by {
        if 1 <= v <= 32 {
            lemma_bit_zero((v - 1) as u32);
        }
    }
}

/// Membership in a mask widened one position towards higher values,
/// with the lowest value set: `(m << 1) | 1`.
pub proof fn lemma_has_widen(m: u32)
    ensures
        forall|v: int| #[trigger] mask_has((m << 1) | 1u32, v)
            <==> (v == 1 || (2 <= v <= 32 && mask_has(m, v - 1))),
{
    assert forall|v: int| #[trigger] mask_has((m << 1) | 1u32, v)
        <==> (v == 1 || (2 <= v <= 32 && mask_has(m, v - 1))) by {
        if v == 1 {
            lemma_bit_widen_low(m);
        } else if 2 <= v <= 32 {
            lemma_bit_widen_step(m, (v - 2) as u32);
        }
    }
}

/// Removing the empty mask removes nothing.
pub proof fn lemma_diff_zero(a: u32)
    by (bit_vector)
    ensures
        a & !0u32 == a,
{
}

/// The smallest value of a nonempty mask: present, and below no member.
pub proof fn lemma_mask_min(m: u32)
    requires
        m != 0,
    ensures
        1 <= mask_min(m) <= 32,
        mask_has(m, mask_min(m)),
        forall|v: int| #[trigger] mask_has(m, v) ==> mask_min(m) <= v,
{
    axiom_u32_trailing_zeros(m);
    let tz = u32_trailing_zeros(m);
    assert(mask_has(m, tz + 1));
    assert forall|v: int| #[trigger] mask_has(m, v) implies mask_min(m) <= v by {
        if v < tz + 1 {
            assert((m >> ((v - 1) as u32)) & 1u32 == 0u32);
        }
    }
}

/// The largest value of a nonempty mask: present, and above no member.
pub proof fn lemma_mask_max(m: u32)
    requires
        m != 0,
    ensures
        1 <= mask_max(m) <= 32,
        mask_has(m, mask_max(m)),
        forall|v: int| #[trigger] mask_has(m, v) ==> v <= mask_max(m),
{
    axiom_u32_leading_zeros(m);
    let lz = u32_leading_zeros(m);
    assert(((32 - lz) - 1) as u32 == (31 - lz as int) as u32);
    lemma_bit_01(m, ((32 - lz) - 1) as u32);
    assert(mask_has(m, 32 - lz));
    assert forall|v: int| #[trigger] mask_has(m, v) implies v <= mask_max(m) by {
        if v > 32 - lz {
            assert((m >> ((v - 1) as u32)) & 1u32 == 0u32);
        }
    }
}

/// The number of values of `m` that are at least `v`.
pub open spec fn count_from(m: u32, v: int) -> int
    decreases 33 - v,
{
    if v >= 33 {
        0
    } else {
        (if mask_has(m, v) {
            1int
        } else {
            0int
        }) + count_from(m, v + 1)
    }
}

/// The number of values of `m`.
pub open spec fn mask_card(m: u32) -> int {
    count_from(m, 1)
}

proof fn lemma_count_from_nonneg(m: u32, v: int)
    ensures
        count_from(m, v) >= 0,
    decreases 33 - v,
{
    if v < 33 {
        lemma_count_from_nonneg(m, v + 1);
    }
}

proof fn lemma_count_from_le(a: u32, b: u32, v: int)
    requires
        mask_subset(a, b),
    ensures
        count_from(a, v) <= count_from(b, v),
    decreases 33 - v,
{
    if v < 33 {
        lemma_count_from_le(a, b, v + 1);
    }
}

proof fn lemma_count_from_lt(a: u32, b: u32, v: int, w: int)
    requires
        mask_subset(a, b),
        mask_has(b, w),
        !mask_has(a, w),
        v <= w,
    ensures
        count_from(a, v) < count_from(b, v),
    decreases 33 - v,
{
    if v == w {
        lemma_count_from_le(a, b, v + 1);
    } else {
        lemma_count_from_lt(a, b, v + 1, w);
    }
}

/// Cards are nonnegative.
pub proof fn lemma_card_nonneg(m: u32)
    ensures
        mask_card(m) >= 0,
{
    lemma_count_from_nonneg(m, 1);
}

/// A subset has at most as many values.
pub proof fn lemma_card_le(a: u32, b: u32)
    requires
        mask_subset(a, b),
    ensures
        mask_card(a) <= mask_card(b),
{
    lemma_count_from_le(a, b, 1);
}

/// A subset missing one of the values of its superset has strictly fewer.
pub proof fn lemma_card_lt(a: u32, b: u32, w: int)
    requires
        mask_subset(a, b),
        mask_has(b, w),
        !mask_has(a, w),
    ensures
        mask_card(a) < mask_card(b),
{
    lemma_count_from_lt(a, b, 1, w);
}

/// A bit set of candidate values for one cell.
#[derive(Clone, Copy, Debug, PartialEq, Eq, Structural)]
pub struct ValueMask {
    bits: u32,
}

impl View for ValueMask {
    type V = u32;

    closed spec fn view(&self) -> u32 {
        self.bits
    }
}

impl ValueMask {
    /// The mask with no values.
    pub fn empty() -> (r: Self)
        ensures
            r@ == 0u32,
    {
        ValueMask { bits: 0 }
    }

    /// A mask from its raw bits.
    pub fn from_raw(bits: u32) -> (r: Self)
        ensures
            r@ == bits,
    {
        ValueMask { bits }
    }

    /// The raw bits of the mask.
    pub fn raw(&self) -> (r: u32)
        ensures
            r == self@,
    {
        self.bits
    }

    /// The full mask of a board of dimension `size`: the values `1..=size`.
    pub fn from_all_values(size: usize) -> (r: Self)
        requires
            size <= 31,
        ensures
            r@ == low_bits(size as int),
            forall|v: int| #[trigger] mask_has(r@, v) <==> 1 <= v <= size,
    {
        proof {
            lemma_has_low(size as int);
        }
        ValueMask { bits: !(u32::MAX << (size as u32)) }
    }

    /// The mask of all values strictly below `v`.
    pub fn from_lower(v: usize) -> (r: Self)
        requires
            1 <= v <= 32,
        ensures
            r@ == low_bits(v - 1),
            forall|w: int| #[trigger] mask_has(r@, w) <==> 1 <= w < v,
    {
        let bits = !(u32::MAX << ((v - 1) as u32));
        proof {
            lemma_has_low(v - 1);
            assert(bits == low_bits(v - 1));
            assert(forall|w: int| #[trigger] mask_has(bits, w) <==> 1 <= w <= v - 1);
        }
        ValueMask { bits }
    }

    /// The mask of all values at or below `v`.
    pub fn from_lower_equal(v: usize) -> (r: Self)
        requires
            v <= 31,
        ensures
            r@ == low_bits(v as int),
            forall|w: int| #[trigger] mask_has(r@, w) <==> 1 <= w <= v,
    {
        proof {
            lemma_has_low(v as int);
        }
        ValueMask { bits: !(u32::MAX << (v as u32)) }
    }

    /// The mask of all values strictly above `v`, within a board of
    /// dimension `size`.
    pub fn from_higher(v: usize, size: usize) -> (r: Self)
        requires
            v <= 31,
            size <= 31,
        ensures
            r@ == (low_bits(size as int) & !low_bits(v as int)),
            forall|w: int| #[trigger] mask_has(r@, w) <==> v < w <= size,
    {
        proof {
            lemma_has_low(size as int);
            lemma_has_low(v as int);
            lemma_has_diff(low_bits(size as int), low_bits(v as int));
        }
        ValueMask { bits: !(u32::MAX << (size as u32)) & !(!(u32::MAX << (v as u32))) }
    }

    /// The mask holding the single value `v`.
    pub fn from_value(v: usize) -> (r: Self)
        requires
            1 <= v <= 32,
        ensures
            r@ == value_bit(v as int),
            forall|w: int| #[trigger] mask_has(r@, w) <==> w == v,
    {
        proof {
            lemma_has_value_bit(v as int);
        }
        ValueMask { bits: 1u32 << ((v - 1) as u32) }
    }

    /// The union of two masks.
    pub fn union_with(&self, other: &ValueMask) -> (r: Self)
        ensures
            r@ == (self@ | other@),
            forall|v: int| #[trigger] mask_has(r@, v) <==> mask_has(self@, v) || mask_has(other@, v),
    {
        proof {
            lemma_has_or(self.bits, other.bits);
        }
        ValueMask { bits: self.bits | other.bits }
    }

    /// The intersection of two masks.
    pub fn intersect(&self, other: &ValueMask) -> (r: Self)
        ensures
            r@ == (self@ & other@),
            forall|v: int| #[trigger] mask_has(r@, v) <==> mask_has(self@, v) && mask_has(other@, v),
    {
        proof {
            lemma_has_and(self.bits, other.bits);
        }
        ValueMask { bits: self.bits & other.bits }
    }

    /// The values of this mask that are not in `other`.
    pub fn minus(&self, other: &ValueMask) -> (r: Self)
        ensures
            r@ == (self@ & !other@),
            forall|v: int| #[trigger] mask_has(r@, v) <==> mask_has(self@, v) && !mask_has(other@, v),
    {
        proof {
            lemma_has_diff(self.bits, other.bits);
        }
        ValueMask { bits: self.bits & !other.bits }
    }

    /// The complement of this mask within the full value set of a board
    /// of dimension `size`.
    pub fn complement_within(&self, size: usize) -> (r: Self)
        requires
            size <= 31,
        ensures
            forall|v: int| #[trigger] mask_has(r@, v) <==> 1 <= v <= size && !mask_has(self@, v),
    {
        proof {
            lemma_has_low(size as int);
            lemma_has_diff(low_bits(size as int), self.bits);
        }
        ValueMask { bits: !(u32::MAX << (size as u32)) & !self.bits }
    }

    /// Whether two masks hold exactly the same values.
    pub fn same(&self, other: &ValueMask) -> (r: bool)
        ensures
            r == (self@ == other@),
    {
        self.bits == other.bits
    }

    /// Whether the mask holds no value at all.
    pub fn is_empty(&self) -> (r: bool)
        ensures
            r == (self@ == 0u32),
    {
        self.bits == 0
    }

    /// Whether the mask holds the value `v`.
    pub fn contains(&self, v: usize) -> (r: bool)
        requires
            1 <= v <= 32,
        ensures
            r == mask_has(self@, v as int),
    {
        (self.bits >> ((v - 1) as u32)) & 1u32 == 1u32
    }

    /// The smallest value of a nonempty mask.
    pub fn min(&self) -> (r: usize)
        requires
            self@ != 0u32,
        ensures
            r == mask_min(self@),
            1 <= r <= 32,
    {
        proof {
            axiom_u32_trailing_zeros(self.bits);
        }
        (self.bits.trailing_zeros() + 1) as usize
    }

    /// The largest value of a nonempty mask.
    pub fn max(&self) -> (r: usize)
        requires
            self@ != 0u32,
        ensures
            r == mask_max(self@),
            1 <= r <= 32,
    {
        proof {
            axiom_u32_leading_zeros(self.bits);
        }
        (32 - self.bits.leading_zeros()) as usize
    }

    /// Whether the mask holds exactly one value.
    pub fn is_single(&self) -> (r: bool)
        ensures
            r == mask_is_single(self@),
    {
        if self.bits == 0 {
            false
        } else {
            self.min() == self.max()
        }
    }

    /// The value of a mask that holds exactly one.
    pub fn value(&self) -> (r: usize)
        requires
            mask_is_single(self@),
        ensures
            r == mask_min(self@),
            r == mask_max(self@),
            mask_has(self@, r as int),
    {
        proof {
            lemma_mask_min(self.bits);
        }
        self.min()
    }
}

} // verus!
