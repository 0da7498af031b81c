//! The total order of hands: by level, and within a level by score.
//!
//! The comparison is a three-way comparator on the pair `(level, score)`;
//! the cards of a hand, and the order of its fields, play no part in it.

use vstd::prelude::*;
use core::cmp::Ordering;
use vstd::std_specs::cmp::{PartialEqSpec, PartialOrdSpec};
use crate::hands::Hand;

verus! {

/// One `(level, score)` pair is strictly weaker than another.
pub open spec fn strength_lt(a: (u8, u64), b: (u8, u64)) -> bool {
    a.0 < b.0 || (a.0 == b.0 && a.1 < b.1)
}

/// One `(level, score)` pair is no stronger than another.
pub open spec fn strength_le(a: (u8, u64), b: (u8, u64)) -> bool {
    a == b || strength_lt(a, b)
}

/// The three-way comparison of two `(level, score)` pairs.
pub open spec fn compare_strength(a: (u8, u64), b: (u8, u64)) -> Ordering {
    if strength_lt(a, b) {
        Ordering::Less
    } else if a == b {
        Ordering::Equal
    } else {
        Ordering::Greater
    }
}

impl Hand {
    /// What hands are compared by.
    pub open spec fn strength(&self) -> (u8, u64) {
        (self.level, self.score)
    }

    /// The three-way comparison of two hands.
    pub fn compare(&self, other: &Hand) -> (order: Ordering)
        ensures
            order == compare_strength(self.strength(), other.strength()),
    {
        if self.level < other.level {
            Ordering::Less
        } else if self.level > other.level {
            Ordering::Greater
        } else if self.score < other.score {
            Ordering::Less
        } else if self.score > other.score {
            Ordering::Greater
        } else {
            Ordering::Equal
        }
    }
}

impl PartialEq for Hand {
    fn eq(&self, other: &Hand) -> (equal: bool) {
        self.level == other.level && self.score == other.score
    }
}

impl vstd::std_specs::cmp::PartialEqSpecImpl for Hand {
    open spec fn obeys_eq_spec() -> bool {
        true
    }

    open spec fn eq_spec(&self, other: &Hand) -> bool {
        self.level == other.level && self.score == other.score
    }
}

impl Eq for Hand {

}

impl PartialOrd for Hand {
    fn partial_cmp(&self, other: &Hand) -> (order: Option<Ordering>) {
        Some(self.compare(other))
    }
}

impl vstd::std_specs::cmp::PartialOrdSpecImpl for Hand {
    open spec fn obeys_partial_cmp_spec() -> bool {
        true
    }

    open spec fn partial_cmp_spec(&self, other: &Hand) -> Option<Ordering> {
        Some(compare_strength(self.strength(), other.strength()))
    }
}

/// Hands of equal level and score are equal and compare as equal, whatever
/// cards they were made of; in particular every hand equals itself.
pub proof fn lemma_equal_strength_is_equal(a: Hand, b: Hand)
    requires
        a.level == b.level,
        a.score == b.score,
    ensures
        a.eq_spec(&b),
        b.eq_spec(&a),
        a.partial_cmp_spec(&b) == Some(Ordering::Equal),
        a.eq_spec(&a),
{
}

/// Of two hands exactly one holds: the first is weaker, they are equal, or
/// the first is stronger; and swapping them swaps weaker and stronger.
pub proof fn lemma_order_is_total(a: Hand, b: Hand)
    ensures
        strength_lt(a.strength(), b.strength()) || a.eq_spec(&b) || strength_lt(
            b.strength(),
            a.strength(),
        ),
        !(strength_lt(a.strength(), b.strength()) && a.eq_spec(&b)),
        !(strength_lt(a.strength(), b.strength()) && strength_lt(b.strength(), a.strength())),
        !(a.eq_spec(&b) && strength_lt(b.strength(), a.strength())),
        a.partial_cmp_spec(&b) == Some(Ordering::Less) <==> b.partial_cmp_spec(&a) == Some(
            Ordering::Greater,
        ),
{
}

/// The order is transitive across hands of any kinds, strictly and
/// non-strictly, and so is equality.
pub proof fn lemma_order_is_transitive(a: Hand, b: Hand, c: Hand)
    ensures
        strength_lt(a.strength(), b.strength()) && strength_lt(b.strength(), c.strength())
            ==> strength_lt(a.strength(), c.strength()),
        strength_le(a.strength(), b.strength()) && strength_le(b.strength(), c.strength())
            ==> strength_le(a.strength(), c.strength()),
        strength_le(a.strength(), b.strength()) && strength_lt(b.strength(), c.strength())
            ==> strength_lt(a.strength(), c.strength()),
        strength_lt(a.strength(), b.strength()) && strength_le(b.strength(), c.strength())
            ==> strength_lt(a.strength(), c.strength()),
        a.eq_spec(&b) && b.eq_spec(&c) ==> a.eq_spec(&c),
{
}

} // verus!
