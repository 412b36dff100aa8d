//! Occurrence counts.

use vstd::prelude::*;

verus! {

/// The sum of two counts, saturating at the largest representable count.
/// Saturating addition is associative and commutative, which is what makes
/// histogram combination order-insensitive.
pub open spec fn sat_add(a: u64, b: u64) -> u64 {
    if a + b > u64::MAX {
        u64::MAX
    } else {
        (a + b) as u64
    }
}

/// An occurrence count of a token or of an adjacent token pair.
#[derive(Clone, Copy, PartialEq, Eq, PartialOrd, Ord, Hash, Debug, Structural)]
pub struct Count(pub u64);

impl Count {
    pub fn new(value: u64) -> (c: Count)
        ensures
            c.0 == value,
    {
        Count(value)
    }

    /// Orders two counts descending: the larger count comes first.
    pub fn by_desc(&self, other: &Count) -> (o: core::cmp::Ordering)
        ensures
            o == core::cmp::Ordering::Less <==> self.0 > other.0,
            o == core::cmp::Ordering::Equal <==> self.0 == other.0,
            o == core::cmp::Ordering::Greater <==> self.0 < other.0,
    {
        if self.0 > other.0 {
            core::cmp::Ordering::Less
        } else if self.0 == other.0 {
            core::cmp::Ordering::Equal
        } else {
            core::cmp::Ordering::Greater
        }
    }

    /// A sort key that orders counts descending when sorted ascending.
    pub fn by_key_desc(self) -> (k: u64)
        ensures
            k == u64::MAX - self.0,
    {
        u64::MAX - self.0
    }

    pub fn into_inner(self) -> (v: u64)
        ensures
            v == self.0,
    {
        self.0
    }

    /// This count plus another, saturating.
    pub fn plus(self, other: Count) -> (c: Count)
        ensures
            c.0 == sat_add(self.0, other.0),
    {
        if self.0 > u64::MAX - other.0 {
            Count(u64::MAX)
        } else {
            Count(self.0 + other.0)
        }
    }
}

impl Default for Count {
    /// The zero count.
    fn default() -> (c: Count)
        ensures
            c.0 == 0,
    {
        Count(0)
    }
}

/// Saturating addition is commutative.
pub proof fn lemma_sat_add_commutative(a: u64, b: u64)
    ensures
        sat_add(a, b) == sat_add(b, a),
{
}

/// Saturating addition is associative.
pub proof fn lemma_sat_add_associative(a: u64, b: u64, c: u64)
    ensures
        sat_add(sat_add(a, b), c) == sat_add(a, sat_add(b, c)),
{
}

} // verus!
