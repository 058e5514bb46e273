//! Which of the two diffs of a fusion something comes from.

use core::cmp::Ordering;
use vstd::prelude::*;

verus! {

/// The left diff is the one applied first, the right diff the one applied
/// second.
#[derive(Clone, Copy, Debug, PartialEq, Eq, Structural)]
pub enum Hand {
    Left,
    Right,
}

impl Hand {
    /// Left comes before right.
    pub fn cmp(&self, other: &Hand) -> (o: Ordering)
        ensures
            o == Ordering::Less <==> *self == Hand::Left && *other == Hand::Right,
            o == Ordering::Greater <==> *self == Hand::Right && *other == Hand::Left,
            o == Ordering::Equal <==> *self == *other,
    {
        match (self, other) {
            (Hand::Left, Hand::Right) => Ordering::Less,
            (Hand::Right, Hand::Left) => Ordering::Greater,
            _ => Ordering::Equal,
        }
    }
}

} // verus!
