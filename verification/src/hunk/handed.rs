//! A hunk together with the hand it comes from, and what it can be merged
//! with.

use crate::error::{MergeErr, merge_err};
use crate::hand::Hand;
use crate::hunk::{Hunk, HunkView, header_nums, of_hand, ranks_in_reach};
use crate::hunk::header::{overlap, share};
use crate::info::{Info, cross_ranked_infos, ranked_infos, ranks_fit};
use crate::merge::{Merge, as_pairs, nums_quad};
use crate::merge::merge_fn::{Handed, merge_of};
use vstd::prelude::*;

verus! {

/// A hunk and the diff it is of.
pub struct HandedHunk {
    hand: Hand,
    hunk: Hunk,
}

/// The merge of a hunk of `hand` with the lines of another hunk or merge,
/// which are given with their ranks: the lines of the hunk come first.
/// `None` where a number of the hunk cannot be held.
pub open spec fn merge_with(
    hand: Hand,
    hunk: HunkView,
    header: [usize; 4],
    lines: Seq<crate::info::InfoView>,
) -> Option<(Seq<int>, Seq<Handed>)> {
    if ranks_in_reach(hunk) {
        merge_of(
            header_nums(hunk.header),
            ranked_infos(header_nums(hunk.header), of_hand(hand, hunk.body())),
            header,
            lines,
        )
    } else {
        None
    }
}

impl HandedHunk {
    /// The hand the hunk comes from.
    pub closed spec fn hand(&self) -> Hand {
        self.hand
    }

    /// The hunk.
    pub closed spec fn hunk(&self) -> Hunk {
        self.hunk
    }

    /// The hunk `hunk` of the diff `hand`.
    pub closed spec fn of(hand: Hand, hunk: Hunk) -> HandedHunk {
        HandedHunk { hand, hunk }
    }

    /// The header line of the hunk.
    pub fn to_string(&self) -> (s: String)
        requires
            self.hunk()@.lines.len() >= 1,
        ensures
            s@ == self.hunk()@.lines[0],
    {
        self.hunk.to_string()
    }

    /// The header without sign and the lines with their ranks. `None`
    /// where a number cannot be held.
    fn into_info(self) -> (r: Option<([usize; 4], Vec<Info>)>)
        requires
            self.hunk().wf(),
        ensures
            match r {
                Some(found) => {
                    &&& ranks_in_reach(self.hunk()@)
                    &&& found.0 == header_nums(self.hunk()@.header)
                    &&& crate::info::info_views(found.1@) == ranked_infos(
                        found.0,
                        of_hand(self.hand(), self.hunk()@.body()),
                    )
                },
                None => !ranks_in_reach(self.hunk()@),
            },
    {
        self.hunk.into_info(self.hand)
    }
}

impl From<HandedHunk> for Hunk {
    fn from(hunk: HandedHunk) -> (r: Hunk) {
        hunk.hunk
    }
}

impl vstd::std_specs::convert::FromSpecImpl<HandedHunk> for Hunk {
    open spec fn obeys_from_spec() -> bool {
        true
    }

    open spec fn from_spec(hunk: HandedHunk) -> Hunk {
        hunk.hunk()
    }
}

impl From<(Hand, Hunk)> for HandedHunk {
    fn from(input: (Hand, Hunk)) -> (r: HandedHunk) {
        HandedHunk { hand: input.0, hunk: input.1 }
    }
}

impl vstd::std_specs::convert::FromSpecImpl<(Hand, Hunk)> for HandedHunk {
    open spec fn obeys_from_spec() -> bool {
        true
    }

    open spec fn from_spec(input: (Hand, Hunk)) -> HandedHunk {
        HandedHunk::of(input.0, input.1)
    }
}

/// What a handed hunk can do with a partner of type `T`.
pub trait Mergeable<T>: Sized {
    /// Whether the two are of different diffs and share a line.
    spec fn overlapping(&self, other: &T) -> bool;

    /// Header and lines of the merge; `None` where the two do not merge.
    spec fn merged(&self, other: &T) -> Option<(Seq<int>, Seq<Handed>)>;

    /// Whether the hunks involved are valid.
    spec fn ready(&self, other: &T) -> bool;

    fn overlaps(&self, other: &T) -> (r: bool)
        ensures
            r == self.overlapping(other),
    ;

    /// Merges a hunk with its partner, the lines of the hunk first.
    fn merge(self, other: T) -> (r: Result<Merge, MergeErr>)
        requires
            self.ready(&other),
        ensures
            match self.merged(&other) {
                Some((header, lines)) => r is Ok && r->Ok_0.holds(header, lines),
                None => r is Err,
            },
    ;
}

impl Mergeable<HandedHunk> for HandedHunk {
    open spec fn overlapping(&self, other: &HandedHunk) -> bool {
        self.hand() != other.hand() && overlap(self.hunk()@.header, other.hunk()@.header)
    }

    open spec fn merged(&self, other: &HandedHunk) -> Option<(Seq<int>, Seq<Handed>)> {
        if self.hand() == other.hand() || !ranks_in_reach(other.hunk()@) {
            None
        } else {
            merge_with(
                self.hand(),
                self.hunk()@,
                header_nums(other.hunk()@.header),
                ranked_infos(
                    header_nums(other.hunk()@.header),
                    of_hand(other.hand(), other.hunk()@.body()),
                ),
            )
        }
    }

    open spec fn ready(&self, other: &HandedHunk) -> bool {
        self.hunk().wf() && other.hunk().wf()
    }

    fn overlaps(&self, other: &HandedHunk) -> (r: bool) {
        match (self.hand, other.hand) {
            (Hand::Left, Hand::Right) => self.hunk.overlaps(&other.hunk),
            (Hand::Right, Hand::Left) => other.hunk.overlaps(&self.hunk),
            _ => false,
        }
    }

    fn merge(self, other: HandedHunk) -> (r: Result<Merge, MergeErr>) {
        if self.hand == other.hand {
            return Err(merge_err("Cannot merge same-handed hunks", "", ""));
        }
        let (lheader, liter) = match self.into_info() {
            Some(found) => found,
            None => {
                return Err(merge_err("Hunk out of range", "", ""));
            },
        };
        let (rheader, riter) = match other.into_info() {
            Some(found) => found,
            None => {
                return Err(merge_err("Hunk out of range", "", ""));
            },
        };
        Merge::of_infos(&lheader, liter, &rheader, riter)
    }
}

impl Mergeable<Merge> for HandedHunk {
    open spec fn overlapping(&self, other: &Merge) -> bool {
        overlap(self.hunk()@.header, nums_quad(other.header_spec()))
    }

    open spec fn merged(&self, other: &Merge) -> Option<(Seq<int>, Seq<Handed>)> {
        if ranks_fit(other.header_spec(), as_pairs(other.lines())) {
            merge_with(
                self.hand(),
                self.hunk()@,
                other.header_spec(),
                cross_ranked_infos(other.header_spec(), self.hand(), as_pairs(other.lines())),
            )
        } else {
            None
        }
    }

    open spec fn ready(&self, other: &Merge) -> bool {
        self.hunk().wf()
    }

    fn overlaps(&self, other: &Merge) -> (r: bool) {
        let h = self.hunk.header();
        let m = other.header();
        let before = (m[0] as i128, m[0] as i128 + m[1] as i128);
        let after = (m[2] as i128, m[2] as i128 + m[3] as i128);
        share(h.minus_range(), before) || share(h.plus_range(), after)
    }

    fn merge(self, other: Merge) -> (r: Result<Merge, MergeErr>) {
        let hand = self.hand;
        let (lheader, liter) = match self.into_info() {
            Some(found) => found,
            None => {
                return Err(merge_err("Hunk out of range", "", ""));
            },
        };
        let (rheader, riter) = match other.into_info(hand) {
            Some(found) => found,
            None => {
                return Err(merge_err("Merge out of range", "", ""));
            },
        };
        Merge::of_infos(&lheader, liter, &rheader, riter)
    }
}

} // verus!
