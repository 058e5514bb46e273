//! The merge of hunks from the two diffs, kept with the hand of every
//! line so that a further hunk can be merged into it.

pub mod merge_fn;

use crate::error::MergeErr;
use crate::hand::Hand;
use crate::hunk::{Hunk, HunkView, header_nums, of_hand};
use crate::hunk::header::{Header, Quad, header_text, quad_wf};
use crate::info::{
    Info, cross_ranked_infos, handed_views, info_views, iter_info, iter_info_X, ranked_infos,
    ranks_fit,
};
use crate::merge::merge_fn::{Handed, merge_fn, merge_of, pair_views, texts};
use crate::text::{reversed, views};
use vstd::prelude::*;

verus! {

/// A merged header and the merged lines, each with the hand it came from.
#[derive(Debug)]
pub struct Merge {
    header: [usize; 4],
    data: Vec<(Hand, String)>,
}

/// The lines of a merge as handed lines.
pub open spec fn as_pairs(lines: Seq<Handed>) -> Seq<(Hand, Seq<char>)> {
    Seq::new(lines.len(), |i: int| (lines[i].hand, lines[i].text))
}

/// The merge of two lists of handed lines under their headers: each line
/// is ranked under its header by its own hand, and the ranked lines are
/// merged. `None` where a rank cannot be held or the lines do not merge.
pub open spec fn merge_handed(
    lheader: [usize; 4],
    llines: Seq<(Hand, Seq<char>)>,
    rheader: [usize; 4],
    rlines: Seq<(Hand, Seq<char>)>,
) -> Option<(Seq<int>, Seq<Handed>)> {
    if ranks_fit(lheader, llines) && ranks_fit(rheader, rlines) {
        merge_of(lheader, ranked_infos(lheader, llines), rheader, ranked_infos(rheader, rlines))
    } else {
        None
    }
}

/// The merge of a hunk, all of whose lines come from `hand`, into a merge
/// with the given header and lines: the hunk's lines come first. `None`
/// where a number of the hunk cannot be held without sign.
pub open spec fn merge_hunk(
    hand: Hand,
    hunk: HunkView,
    header: [usize; 4],
    lines: Seq<(Hand, Seq<char>)>,
) -> Option<(Seq<int>, Seq<Handed>)> {
    if crate::hunk::ranks_in_reach(hunk) {
        merge_handed(header_nums(hunk.header), of_hand(hand, hunk.body()), header, lines)
    } else {
        None
    }
}

/// Exec form of `ranks_fit`.
fn fits(header: &[usize; 4], lines: &Vec<(Hand, String)>) -> (r: bool)
    ensures
        r == ranks_fit(*header, handed_views(lines@)),
{
    lines.len() <= usize::MAX - header[0] && lines.len() <= usize::MAX - header[2]
}

impl Merge {
    /// The header of the merge.
    pub closed spec fn header_spec(&self) -> [usize; 4] {
        self.header
    }

    /// The lines of the merge with their hands.
    pub closed spec fn lines(&self) -> Seq<Handed> {
        pair_views(self.data@)
    }

    /// Whether the merge holds the given header and lines.
    pub open spec fn holds(&self, header: Seq<int>, lines: Seq<Handed>) -> bool {
        crate::hunk::merge::same_header(self.header_spec(), header) && self.lines() == lines
    }

    /// Merges the lines of a left and a right hunk, given with their
    /// hands, under the headers of the two hunks.
    pub fn new(
        lheader: &[usize; 4],
        llines: Vec<(Hand, String)>,
        rheader: &[usize; 4],
        rlines: Vec<(Hand, String)>,
    ) -> (r: Result<Merge, MergeErr>)
        ensures
            match merge_handed(*lheader, handed_views(llines@), *rheader, handed_views(rlines@)) {
                Some((header, lines)) => r is Ok && r->Ok_0.holds(header, lines),
                None => r is Err,
            },
    {
        if !fits(lheader, &llines) || !fits(rheader, &rlines) {
            return Err(crate::error::merge_err("Merge: lines out of range", "", ""));
        }
        let left = iter_info(lheader, llines);
        let right = iter_info(rheader, rlines);
        match merge_fn(lheader, left, rheader, right) {
            Ok(found) => Ok(Merge { header: found.0, data: found.1 }),
            Err(e) => Err(e),
        }
    }

    /// Merges two lists of lines that come with their ranks, under the
    /// headers of the two.
    pub fn of_infos(
        lheader: &[usize; 4],
        llines: Vec<Info>,
        rheader: &[usize; 4],
        rlines: Vec<Info>,
    ) -> (r: Result<Merge, MergeErr>)
        ensures
            match merge_of(*lheader, info_views(llines@), *rheader, info_views(rlines@)) {
                Some((header, lines)) => r is Ok && r->Ok_0.holds(header, lines),
                None => r is Err,
            },
    {
        match merge_fn(lheader, llines, rheader, rlines) {
            Ok(found) => Ok(Merge { header: found.0, data: found.1 }),
            Err(e) => Err(e),
        }
    }

    /// The header, and the lines with their ranks under it: each line is
    /// ranked by the hand opposite to `hand`, whatever hand it came from.
    /// `None` where a rank cannot be held.
    pub fn into_info(self, hand: Hand) -> (r: Option<([usize; 4], Vec<Info>)>)
        ensures
            match r {
                Some(found) => {
                    &&& ranks_fit(self.header_spec(), as_pairs(self.lines()))
                    &&& found.0 == self.header_spec()
                    &&& info_views(found.1@) == cross_ranked_infos(
                        found.0,
                        hand,
                        as_pairs(self.lines()),
                    )
                },
                None => !ranks_fit(self.header_spec(), as_pairs(self.lines())),
            },
    {
        proof {
            assert(handed_views(self.data@) =~= as_pairs(self.lines()));
        }
        if !fits(&self.header, &self.data) {
            return None;
        }
        let infos = iter_info_X(&self.header, hand, self.data);
        Some((self.header, infos))
    }

    /// The header of the merge.
    pub fn header(&self) -> (h: &[usize; 4])
        ensures
            *h == self.header_spec(),
    {
        &self.header
    }

    /// Merges a further hunk, all of whose lines come from `hand`, into
    /// the merge: the hunk's lines come first.
    pub fn merge(self, hand: Hand, hunk: Hunk) -> (r: Result<Merge, MergeErr>)
        requires
            hunk.wf(),
        ensures
            match merge_hunk(hand, hunk@, self.header_spec(), as_pairs(self.lines())) {
                Some((header, lines)) => r is Ok && r->Ok_0.holds(header, lines),
                None => r is Err,
            },
    {
        proof {
            assert(handed_views(self.data@) =~= as_pairs(self.lines()));
        }
        let (header, left) = match hunk.into_info(hand) {
            Some(found) => found,
            None => {
                return Err(crate::error::merge_err("Merge: hunk out of range", "", ""));
            },
        };
        if !fits(&self.header, &self.data) {
            return Err(crate::error::merge_err("Merge: lines out of range", "", ""));
        }
        let right = iter_info(&self.header, self.data);
        match merge_fn(&header, left, &self.header, right) {
            Ok(found) => Ok(Merge { header: found.0, data: found.1 }),
            Err(e) => Err(e),
        }
    }

    /// The hunk with the header and the lines of the merge. `None` where
    /// the header is not valid.
    pub fn into_hunk(self) -> (r: Option<Hunk>)
        ensures
            match r {
                Some(h) => quad_wf(nums_quad(self.header_spec())) && h@ == (HunkView {
                    header: nums_quad(self.header_spec()),
                    lines: seq![header_text(nums_quad(self.header_spec()))] + texts(self.lines()),
                }),
                None => !quad_wf(nums_quad(self.header_spec())),
            },
    {
        match to_header(&self.header) {
            Some(header) => Some(Hunk::new(header, strip(self.data))),
            None => None,
        }
    }

    /// The header and the lines with their hands, parted.
    pub fn into_data(self) -> (r: ([usize; 4], Vec<(Hand, String)>))
        ensures
            r.0 == self.header_spec(),
            pair_views(r.1@) == self.lines(),
    {
        (self.header, self.data)
    }
}

/// The four numbers of a header without sign, as a header.
pub open spec fn nums_quad(nums: [usize; 4]) -> Quad {
    Quad { a: nums[0] as int, b: nums[1] as int, c: nums[2] as int, d: nums[3] as int }
}

/// The header that holds the four numbers, if it is valid.
pub fn to_header(nums: &[usize; 4]) -> (r: Option<Header>)
    ensures
        match r {
            Some(h) => h.wf() && h.quad() == nums_quad(*nums),
            None => !quad_wf(nums_quad(*nums)),
        },
{
    let limit: u128 = i64::MAX as u128;
    if nums[0] as u128 + nums[1] as u128 > limit || nums[2] as u128 + nums[3] as u128 > limit {
        return None;
    }
    Some(Header { fields: [nums[0] as i64, nums[1] as i64, nums[2] as i64, nums[3] as i64] })
}

/// The lines without their hands.
pub fn strip(data: Vec<(Hand, String)>) -> (r: Vec<String>)
    ensures
        views(r@) == texts(pair_views(data@)),
{
    let ghost want = texts(pair_views(data@));
    let mut stack = reversed(data);
    let ghost n = stack.len() as int;
    let mut out: Vec<String> = Vec::new();
    assert(views(out@) =~= want.subrange(0, 0));
    while stack.len() > 0
        invariant
            want.len() == n,
            stack.len() <= n,
            out.len() == n - stack.len(),
            forall|j: int| 0 <= j < stack.len() ==> (#[trigger] stack[j]).1@ == want[n - 1 - j],
            views(out@) == want.subrange(0, out.len() as int),
        decreases stack.len(),
    {
        let ghost seen = views(out@);
        match stack.pop() {
            Some(item) => {
                let ghost line = item.1@;
                out.push(item.1);
                assert(views(out@) =~= seen.push(line));
                assert(seen.push(line) =~= want.subrange(0, out.len() as int));
            },
            None => {},
        }
    }
    assert(want.subrange(0, n) =~= want);
    out
}

} // verus!
