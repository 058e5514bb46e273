//! A hunk together with the diff it belongs to.

use crate::error::{MergeErr, merge_err};
use crate::hunk::{Hunk, HunkView, hunk_fused};
use crate::hunk::header::overlap;
use vstd::prelude::*;

verus! {

/// A hunk of the left diff or of the right diff.
pub enum FlaggedHunk<'a> {
    Left(&'a Hunk),
    Right(&'a Hunk),
}

impl<'a> FlaggedHunk<'a> {
    /// The hunk, whichever diff it is of.
    pub open spec fn spec_hunk(&self) -> &Hunk {
        match self {
            FlaggedHunk::Left(hunk) => hunk,
            FlaggedHunk::Right(hunk) => hunk,
        }
    }

    /// The hunk, whichever diff it is of.
    pub fn hunk(&self) -> (h: &Hunk)
        ensures
            h == self.spec_hunk(),
    {
        match self {
            FlaggedHunk::Left(hunk) => hunk,
            FlaggedHunk::Right(hunk) => hunk,
        }
    }
}

/// What a flagged hunk can do with a partner of type `T`.
pub trait HunkAdapter<T> {
    /// The hunks that are fused, the left one first; `None` where the
    /// partner is of the same diff.
    spec fn pair(&self, other: &T) -> Option<(HunkView, HunkView)>;

    /// The headers that are held against each other.
    spec fn headers(&self, other: &T) -> (HunkView, HunkView);

    /// Whether the hunks involved are valid.
    spec fn ready(&self, other: &T) -> bool;

    /// Fuses the hunk with its partner, the hunk of the left diff first.
    fn merge(&self, other: &T) -> (r: Result<Hunk, MergeErr>)
        requires
            self.ready(other),
        ensures
            match self.pair(other) {
                Some((l, r0)) => match hunk_fused(l, r0) {
                    Some(v) => r is Ok && r->Ok_0@ == v && r->Ok_0.wf(),
                    None => r is Err,
                },
                None => r is Err,
            },
    ;

    /// Whether the hunk and its partner share a line.
    fn overlaps(&self, other: &T) -> (r: bool)
        ensures
            r == overlap(self.headers(other).0.header, self.headers(other).1.header),
    ;
}

impl<'a> HunkAdapter<FlaggedHunk<'a>> for FlaggedHunk<'a> {
    open spec fn pair(&self, other: &FlaggedHunk<'a>) -> Option<(HunkView, HunkView)> {
        match (self, other) {
            (FlaggedHunk::Left(lh), FlaggedHunk::Right(rh)) => Some((lh@, rh@)),
            (FlaggedHunk::Right(rh), FlaggedHunk::Left(lh)) => Some((lh@, rh@)),
            _ => None,
        }
    }

    open spec fn headers(&self, other: &FlaggedHunk<'a>) -> (HunkView, HunkView) {
        (self.spec_hunk()@, other.spec_hunk()@)
    }

    open spec fn ready(&self, other: &FlaggedHunk<'a>) -> bool {
        self.spec_hunk().wf() && other.spec_hunk().wf()
    }

    fn merge(&self, other: &FlaggedHunk<'a>) -> (r: Result<Hunk, MergeErr>) {
        match (self, other) {
            (FlaggedHunk::Left(lh), FlaggedHunk::Right(rh)) => lh.duplicate().fuse(rh.duplicate()),
            (FlaggedHunk::Right(rh), FlaggedHunk::Left(lh)) => lh.duplicate().fuse(rh.duplicate()),
            _ => Err(merge_err("Tried merging hunks with the same flag", "", "")),
        }
    }

    fn overlaps(&self, other: &FlaggedHunk<'a>) -> (r: bool) {
        self.hunk().overlaps(other.hunk())
    }
}

impl<'a> HunkAdapter<Hunk> for FlaggedHunk<'a> {
    open spec fn pair(&self, other: &Hunk) -> Option<(HunkView, HunkView)> {
        match self {
            FlaggedHunk::Left(hunk) => Some((hunk@, other@)),
            FlaggedHunk::Right(hunk) => Some((other@, hunk@)),
        }
    }

    open spec fn headers(&self, other: &Hunk) -> (HunkView, HunkView) {
        (self.spec_hunk()@, other@)
    }

    open spec fn ready(&self, other: &Hunk) -> bool {
        self.spec_hunk().wf() && other.wf()
    }

    fn merge(&self, other: &Hunk) -> (r: Result<Hunk, MergeErr>) {
        match self {
            FlaggedHunk::Left(hunk) => hunk.duplicate().fuse(other.duplicate()),
            FlaggedHunk::Right(hunk) => other.duplicate().fuse(hunk.duplicate()),
        }
    }

    fn overlaps(&self, other: &Hunk) -> (r: bool) {
        self.hunk().overlaps(other)
    }
}

impl<'a> FlaggedHunk<'a> {
    /// The header line of the hunk.
    pub fn to_string(&self) -> (s: String)
        requires
            self.spec_hunk()@.lines.len() >= 1,
        ensures
            s@ == self.spec_hunk()@.lines[0],
    {
        self.hunk().to_string()
    }
}

} // verus!
