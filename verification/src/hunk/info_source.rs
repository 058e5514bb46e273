//! The two streams of a single pair of hunks.

use crate::fuse::info_iter::{InfoIter, rank_fits};
use crate::fuse::info_source::{Side, Streams};
use crate::fuse::line::{Line, advanced, ranked};
use crate::hunk::{Hunk, HunkView, body_ok};
use crate::hunk::header::{Header, Quad, quad_wf};
use crate::tags::tagged;
use vstd::prelude::*;

verus! {

/// The streams of one left and one right hunk.
pub struct InfoSource {
    left: InfoIter,
    right: InfoIter,
    left_header: Header,
    right_header: Header,
}

/// The streams of a left and a right hunk with no hunk waiting behind
/// either.
pub open spec fn pair_streams(l: HunkView, r: HunkView) -> Streams {
    Streams {
        left: Side { cur: ranked(l.body(), l.header.c, '+'), header: l.header, rest: Seq::empty() },
        right: Side {
            cur: ranked(r.body(), r.header.a, '-'),
            header: r.header,
            rest: Seq::empty(),
        },
    }
}

/// The lines that advance the rank are the context lines and the lines of
/// the side's own kind.
pub proof fn lemma_advanced(lines: Seq<Seq<char>>, kind: char, k: int)
    requires
        kind != ' ',
        0 <= k,
    ensures
        advanced(lines, kind, k) == tagged(lines, kind, k) + tagged(lines, ' ', k),
    decreases k,
{
    if k > 0 {
        lemma_advanced(lines, kind, k - 1);
    }
}

/// The ranks of a valid hunk's lines can be held, read from either side.
pub proof fn lemma_ranks_fit(q: Quad, body: Seq<Seq<char>>)
    requires
        quad_wf(q),
        body_ok(q, body),
    ensures
        rank_fits(body, q.c, '+'),
        rank_fits(body, q.a, '-'),
{
    lemma_advanced(body, '+', body.len() as int);
    lemma_advanced(body, '-', body.len() as int);
}

impl InfoSource {
    /// The streams of a left and a right hunk.
    pub fn new(left: Hunk, right: Hunk) -> (s: InfoSource)
        requires
            left.wf(),
            right.wf(),
        ensures
            crate::fuse::info_source::InfoSource::streams(&s) == pair_streams(left@, right@),
            crate::fuse::info_source::InfoSource::inv(&s),
    {
        proof {
            lemma_ranks_fit(left@.header, left@.body());
            lemma_ranks_fit(right@.header, right@.body());
        }
        let (lheader, llines) = left.unpack();
        let (rheader, rlines) = right.unpack();
        InfoSource {
            left: InfoIter::left(llines, &lheader),
            right: InfoIter::right(rlines, &rheader),
            left_header: lheader,
            right_header: rheader,
        }
    }
}

impl crate::fuse::info_source::InfoSource for InfoSource {
    closed spec fn streams(&self) -> Streams {
        Streams {
            left: Side {
                cur: self.left.remaining(),
                header: self.left_header.quad(),
                rest: Seq::empty(),
            },
            right: Side {
                cur: self.right.remaining(),
                header: self.right_header.quad(),
                rest: Seq::empty(),
            },
        }
    }

    open spec fn inv(&self) -> bool {
        true
    }

    fn peek(&mut self) -> (r: [Option<&Line>; 2]) {
        [self.left.peek(), self.right.peek()]
    }

    fn next_right(&mut self) -> (r: Option<Line>) {
        self.right.next()
    }

    fn next_left(&mut self) -> (r: Option<Line>) {
        self.left.next()
    }
}

} // verus!
