//! The two streams of a cluster of hunks: on each side, hunk after hunk
//! joins as long as it meets the hunk the other side is reading.

use crate::error::{MergeErr, merge_err};
use crate::fuse::info_iter::InfoIter;
use crate::fuse::info_source::{
    InfoSource, Side, Streams, current, pending_ok, pop, settle, settle_side, stream_of,
};
use crate::fuse::line::Line;
use crate::hunk::{Hunk, HunkView};
use crate::hunk::header::{Header, Quad};
use crate::hunk::info_source::lemma_ranks_fit;
use vstd::prelude::*;

verus! {

/// The hunks of a stack, in the order in which they will join: the last
/// of the stack first.
pub open spec fn waiting(stack: Seq<Hunk>) -> Seq<HunkView> {
    Seq::new(stack.len(), |i: int| stack[stack.len() - 1 - i]@)
}

/// A side that reads the first of the given hunks and has the others
/// waiting.
pub open spec fn started(left: bool, hunks: Seq<HunkView>) -> Side {
    if hunks.len() == 0 {
        Side { cur: Seq::empty(), header: Quad { a: 0, b: 0, c: 0, d: 0 }, rest: Seq::empty() }
    } else {
        Side { cur: stream_of(left, hunks[0]), header: hunks[0].header, rest: hunks.drop_first() }
    }
}

/// The streams of two lists of hunks, each side reading its first.
pub open spec fn chain_streams(l: Seq<HunkView>, r: Seq<HunkView>) -> Streams {
    Streams { left: started(true, l), right: started(false, r) }
}

/// Every hunk is valid.
pub open spec fn all_wf(hunks: Seq<Hunk>) -> bool {
    forall|i: int| 0 <= i < hunks.len() ==> (#[trigger] hunks[i]).wf()
}

/// One side of a cluster.
pub struct Chain {
    /// The hunks that have not joined, the next one last.
    stack: Vec<Hunk>,
    info_iter: InfoIter,
    header: Header,
    left: bool,
}

impl Chain {
    /// The side as a mathematical value.
    pub closed spec fn side(&self) -> Side {
        Side {
            cur: self.info_iter.remaining(),
            header: self.header.quad(),
            rest: waiting(self.stack@),
        }
    }

    /// Whether this is the side of the left diff.
    pub closed spec fn is_left(&self) -> bool {
        self.left
    }

    /// Every hunk that has not joined is valid.
    pub closed spec fn inv(&self) -> bool {
        all_wf(self.stack@)
    }

    /// The hunks that have not joined, the next one last.
    pub closed spec fn hunks(&self) -> Seq<Hunk> {
        self.stack@
    }

    /// What the invariant says of the hunks that have not joined.
    pub proof fn lemma_inv(&self)
        requires
            self.inv(),
        ensures
            pending_ok(self.side().rest),
            self.side().rest == waiting(self.hunks()),
            all_wf(self.hunks()),
    {
    }

    /// A side that reads the last hunk of `hunks` and has the others
    /// waiting, the last but one first.
    pub fn new(hunks: Vec<Hunk>, left: bool) -> (c: Chain)
        requires
            all_wf(hunks@),
        ensures
            c.inv(),
            c.is_left() == left,
            c.side() == started(left, waiting(hunks@)),
    {
        let ghost all = waiting(hunks@);
        let mut stack = hunks;
        let (header, info_iter) = match stack.pop() {
            None => (Header::default(), InfoIter::default()),
            Some(hunk) => {
                proof {
                    lemma_ranks_fit(hunk@.header, hunk@.body());
                }
                let (header, lines) = hunk.unpack();
                let iter = if left {
                    InfoIter::left(lines, &header)
                } else {
                    InfoIter::right(lines, &header)
                };
                (header, iter)
            },
        };
        let c = Chain { stack, info_iter, header, left };
        assert(c.side().rest =~= started(left, all).rest);
        c
    }

    /// The header of the hunk being read; the empty header once its lines
    /// are used up.
    pub fn header(&self) -> (h: Header)
        ensures
            h.quad() == current(self.side()),
    {
        if self.info_iter.peek().is_some() {
            self.header
        } else {
            Header::default()
        }
    }

    /// Lets the hunks join that meet `header`, the header the other side
    /// is reading.
    fn settle(&mut self, header: &Header)
        requires
            old(self).inv(),
        ensures
            final(self).inv(),
            final(self).is_left() == old(self).is_left(),
            final(self).side() == settle_side(old(self).is_left(), old(self).side(), header.quad()),
    {
        loop
            invariant_except_break
                settle_side(self.left, self.side(), header.quad()) == settle_side(
                    old(self).left,
                    old(self).side(),
                    header.quad(),
                ),
            invariant
                self.inv(),
                self.left == old(self).left,
            ensures
                self.side() == settle_side(old(self).left, old(self).side(), header.quad()),
            decreases self.stack.len(),
        {
            if self.info_iter.peek().is_some() {
                break ;
            }
            let n = self.stack.len();
            if n == 0 {
                break ;
            }
            let ghost rest = waiting(self.stack@);
            assert(rest[0] == self.stack[n - 1]@);
            let meet = if self.left {
                self.stack[n - 1].header().should_fuse(header)
            } else {
                header.should_fuse(self.stack[n - 1].header())
            };
            if !meet {
                break ;
            }
            match self.stack.pop() {
                None => {},
                Some(hunk) => {
                    proof {
                        lemma_ranks_fit(hunk@.header, hunk@.body());
                    }
                    let (h, lines) = hunk.unpack();
                    self.header = h;
                    self.info_iter = if self.left {
                        InfoIter::left(lines, &h)
                    } else {
                        InfoIter::right(lines, &h)
                    };
                    assert(waiting(self.stack@) =~= rest.drop_first());
                },
            }
        }
    }

    /// The next line of the side, left in place, after the hunks that meet
    /// `header` have joined.
    pub fn peek(&mut self, header: &Header) -> (r: Option<&Line>)
        requires
            old(self).inv(),
        ensures
            final(self).inv(),
            final(self).is_left() == old(self).is_left(),
            final(self).side() == settle_side(old(self).is_left(), old(self).side(), header.quad()),
            match r {
                Some(l) => final(self).side().cur.len() > 0 && l@ == final(self).side().cur[0],
                None => final(self).side().cur.len() == 0,
            },
    {
        self.settle(header);
        self.info_iter.peek()
    }

    /// Takes the next line of the side, after the hunks that meet `header`
    /// have joined.
    pub fn next(&mut self, header: &Header) -> (r: Option<Line>)
        requires
            old(self).inv(),
        ensures
            final(self).inv(),
            final(self).is_left() == old(self).is_left(),
            ({
                let side = settle_side(old(self).is_left(), old(self).side(), header.quad());
                match r {
                    Some(l) => {
                        &&& side.cur.len() > 0
                        &&& l@ == side.cur[0]
                        &&& final(self).side() == pop(side)
                    },
                    None => side.cur.len() == 0 && final(self).side() == side,
                }
            }),
    {
        self.settle(header);
        self.info_iter.next()
    }

    /// The hunks that have not joined, the next one last.
    pub fn into_hunks(self) -> (r: Vec<Hunk>)
        ensures
            r@ == self.hunks(),
    {
        self.stack
    }
}

/// The two sides of a cluster.
pub struct InfoChain {
    lchain: Chain,
    rchain: Chain,
}

impl InfoChain {
    /// The streams that start with the last hunk of each list. Fails where
    /// a list is empty.
    pub fn new(lhunks: Vec<Hunk>, rhunks: Vec<Hunk>) -> (r: Result<InfoChain, MergeErr>)
        requires
            all_wf(lhunks@),
            all_wf(rhunks@),
        ensures
            r is Ok <==> lhunks.len() > 0 && rhunks.len() > 0,
            r is Ok ==> r->Ok_0.streams() == chain_streams(waiting(lhunks@), waiting(rhunks@))
                && r->Ok_0.inv(),
    {
        if lhunks.len() > 0 && rhunks.len() > 0 {
            Ok(InfoChain { lchain: Chain::new(lhunks, true), rchain: Chain::new(rhunks, false) })
        } else {
            Err(merge_err("InfoChain: at least one of the hunk iterators is empty", "", ""))
        }
    }

    /// The left hunks that have not joined, the next one last.
    pub closed spec fn hunks_left(&self) -> Seq<Hunk> {
        self.lchain.hunks()
    }

    /// The right hunks that have not joined, the next one last.
    pub closed spec fn hunks_right(&self) -> Seq<Hunk> {
        self.rchain.hunks()
    }

    /// What the invariant says of the hunks that have not joined.
    pub proof fn lemma_inv(&self)
        requires
            self.inv(),
        ensures
            self.streams().left.rest == waiting(self.hunks_left()),
            self.streams().right.rest == waiting(self.hunks_right()),
            all_wf(self.hunks_left()),
            all_wf(self.hunks_right()),
    {
        self.lchain.lemma_inv();
        self.rchain.lemma_inv();
    }

    /// The hunks of each side that have not joined, the next one last.
    pub fn into_hunks(self) -> (r: (Vec<Hunk>, Vec<Hunk>))
        ensures
            r.0@ == self.hunks_left(),
            r.1@ == self.hunks_right(),
    {
        (self.lchain.into_hunks(), self.rchain.into_hunks())
    }
}

impl InfoSource for InfoChain {
    closed spec fn streams(&self) -> Streams {
        Streams { left: self.lchain.side(), right: self.rchain.side() }
    }

    closed spec fn inv(&self) -> bool {
        self.lchain.inv() && self.rchain.inv() && self.lchain.is_left() && !self.rchain.is_left()
    }

    fn peek(&mut self) -> (r: [Option<&Line>; 2]) {
        let lhdr = self.lchain.header();
        let rhdr = self.rchain.header();
        [self.lchain.peek(&rhdr), self.rchain.peek(&lhdr)]
    }

    fn next_right(&mut self) -> (r: Option<Line>) {
        let lhdr = self.lchain.header();
        self.rchain.next(&lhdr)
    }

    fn next_left(&mut self) -> (r: Option<Line>) {
        let rhdr = self.rchain.header();
        self.lchain.next(&rhdr)
    }
}

} // verus!
