//! Where the fusion kernel gets its lines from: two streams of ranked
//! lines, each of which may be fed by one hunk after another.

use crate::fuse::line::{Line, LineView, ranked};
use crate::hunk::HunkView;
use crate::hunk::header::{Quad, meets};
use vstd::prelude::*;

verus! {

/// One of the two streams: the lines left of the hunk being read, that
/// hunk's header, and the hunks that may still join.
pub struct Side {
    pub cur: Seq<LineView>,
    pub header: Quad,
    pub rest: Seq<HunkView>,
}

/// The two streams a fusion reads.
pub struct Streams {
    pub left: Side,
    pub right: Side,
}

/// The header that stands for "no hunk": it meets nothing.
pub open spec fn no_header() -> Quad {
    Quad { a: 0, b: 0, c: 0, d: 0 }
}

/// The header of the hunk a side is reading, `no_header` once its lines
/// are used up.
pub open spec fn current(side: Side) -> Quad {
    if side.cur.len() > 0 {
        side.header
    } else {
        no_header()
    }
}

/// Whether the next hunk of one side joins, given the header the other
/// side is reading.
pub open spec fn joins(left: bool, next: Quad, other: Quad) -> bool {
    if left {
        meets(next, other)
    } else {
        meets(other, next)
    }
}

/// The lines of a hunk as the stream of its side: a left hunk is ranked
/// along its post-image, a right hunk along its pre-image.
pub open spec fn stream_of(left: bool, hunk: HunkView) -> Seq<LineView> {
    if left {
        ranked(hunk.body(), hunk.header.c, '+')
    } else {
        ranked(hunk.body(), hunk.header.a, '-')
    }
}

/// A side after it has taken in the hunks that join: while it has no line
/// left and its next hunk joins, that hunk becomes the one being read.
pub open spec fn settle_side(left: bool, side: Side, other: Quad) -> Side
    decreases side.rest.len(),
{
    if side.cur.len() > 0 || side.rest.len() == 0 || !joins(left, side.rest[0].header, other) {
        side
    } else {
        settle_side(
            left,
            Side {
                cur: stream_of(left, side.rest[0]),
                header: side.rest[0].header,
                rest: side.rest.drop_first(),
            },
            other,
        )
    }
}

/// Both sides settled, each against the header the other was reading
/// before.
pub open spec fn settle(s: Streams) -> Streams {
    Streams {
        left: settle_side(true, s.left, current(s.right)),
        right: settle_side(false, s.right, current(s.left)),
    }
}

/// A side without its first line.
pub open spec fn pop(side: Side) -> Side {
    Side { cur: side.cur.drop_first(), ..side }
}

/// Number of lines in the hunks that have not joined.
pub open spec fn pending_lines(rest: Seq<HunkView>) -> nat
    decreases rest.len(),
{
    if rest.len() == 0 {
        0
    } else {
        rest[0].body().len() + pending_lines(rest.drop_first())
    }
}

/// Number of lines a side can still give.
pub open spec fn side_lines(side: Side) -> nat {
    side.cur.len() + pending_lines(side.rest)
}

/// Number of lines the two streams can still give.
pub open spec fn lines_left(s: Streams) -> nat {
    side_lines(s.left) + side_lines(s.right)
}

/// Every hunk that may still join is valid.
pub open spec fn pending_ok(rest: Seq<HunkView>) -> bool {
    forall|i: int| 0 <= i < rest.len() ==> (#[trigger] rest[i]).wf()
}

/// Every hunk that may still join, on either side, is valid.
pub open spec fn streams_ok(s: Streams) -> bool {
    pending_ok(s.left.rest) && pending_ok(s.right.rest)
}

/// Settling moves lines from the waiting hunks to the stream: none is
/// lost, the waiting hunks stay valid, and a side with a line at hand is
/// left as it is.
pub proof fn lemma_settle_side(left: bool, side: Side, other: Quad)
    ensures
        side_lines(settle_side(left, side, other)) == side_lines(side),
        pending_ok(side.rest) ==> pending_ok(settle_side(left, side, other).rest),
        side.cur.len() > 0 ==> settle_side(left, side, other) == side,
        settle_side(left, side, other).rest.len() <= side.rest.len(),
    decreases side.rest.len(),
{
    if side.cur.len() > 0 || side.rest.len() == 0 || !joins(left, side.rest[0].header, other) {
    } else {
        let next = Side {
            cur: stream_of(left, side.rest[0]),
            header: side.rest[0].header,
            rest: side.rest.drop_first(),
        };
        lemma_settle_side(left, next, other);
        if pending_ok(side.rest) {
            assert forall|i: int| 0 <= i < next.rest.len() implies (#[trigger] next.rest[i]).wf() by
                {
                assert(next.rest[i] == side.rest[i + 1]);
            }
        }
    }
}

/// Settling loses no line and keeps the waiting hunks valid.
pub proof fn lemma_settle(s: Streams)
    ensures
        lines_left(settle(s)) == lines_left(s),
        streams_ok(s) ==> streams_ok(settle(s)),
{
    lemma_settle_side(true, s.left, current(s.right));
    lemma_settle_side(false, s.right, current(s.left));
}

/// A source of the two streams. `peek` lets waiting hunks join and shows
/// the first line of each stream; `next_left` and `next_right` take one.
pub trait InfoSource {
    /// The two streams as they stand.
    spec fn streams(&self) -> Streams;

    /// What the source needs to hold of itself.
    spec fn inv(&self) -> bool;

    fn peek(&mut self) -> (r: [Option<&Line>; 2])
        requires
            old(self).inv(),
        ensures
            final(self).inv(),
            final(self).streams() == settle(old(self).streams()),
            match r[0] {
                Some(l) => final(self).streams().left.cur.len() > 0
                    && l@ == final(self).streams().left.cur[0],
                None => final(self).streams().left.cur.len() == 0,
            },
            match r[1] {
                Some(l) => final(self).streams().right.cur.len() > 0
                    && l@ == final(self).streams().right.cur[0],
                None => final(self).streams().right.cur.len() == 0,
            },
    ;

    fn next_right(&mut self) -> (r: Option<Line>)
        requires
            old(self).inv(),
        ensures
            final(self).inv(),
            final(self).streams().left == old(self).streams().left,
            ({
                let side = settle_side(
                    false,
                    old(self).streams().right,
                    current(old(self).streams().left),
                );
                match r {
                    Some(l) => side.cur.len() > 0 && l@ == side.cur[0]
                        && final(self).streams().right == pop(side),
                    None => side.cur.len() == 0 && final(self).streams().right == side,
                }
            }),
    ;

    fn next_left(&mut self) -> (r: Option<Line>)
        requires
            old(self).inv(),
        ensures
            final(self).inv(),
            final(self).streams().right == old(self).streams().right,
            ({
                let side = settle_side(
                    true,
                    old(self).streams().left,
                    current(old(self).streams().right),
                );
                match r {
                    Some(l) => side.cur.len() > 0 && l@ == side.cur[0]
                        && final(self).streams().left == pop(side),
                    None => side.cur.len() == 0 && final(self).streams().left == side,
                }
            }),
    ;
}

} // verus!
