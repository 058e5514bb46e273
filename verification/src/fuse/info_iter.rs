//! One hunk body read as a stream of ranked lines.
//!
//! The left hunk of a fusion is read by what it leaves behind: context and
//! added lines advance the rank. The right hunk is read by what it starts
//! from: context and removed lines advance the rank. Both ranks then count
//! lines of the revision that lies between the two diffs.

use crate::fuse::line::{Line, LineView, advanced, lemma_advanced_monotone, ranked};
use crate::hunk::header::Header;
use crate::tags::line_tag;
use crate::text::views;
use vstd::prelude::*;

verus! {

/// A cursor over the ranked lines of one hunk body.
pub struct InfoIter {
    /// The lines still to come, the next one last.
    stack: Vec<Line>,
}

/// Whether every rank of `ranked(lines, start, kind)` can be held.
pub open spec fn rank_fits(lines: Seq<Seq<char>>, start: int, kind: char) -> bool {
    start + advanced(lines, kind, lines.len() as int) <= i64::MAX
}

impl InfoIter {
    /// The lines still to come, in order.
    pub closed spec fn remaining(&self) -> Seq<LineView> {
        Seq::new(self.stack.len() as nat, |i: int| self.stack[self.stack.len() - 1 - i]@)
    }

    /// The body of a left hunk, ranked from the start of its post-image.
    pub fn left(lines: Vec<String>, header: &Header) -> (it: InfoIter)
        requires
            rank_fits(views(lines@), header.quad().c, '+'),
        ensures
            it.remaining() == ranked(views(lines@), header.quad().c, '+'),
    {
        Self::build(lines, header.fields[2], '+')
    }

    /// The body of a right hunk, ranked from the start of its pre-image.
    pub fn right(lines: Vec<String>, header: &Header) -> (it: InfoIter)
        requires
            rank_fits(views(lines@), header.quad().a, '-'),
        ensures
            it.remaining() == ranked(views(lines@), header.quad().a, '-'),
    {
        Self::build(lines, header.fields[0], '-')
    }

    fn build(lines: Vec<String>, start: i64, kind: char) -> (it: InfoIter)
        requires
            rank_fits(views(lines@), start as int, kind),
        ensures
            it.remaining() == ranked(views(lines@), start as int, kind),
    {
        let ghost texts = views(lines@);
        let n = lines.len();
        let mut ranks: Vec<i64> = Vec::new();
        let mut rank: i64 = start;
        let mut i: usize = 0;
        while i < n
            invariant
                i <= n,
                n == lines.len(),
                texts == views(lines@),
                rank_fits(texts, start as int, kind),
                rank == start + advanced(texts, kind, i as int),
                ranks.len() == i,
                forall|j: int| 0 <= j < i ==> ranks[j] == start + advanced(texts, kind, j),
            decreases n - i,
        {
            ranks.push(rank);
            let t = line_tag(lines[i].as_str());
            if t == kind || t == ' ' {
                proof {
                    lemma_advanced_monotone(texts, kind, i + 1, n as int);
                }
                rank = rank + 1;
            }
            i = i + 1;
        }
        let mut lines = lines;
        let mut stack: Vec<Line> = Vec::new();
        while lines.len() > 0
            invariant
                lines.len() <= n,
                ranks.len() == n,
                texts.len() == n,
                forall|j: int| 0 <= j < lines.len() ==> lines[j]@ == texts[j],
                forall|j: int| 0 <= j < n ==> ranks[j] == start + advanced(texts, kind, j),
                stack.len() == n - lines.len(),
                forall|j: int|
                    0 <= j < stack.len() ==> stack[j]@ == ranked(texts, start as int, kind)[n - 1
                        - j],
            decreases lines.len(),
        {
            let k = lines.len() - 1;
            match lines.pop() {
                Some(line) => {
                    stack.push(Line::new(line, ranks[k]));
                },
                None => {},
            }
        }
        let it = InfoIter { stack };
        assert(it.remaining() =~= ranked(texts, start as int, kind));
        it
    }

    /// The next line, left in place.
    pub fn peek(&self) -> (r: Option<&Line>)
        ensures
            match r {
                Some(l) => self.remaining().len() > 0 && l@ == self.remaining()[0],
                None => self.remaining().len() == 0,
            },
    {
        let n = self.stack.len();
        if n > 0 {
            Some(&self.stack[n - 1])
        } else {
            None
        }
    }

    /// Takes the next line.
    pub fn next(&mut self) -> (r: Option<Line>)
        ensures
            match r {
                Some(l) => old(self).remaining().len() > 0 && l@ == old(self).remaining()[0]
                    && final(self).remaining() == old(self).remaining().drop_first(),
                None => old(self).remaining().len() == 0
                    && final(self).remaining() == old(self).remaining(),
            },
    {
        let r = self.stack.pop();
        assert(r is Some ==> self.remaining() =~= old(self).remaining().drop_first());
        assert(r is None ==> self.remaining() =~= old(self).remaining());
        r
    }
}

impl Default for InfoIter {
    fn default() -> (it: InfoIter)
        ensures
            it.remaining() == Seq::<LineView>::empty(),
    {
        let it = InfoIter { stack: Vec::new() };
        assert(it.remaining() =~= Seq::<LineView>::empty());
        it
    }
}

} // verus!
