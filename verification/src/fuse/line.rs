//! A body line together with the line number it speaks of.

use crate::tags::{line_tag, tag};
use vstd::prelude::*;
use vstd::string::*;

verus! {

/// A body line and its rank: the number, in the revision that lies between
/// the two diffs, of the line it pertains to.
#[derive(Debug, PartialEq)]
pub struct Line {
    pub line: String,
    pub rank: i64,
}

/// A `Line` as a mathematical value.
pub struct LineView {
    pub text: Seq<char>,
    pub rank: int,
}

impl View for Line {
    type V = LineView;

    open spec fn view(&self) -> LineView {
        LineView { text: self.line@, rank: self.rank as int }
    }
}

impl Line {
    /// A line with its rank.
    pub fn new(line: String, rank: i64) -> (r: Line)
        ensures
            r.line == line,
            r.rank == rank,
    {
        Line { line, rank }
    }

    /// The tag of the line, `!` where the line is empty.
    pub open spec fn prefix_spec(&self) -> char {
        tag(self.line@)
    }

    /// The tag of the line, `!` where the line is empty.
    pub fn prefix(&self) -> (c: char)
        ensures
            c == self.prefix_spec(),
    {
        line_tag(self.line.as_str())
    }
}

impl From<(String, i64)> for Line {
    fn from(tuple: (String, i64)) -> (r: Line) {
        let (line, rank) = tuple;
        Line { line, rank }
    }
}

impl vstd::std_specs::convert::FromSpecImpl<(String, i64)> for Line {
    open spec fn obeys_from_spec() -> bool {
        true
    }

    open spec fn from_spec(tuple: (String, i64)) -> Line {
        Line { line: tuple.0, rank: tuple.1 }
    }
}

impl<'a> From<(&'a str, i64)> for Line {
    fn from(tuple: (&'a str, i64)) -> (r: Line) {
        let (line, rank) = tuple;
        Line { line: String::from_str(line), rank }
    }
}

impl<'a> vstd::std_specs::convert::FromSpecImpl<(&'a str, i64)> for Line {
    open spec fn obeys_from_spec() -> bool {
        false
    }

    open spec fn from_spec(tuple: (&'a str, i64)) -> Line {
        arbitrary()
    }
}

/// Whether a line moves the rank of the lines after it: it does if it is a
/// context line or carries the tag `kind`.
pub open spec fn advances(kind: char, line: Seq<char>) -> bool {
    tag(line) == kind || tag(line) == ' '
}

/// How many of the first `k` lines advance the rank.
pub open spec fn advanced(lines: Seq<Seq<char>>, kind: char, k: int) -> int
    decreases k,
{
    if k <= 0 {
        0
    } else {
        advanced(lines, kind, k - 1) + if advances(kind, lines[k - 1]) {
            1int
        } else {
            0int
        }
    }
}

/// The lines of a body with their ranks: the first has rank `start`, and
/// each later one the rank of its predecessor, plus one if that advances.
pub open spec fn ranked(lines: Seq<Seq<char>>, start: int, kind: char) -> Seq<LineView> {
    Seq::new(
        lines.len(),
        |i: int| LineView { text: lines[i], rank: start + advanced(lines, kind, i) },
    )
}

/// Of `k` lines at most `k` advance the rank.
pub proof fn lemma_advanced_bounds(lines: Seq<Seq<char>>, kind: char, k: int)
    requires
        0 <= k,
    ensures
        0 <= advanced(lines, kind, k) <= k,
    decreases k,
{
    if k > 0 {
        lemma_advanced_bounds(lines, kind, k - 1);
    }
}

/// More lines advance the rank no less.
pub proof fn lemma_advanced_monotone(lines: Seq<Seq<char>>, kind: char, i: int, j: int)
    requires
        0 <= i <= j,
    ensures
        advanced(lines, kind, i) <= advanced(lines, kind, j),
    decreases j - i,
{
    if i < j {
        lemma_advanced_monotone(lines, kind, i, j - 1);
    }
}

} // verus!
