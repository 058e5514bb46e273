//! Lines that know which diff they come from.
//!
//! A hunk body is read once and every line is given two line numbers: one
//! counts along the lines that stay or come, one along the lines that stay
//! or go. A line of the left diff is ranked by the first, a line of the
//! right diff by the second.

use crate::hand::Hand;
use crate::tags::{line_tag, tag};
use vstd::prelude::*;
use vstd::string::*;

verus! {

/// A body line, its rank, and the diff it comes from.
#[derive(Debug, PartialEq)]
pub struct Info {
    pub line: String,
    pub rank: usize,
    pub hand: Hand,
}

/// An `Info` as a mathematical value.
pub struct InfoView {
    pub text: Seq<char>,
    pub rank: int,
    pub hand: Hand,
}

/// The tag of a line, a space where the line is empty.
pub open spec fn tag_or_space(line: Seq<char>) -> char {
    if line.len() > 0 {
        line[0]
    } else {
        ' '
    }
}

impl View for Info {
    type V = InfoView;

    open spec fn view(&self) -> InfoView {
        InfoView { text: self.line@, rank: self.rank as int, hand: self.hand }
    }
}

impl Info {
    /// The tag of the line, a space where the line is empty.
    pub fn prefix(&self) -> (c: char)
        ensures
            c == tag_or_space(self.line@),
    {
        if self.line.as_str().is_empty() {
            ' '
        } else {
            line_tag(self.line.as_str())
        }
    }

    /// The hand and the line, parted.
    pub fn data(self) -> (r: (Hand, String))
        ensures
            r.0 == self.hand,
            r.1 == self.line,
    {
        (self.hand, self.line)
    }
}

impl<'a> From<(&'a str, usize, Hand)> for Info {
    fn from(tuple: (&'a str, usize, Hand)) -> (r: Info) {
        Info { line: String::from_str(tuple.0), rank: tuple.1, hand: tuple.2 }
    }
}

impl<'a> vstd::std_specs::convert::FromSpecImpl<(&'a str, usize, Hand)> for Info {
    open spec fn obeys_from_spec() -> bool {
        false
    }

    open spec fn from_spec(tuple: (&'a str, usize, Hand)) -> Info {
        arbitrary()
    }
}

/// How many of the first `k` lines do not carry the tag `t`.
pub open spec fn untagged(lines: Seq<(Hand, Seq<char>)>, t: char, k: int) -> int
    decreases k,
{
    if k <= 0 {
        0
    } else {
        untagged(lines, t, k - 1) + if tag(lines[k - 1].1) != t {
            1int
        } else {
            0int
        }
    }
}

/// The rank of line `i` under a header: a left line counts from the start
/// of the post-image the lines before it that are not removed, a right
/// line from the start of the pre-image those that are not added.
pub open spec fn rank_of(
    header: [usize; 4],
    lines: Seq<(Hand, Seq<char>)>,
    by: Hand,
    i: int,
) -> int {
    match by {
        Hand::Left => header[2] + untagged(lines, '-', i),
        Hand::Right => header[0] + untagged(lines, '+', i),
    }
}

/// The lines with their ranks, each ranked by its own hand.
pub open spec fn ranked_infos(header: [usize; 4], lines: Seq<(Hand, Seq<char>)>) -> Seq<InfoView> {
    Seq::new(
        lines.len(),
        |i: int|
            InfoView {
                text: lines[i].1,
                rank: rank_of(header, lines, lines[i].0, i),
                hand: lines[i].0,
            },
    )
}

/// The lines with their ranks, each ranked by the hand opposite to `h`.
pub open spec fn cross_ranked_infos(
    header: [usize; 4],
    h: Hand,
    lines: Seq<(Hand, Seq<char>)>,
) -> Seq<InfoView> {
    let by = match h {
        Hand::Right => Hand::Left,
        Hand::Left => Hand::Right,
    };
    Seq::new(
        lines.len(),
        |i: int|
            InfoView {
                text: lines[i].1,
                rank: rank_of(header, lines, by, i),
                hand: lines[i].0,
            },
    )
}

/// The views of handed lines.
pub open spec fn handed_views(lines: Seq<(Hand, String)>) -> Seq<(Hand, Seq<char>)> {
    Seq::new(lines.len(), |i: int| (lines[i].0, lines[i].1@))
}

/// The views of a list of infos.
pub open spec fn info_views(infos: Seq<Info>) -> Seq<InfoView> {
    Seq::new(infos.len(), |i: int| infos[i]@)
}

/// Of `j` lines at most `j` are counted, and more lines count no less.
pub proof fn lemma_untagged_bounds(lines: Seq<(Hand, Seq<char>)>, t: char, i: int, j: int)
    requires
        0 <= i <= j,
    ensures
        0 <= untagged(lines, t, i) <= untagged(lines, t, j) <= j,
    decreases j,
{
    if j > 0 {
        if i < j {
            lemma_untagged_bounds(lines, t, i, j - 1);
        } else {
            lemma_untagged_bounds(lines, t, i - 1, j - 1);
        }
    }
}

/// Whether every rank under the header can be held.
pub open spec fn ranks_fit(header: [usize; 4], lines: Seq<(Hand, Seq<char>)>) -> bool {
    header[0] + lines.len() <= usize::MAX && header[2] + lines.len() <= usize::MAX
}

/// Ranks lines by `ranks`: `true` for each line's own hand, `false` for
/// the hand opposite to `h`.
fn rank_lines(header: &[usize; 4], own: bool, h: Hand, iter: Vec<(Hand, String)>) -> (r: Vec<Info>)
    requires
        ranks_fit(*header, handed_views(iter@)),
    ensures
        info_views(r@) == if own {
            ranked_infos(*header, handed_views(iter@))
        } else {
            cross_ranked_infos(*header, h, handed_views(iter@))
        },
{
    let ghost lines = handed_views(iter@);
    let n = iter.len();
    let mut lrank: usize = header[2];
    let mut rrank: usize = header[0];
    let mut ranks: Vec<usize> = Vec::new();
    let mut i: usize = 0;
    while i < n
        invariant
            i <= n,
            n == iter.len(),
            lines == handed_views(iter@),
            ranks_fit(*header, lines),
            lrank == header[2] + untagged(lines, '-', i as int),
            rrank == header[0] + untagged(lines, '+', i as int),
            ranks.len() == i,
            forall|j: int|
                0 <= j < i ==> (#[trigger] ranks[j]) == rank_of(
                    *header,
                    lines,
                    if own {
                        lines[j].0
                    } else {
                        match h {
                            Hand::Right => Hand::Left,
                            Hand::Left => Hand::Right,
                        }
                    },
                    j,
                ),
        decreases n - i,
    {
        let by_left = if own {
            match iter[i].0 {
                Hand::Left => true,
                Hand::Right => false,
            }
        } else {
            match h {
                Hand::Right => true,
                Hand::Left => false,
            }
        };
        ranks.push(if by_left { lrank } else { rrank });
        let t = line_tag(iter[i].1.as_str());
        proof {
            lemma_untagged_bounds(lines, '-', i as int + 1, n as int);
            lemma_untagged_bounds(lines, '+', i as int + 1, n as int);
            assert(lines[i as int].1 == iter[i as int].1@);
        }
        if t == '-' {
            rrank = rrank + 1;
        } else if t == '+' {
            lrank = lrank + 1;
        } else {
            lrank = lrank + 1;
            rrank = rrank + 1;
        }
        i = i + 1;
    }
    let mut stack = crate::text::reversed(iter);
    let mut out: Vec<Info> = Vec::new();
    let mut k: usize = 0;
    while k < n
        invariant
            k <= n,
            ranks.len() == n,
            lines.len() == n,
            stack.len() == n - k,
            forall|j: int| 0 <= j < stack.len() ==> (#[trigger] stack[j]).0 == lines[n - 1 - j].0
                && stack[j].1@ == lines[n - 1 - j].1,
            out.len() == k,
            forall|j: int| 0 <= j < k
                ==> (#[trigger] out[j])@ == (InfoView {
                    text: lines[j].1,
                    rank: ranks[j] as int,
                    hand: lines[j].0,
                }),
        decreases n - k,
    {
        match stack.pop() {
            Some(item) => {
                out.push(Info { line: item.1, rank: ranks[k], hand: item.0 });
            },
            None => {},
        }
        k = k + 1;
    }
    proof {
        if own {
            assert(info_views(out@) =~= ranked_infos(*header, lines));
        } else {
            assert(info_views(out@) =~= cross_ranked_infos(*header, h, lines));
        }
    }
    out
}

/// Gives each line its rank under the header, by the line's own hand.
pub fn iter_info(header: &[usize; 4], iter: Vec<(Hand, String)>) -> (r: Vec<Info>)
    requires
        ranks_fit(*header, handed_views(iter@)),
    ensures
        info_views(r@) == ranked_infos(*header, handed_views(iter@)),
{
    rank_lines(header, true, Hand::Left, iter)
}

/// Gives each line its rank under the header, by the hand opposite to `h`.
#[allow(non_snake_case)]
pub fn iter_info_X(header: &[usize; 4], h: Hand, iter: Vec<(Hand, String)>) -> (r: Vec<Info>)
    requires
        ranks_fit(*header, handed_views(iter@)),
    ensures
        info_views(r@) == cross_ranked_infos(*header, h, handed_views(iter@)),
{
    rank_lines(header, false, h, iter)
}

} // verus!
