//! The lines of one hunk body with their ranks, read from one side.

use crate::fuse::line::LineView;
use crate::tags::{line_tag, tag};
use crate::text::views;
use core::cmp::Ordering;
use vstd::prelude::*;
use vstd::string::*;

verus! {

/// A body line and its rank.
#[derive(Debug, PartialEq)]
pub struct Info {
    pub line: String,
    pub rank: usize,
}

impl View for Info {
    type V = LineView;

    open spec fn view(&self) -> LineView {
        LineView { text: self.line@, rank: self.rank as int }
    }
}

/// The side a body is read from: `Minus` ranks along the lines that stay
/// or come, `Plus` along the lines that stay or go.
pub enum InfoType {
    Minus(),
    Plus(),
}

impl Info {
    /// The tag of the line, a space where the line is empty.
    pub fn prefix(&self) -> (c: char)
        ensures
            c == crate::info::tag_or_space(self.line@),
    {
        if self.line.as_str().is_empty() {
            ' '
        } else {
            line_tag(self.line.as_str())
        }
    }

    /// Every line counts as coming before every other.
    pub fn cmp(&self, other: &Info) -> (o: Ordering)
        ensures
            o == Ordering::Less,
    {
        Ordering::Less
    }
}

impl<'a> From<(&'a str, usize)> for Info {
    fn from(tuple: (&'a str, usize)) -> (r: Info) {
        Info { line: String::from_str(tuple.0), rank: tuple.1 }
    }
}

impl<'a> vstd::std_specs::convert::FromSpecImpl<(&'a str, usize)> for Info {
    open spec fn obeys_from_spec() -> bool {
        false
    }

    open spec fn from_spec(tuple: (&'a str, usize)) -> Info {
        arbitrary()
    }
}

/// The tag that does not move the rank, and the field of the header the
/// rank starts from.
pub open spec fn still_tag(info_type: InfoType) -> char {
    match info_type {
        InfoType::Minus() => '-',
        InfoType::Plus() => '+',
    }
}

/// The rank of the first line: the start after the change for `Minus`, the
/// start before it for `Plus`.
pub open spec fn first_rank(header: [usize; 4], info_type: InfoType) -> int {
    match info_type {
        InfoType::Minus() => header[2] as int,
        InfoType::Plus() => header[0] as int,
    }
}

/// How many of the first `k` lines do not carry the tag `t`.
pub open spec fn moving(lines: Seq<Seq<char>>, t: char, k: int) -> int
    decreases k,
{
    if k <= 0 {
        0
    } else {
        moving(lines, t, k - 1) + if tag(lines[k - 1]) != t {
            1int
        } else {
            0int
        }
    }
}

/// The lines with their ranks: the first has the rank the header gives,
/// and each line that does not carry the still tag moves the rank of the
/// lines after it by one.
pub open spec fn ranked_by(
    header: [usize; 4],
    lines: Seq<Seq<char>>,
    info_type: InfoType,
) -> Seq<LineView> {
    Seq::new(
        lines.len(),
        |i: int|
            LineView {
                text: lines[i],
                rank: first_rank(header, info_type) + moving(lines, still_tag(info_type), i),
            },
    )
}

/// Of `j` lines at most `j` move the rank, and more lines move it no less.
pub proof fn lemma_moving_bounds(lines: Seq<Seq<char>>, t: char, i: int, j: int)
    requires
        0 <= i <= j,
    ensures
        0 <= moving(lines, t, i) <= moving(lines, t, j) <= j,
    decreases j,
{
    if j > 0 {
        if i < j {
            lemma_moving_bounds(lines, t, i, j - 1);
        } else {
            lemma_moving_bounds(lines, t, i - 1, j - 1);
        }
    }
}

/// The views of a list of infos.
pub open spec fn info_views(infos: Seq<Info>) -> Seq<LineView> {
    Seq::new(infos.len(), |i: int| infos[i]@)
}

/// Gives each line its rank under the header, read from the given side.
pub fn iter_info(header: &[usize; 4], iter: Vec<String>, info_type: InfoType) -> (r: Vec<Info>)
    requires
        first_rank(*header, info_type) + iter.len() <= usize::MAX,
    ensures
        info_views(r@) == ranked_by(*header, views(iter@), info_type),
{
    let ghost lines = views(iter@);
    let (prefix, start) = match info_type {
        InfoType::Minus() => ('-', header[2]),
        InfoType::Plus() => ('+', header[0]),
    };
    let n = iter.len();
    let mut rank: usize = start;
    let mut ranks: Vec<usize> = Vec::new();
    let mut i: usize = 0;
    while i < n
        invariant
            i <= n,
            n == iter.len(),
            lines == views(iter@),
            start + n <= usize::MAX,
            prefix == still_tag(info_type),
            start == first_rank(*header, info_type),
            rank == start + moving(lines, prefix, i as int),
            ranks.len() == i,
            forall|j: int| 0 <= j < i ==> (#[trigger] ranks[j]) == start + moving(lines, prefix, j),
        decreases n - i,
    {
        ranks.push(rank);
        proof {
            lemma_moving_bounds(lines, prefix, i as int + 1, n as int);
        }
        if line_tag(iter[i].as_str()) != prefix {
            rank = rank + 1;
        }
        i = i + 1;
    }
    let mut stack = crate::text::reversed(iter);
    let mut out: Vec<Info> = Vec::new();
    let mut k: usize = 0;
    while k < n
        invariant
            k <= n,
            ranks.len() == n,
            lines.len() == n,
            stack.len() == n - k,
            forall|j: int| 0 <= j < stack.len() ==> (#[trigger] stack[j])@ == lines[n - 1 - j],
            out.len() == k,
            forall|j: int| 0 <= j < k
                ==> (#[trigger] out[j])@ == (LineView { text: lines[j], rank: ranks[j] as int }),
        decreases n - k,
    {
        match stack.pop() {
            Some(line) => {
                out.push(Info { line, rank: ranks[k] });
            },
            None => {},
        }
        k = k + 1;
    }
    assert(info_views(out@) =~= ranked_by(*header, lines, info_type));
    out
}

} // verus!
