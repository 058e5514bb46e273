//! The lines of one hunk body, each with its number before the change and
//! its number after.

use crate::info::tag_or_space;
use crate::tags::{line_tag, tag};
use core::cmp::Ordering;
use vstd::prelude::*;

verus! {

/// A body line with its number before the change and its number after.
#[derive(Debug, PartialEq, Clone, Copy)]
pub struct Info<'a> {
    pub line: &'a str,
    pub minus_num: usize,
    pub plus_num: usize,
}

/// An `Info` as a mathematical value.
pub struct Numbered {
    pub text: Seq<char>,
    pub minus: int,
    pub plus: int,
}

impl<'a> View for Info<'a> {
    type V = Numbered;

    open spec fn view(&self) -> Numbered {
        Numbered { text: self.line@, minus: self.minus_num as int, plus: self.plus_num as int }
    }
}

/// The two numbers the order of two lines goes by. A removed line set
/// against a removed or an added line counts by its number before the
/// change, every other first line by its number after. An added line set
/// against a line with a body tag counts by its number after the change,
/// every other second line by its number before.
pub open spec fn order_keys(a: Numbered, b: Numbered) -> (int, int) {
    let ap = tag_or_space(a.text);
    let bp = tag_or_space(b.text);
    (
        if ap == '-' && (bp == '-' || bp == '+') {
            a.minus
        } else {
            a.plus
        },
        if bp == '+' && (ap == '-' || ap == '+' || ap == ' ') {
            b.plus
        } else {
            b.minus
        },
    )
}

/// Whether the order of two lines is left open: a removed line against a
/// context line.
pub open spec fn order_open(a: Numbered, b: Numbered) -> bool {
    tag_or_space(a.text) == '-' && tag_or_space(b.text) == ' '
}

/// How two numbers compare: -1, 0 or 1.
pub open spec fn sign(x: int, y: int) -> int {
    if x < y {
        -1
    } else if x > y {
        1
    } else {
        0
    }
}

/// How two lines compare: -1 if the first comes first, 1 if the other
/// does, 0 if neither.
pub open spec fn order(a: Numbered, b: Numbered) -> int {
    if order_open(a, b) {
        0
    } else {
        sign(order_keys(a, b).0, order_keys(a, b).1)
    }
}

fn compare(x: usize, y: usize) -> (o: Ordering)
    ensures
        o == Ordering::Less <==> x < y,
        o == Ordering::Greater <==> x > y,
        o == Ordering::Equal <==> x == y,
{
    if x < y {
        Ordering::Less
    } else if x > y {
        Ordering::Greater
    } else {
        Ordering::Equal
    }
}

impl<'a> Info<'a> {
    /// The tag of the line, a space where the line is empty.
    pub fn prefix(&self) -> (c: char)
        ensures
            c == tag_or_space(self.line@),
    {
        if self.line.is_empty() {
            ' '
        } else {
            line_tag(self.line)
        }
    }

    /// Orders two lines by the numbers their tags point to.
    pub fn cmp(&self, other: &Info) -> (o: Ordering)
        ensures
            o == Ordering::Less <==> order(self@, other@) == -1,
            o == Ordering::Greater <==> order(self@, other@) == 1,
            o == Ordering::Equal <==> order(self@, other@) == 0,
    {
        let a = self.prefix();
        let b = other.prefix();
        if a == '-' && b == ' ' {
            Ordering::Equal
        } else if a == '-' && b == '-' {
            compare(self.minus_num, other.minus_num)
        } else if a == '-' && b == '+' {
            compare(self.minus_num, other.plus_num)
        } else if a == '+' && b == ' ' {
            compare(self.plus_num, other.minus_num)
        } else if a == '+' && b == '-' {
            compare(self.plus_num, other.minus_num)
        } else if a == '+' && b == '+' {
            compare(self.plus_num, other.plus_num)
        } else if a == ' ' && b == '-' {
            compare(self.plus_num, other.minus_num)
        } else if a == ' ' && b == '+' {
            compare(self.plus_num, other.plus_num)
        } else {
            compare(self.plus_num, other.minus_num)
        }
    }
}

/// How many of the first `k` lines do not carry the tag `t`.
pub open spec fn counted(lines: Seq<&str>, t: char, k: int) -> int
    decreases k,
{
    if k <= 0 {
        0
    } else {
        counted(lines, t, k - 1) + if tag(lines[k - 1]@) != t {
            1int
        } else {
            0int
        }
    }
}

/// Line `i` with its numbers under a header: a line that is not added
/// takes the next number before the change, a line that is not removed
/// the next number after it; the other number is that of the line before.
pub open spec fn numbered(header: [usize; 4], lines: Seq<&str>, i: int) -> Numbered {
    Numbered {
        text: lines[i]@,
        minus: header[0] - 1 + counted(lines, '+', i + 1),
        plus: header[2] - 1 + counted(lines, '-', i + 1),
    }
}

/// Of `j` lines at most `j` are counted, and more lines count no less.
pub proof fn lemma_counted_bounds(lines: Seq<&str>, t: char, i: int, j: int)
    requires
        0 <= i <= j,
    ensures
        0 <= counted(lines, t, i) <= counted(lines, t, j) <= j,
    decreases j,
{
    if j > 0 {
        if i < j {
            lemma_counted_bounds(lines, t, i, j - 1);
        } else {
            lemma_counted_bounds(lines, t, i - 1, j - 1);
        }
    }
}

/// A cursor over the numbered lines of one hunk body.
pub struct InfoIter<'a> {
    lines: Vec<&'a str>,
    pos: usize,
    minus_num: usize,
    plus_num: usize,
    header: [usize; 4],
}

/// One more than the number.
pub fn pre_increment(reference: &mut usize) -> (r: usize)
    requires
        *old(reference) < usize::MAX,
    ensures
        *final(reference) == *old(reference) + 1,
        r == *final(reference),
{
    *reference = *reference + 1;
    *reference
}

impl<'a> InfoIter<'a> {
    /// The cursor is within the body and its numbers are those of its place.
    pub closed spec fn wf(&self) -> bool {
        &&& self.pos <= self.lines.len()
        &&& self.header[0] >= 1
        &&& self.header[2] >= 1
        &&& self.header[0] - 1 + self.lines.len() <= usize::MAX
        &&& self.header[2] - 1 + self.lines.len() <= usize::MAX
        &&& self.minus_num == self.header[0] - 1 + counted(self.lines@, '+', self.pos as int)
        &&& self.plus_num == self.header[2] - 1 + counted(self.lines@, '-', self.pos as int)
    }

    /// The lines still to come, with their numbers.
    pub closed spec fn rest(&self) -> Seq<Numbered> {
        Seq::new(
            (self.lines.len() - self.pos) as nat,
            |i: int| numbered(self.header, self.lines@, self.pos + i),
        )
    }

    /// The lines of a body under its header. The header's starts are line
    /// numbers and count from one.
    pub fn new(header: &[usize; 4], iter: Vec<&'a str>) -> (it: InfoIter<'a>)
        requires
            header[0] >= 1,
            header[2] >= 1,
            header[0] - 1 + iter.len() <= usize::MAX,
            header[2] - 1 + iter.len() <= usize::MAX,
        ensures
            it.wf(),
            it.rest() == Seq::new(iter.len() as nat, |i: int| numbered(*header, iter@, i)),
    {
        let it = InfoIter {
            lines: iter,
            pos: 0,
            minus_num: header[0] - 1,
            plus_num: header[2] - 1,
            header: *header,
        };
        assert(it.rest() =~= Seq::new(iter.len() as nat, |i: int| numbered(*header, iter@, i)));
        it
    }

    /// The next line with its numbers, left in place.
    pub fn peek(&self) -> (r: Option<Info<'a>>)
        requires
            self.wf(),
        ensures
            match r {
                Some(info) => self.rest().len() > 0 && info@ == self.rest()[0],
                None => self.rest().len() == 0,
            },
    {
        if self.pos >= self.lines.len() {
            return None;
        }
        let line = self.lines[self.pos];
        let t = line_tag(line);
        proof {
            lemma_counted_bounds(self.lines@, '+', self.pos + 1, self.lines.len() as int);
            lemma_counted_bounds(self.lines@, '-', self.pos + 1, self.lines.len() as int);
        }
        let minus_num = if t != '+' {
            self.minus_num + 1
        } else {
            self.minus_num
        };
        let plus_num = if t != '-' {
            self.plus_num + 1
        } else {
            self.plus_num
        };
        Some(Info { line, minus_num, plus_num })
    }

    /// Takes the next line with its numbers.
    pub fn next(&mut self) -> (r: Option<Info<'a>>)
        requires
            old(self).wf(),
        ensures
            final(self).wf(),
            match r {
                Some(info) => old(self).rest().len() > 0 && info@ == old(self).rest()[0]
                    && final(self).rest() == old(self).rest().drop_first(),
                None => old(self).rest().len() == 0 && final(self).rest() == old(self).rest(),
            },
    {
        if self.pos >= self.lines.len() {
            return None;
        }
        let line = self.lines[self.pos];
        let t = line_tag(line);
        proof {
            lemma_counted_bounds(self.lines@, '+', self.pos + 1, self.lines.len() as int);
            lemma_counted_bounds(self.lines@, '-', self.pos + 1, self.lines.len() as int);
        }
        let info = if t == '-' {
            Info { line, minus_num: pre_increment(&mut self.minus_num), plus_num: self.plus_num }
        } else if t == '+' {
            Info { line, minus_num: self.minus_num, plus_num: pre_increment(&mut self.plus_num) }
        } else {
            Info {
                line,
                minus_num: pre_increment(&mut self.minus_num),
                plus_num: pre_increment(&mut self.plus_num),
            }
        };
        self.pos = self.pos + 1;
        assert(self.rest() =~= old(self).rest().drop_first());
        Some(info)
    }
}

} // verus!
