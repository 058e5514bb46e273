//! The lines of one hunk body, paired: what the body holds after the
//! change beside what it held before.

use crate::tags::{line_tag, tag};
use crate::text::views;
use vstd::prelude::*;

verus! {

/// A line of one side of a body: its place in the body and its number on
/// that side.
#[derive(Debug, PartialEq, Clone, Copy)]
pub struct LineInfo<'a> {
    pub line: &'a str,
    pub index: usize,
    pub num: usize,
}

/// A `LineInfo` as a mathematical value.
pub struct Placed {
    pub text: Seq<char>,
    pub index: int,
    pub num: int,
}

impl<'a> View for LineInfo<'a> {
    type V = Placed;

    open spec fn view(&self) -> Placed {
        Placed { text: self.line@, index: self.index as int, num: self.num as int }
    }
}

/// Whether a line belongs to the side whose own lines carry `prefix`:
/// empty lines, context lines and the side's own lines do.
pub open spec fn on_side(line: Seq<char>, prefix: char) -> bool {
    line.len() == 0 || tag(line) == ' ' || tag(line) == prefix
}

/// The lines among the first `k` that belong to a side, each with its
/// place in the body and numbered from `offset`.
pub open spec fn side(lines: Seq<Seq<char>>, prefix: char, offset: int, k: int) -> Seq<Placed>
    decreases k,
{
    if k <= 0 {
        Seq::empty()
    } else {
        let front = side(lines, prefix, offset, k - 1);
        if on_side(lines[k - 1], prefix) {
            front.push(Placed { text: lines[k - 1], index: k - 1, num: offset + front.len() })
        } else {
            front
        }
    }
}

/// A side holds no more lines than the body.
pub proof fn lemma_side_len(lines: Seq<Seq<char>>, prefix: char, offset: int, k: int)
    requires
        0 <= k,
    ensures
        side(lines, prefix, offset, k).len() <= k,
    decreases k,
{
    if k > 0 {
        lemma_side_len(lines, prefix, offset, k - 1);
    }
}

/// The pairs still to come: lines after the change, lines before it.
pub struct Pairing {
    pub after: Seq<Placed>,
    pub before: Seq<Placed>,
}

/// The next pair. Two context lines go together, and so do two lines that
/// are both changed; a changed line goes alone when it meets a context
/// line, the removed line first.
pub open spec fn next_pair(p: Pairing) -> Option<((Option<Placed>, Option<Placed>), Pairing)> {
    if p.after.len() == 0 && p.before.len() == 0 {
        None
    } else if p.before.len() == 0 {
        Some(((Some(p.after[0]), None), Pairing { after: p.after.drop_first(), ..p }))
    } else if p.after.len() == 0 {
        Some(((None, Some(p.before[0])), Pairing { before: p.before.drop_first(), ..p }))
    } else {
        let a = tag(p.after[0].text) == ' ';
        let b = tag(p.before[0].text) == ' ';
        if a && !b {
            Some(((None, Some(p.before[0])), Pairing { before: p.before.drop_first(), ..p }))
        } else if !a && b {
            Some(((Some(p.after[0]), None), Pairing { after: p.after.drop_first(), ..p }))
        } else {
            Some(
                (
                    (Some(p.after[0]), Some(p.before[0])),
                    Pairing { after: p.after.drop_first(), before: p.before.drop_first() },
                ),
            )
        }
    }
}

/// A cursor over the pairs of a body.
pub struct LineIter<'a> {
    /// The lines after the change still to come, the next one last.
    after: Vec<LineInfo<'a>>,
    /// The lines before the change still to come, the next one last.
    before: Vec<LineInfo<'a>>,
}

/// The lines on a stack, the last of the stack first.
pub open spec fn pending(stack: Seq<LineInfo>) -> Seq<Placed> {
    Seq::new(stack.len(), |i: int| stack[stack.len() - 1 - i]@)
}

/// The views of a list of line infos.
pub open spec fn placed_views(infos: Seq<LineInfo>) -> Seq<Placed> {
    Seq::new(infos.len(), |i: int| infos[i]@)
}

/// A line of the side whose own lines carry `prefix`, with the next
/// number of that side; `None` for a line of the other side.
fn transform<'a>(
    _num: &mut usize,
    prefix: char,
    args: (usize, &'a String),
) -> (r: Option<LineInfo<'a>>)
    requires
        *old(_num) < usize::MAX,
    ensures
        match r {
            Some(info) => on_side(args.1@, prefix) && info@ == (Placed {
                text: args.1@,
                index: args.0 as int,
                num: *old(_num) as int,
            }) && *final(_num) == *old(_num) + 1,
            None => !on_side(args.1@, prefix) && *final(_num) == *old(_num),
        },
{
    let t = line_tag(args.1.as_str());
    if !args.1.as_str().is_empty() && !(t == ' ' || t == prefix) {
        return None;
    }
    let num = *_num;
    *_num = *_num + 1;
    Some(LineInfo { line: args.1.as_str(), index: args.0, num })
}

/// The lines of one side of a body, numbered from `offset`.
fn filter_info<'a>(iter: &'a Vec<String>, prefix: char, offset: usize) -> (r: Vec<LineInfo<'a>>)
    requires
        offset + iter.len() <= usize::MAX,
    ensures
        placed_views(r@) == side(views(iter@), prefix, offset as int, iter.len() as int),
{
    let ghost lines = views(iter@);
    let mut num: usize = offset;
    let mut out: Vec<LineInfo<'a>> = Vec::new();
    let mut i: usize = 0;
    assert(placed_views(out@) =~= side(lines, prefix, offset as int, 0));
    while i < iter.len()
        invariant
            i <= iter.len(),
            lines == views(iter@),
            offset + iter.len() <= usize::MAX,
            placed_views(out@) == side(lines, prefix, offset as int, i as int),
            num == offset + out.len(),
        decreases iter.len() - i,
    {
        let ghost seen = placed_views(out@);
        proof {
            lemma_side_len(lines, prefix, offset as int, i as int);
        }
        match transform(&mut num, prefix, (i, &iter[i])) {
            Some(info) => {
                out.push(info);
                assert(placed_views(out@) =~= seen.push(info@));
            },
            None => {},
        }
        i = i + 1;
    }
    out
}

/// The lines of a body under its header, paired.
pub fn iter_info<'a>(iter: &'a Vec<String>, header: &[usize; 4]) -> (r: LineIter<'a>)
    requires
        header[0] + iter.len() <= usize::MAX,
        header[2] + iter.len() <= usize::MAX,
    ensures
        r.pairing() == (Pairing {
            after: side(views(iter@), '+', header[2] as int, iter.len() as int),
            before: side(views(iter@), '-', header[0] as int, iter.len() as int),
        }),
{
    let after = filter_info(iter, '+', header[2]);
    let before = filter_info(iter, '-', header[0]);
    let ghost a = placed_views(after@);
    let ghost b = placed_views(before@);
    let r = LineIter { after: crate::text::reversed(after), before: crate::text::reversed(before) };
    assert(pending(r.after@) =~= a);
    assert(pending(r.before@) =~= b);
    r
}

impl<'a> LineIter<'a> {
    /// The pairs still to come.
    pub closed spec fn pairing(&self) -> Pairing {
        Pairing { after: pending(self.after@), before: pending(self.before@) }
    }

    /// The next pair.
    pub fn next(&mut self) -> (r: Option<(Option<LineInfo<'a>>, Option<LineInfo<'a>>)>)
        ensures
            match next_pair(old(self).pairing()) {
                Some((pair, rest)) => final(self).pairing() == rest && (match r {
                    Some(found) => same_info(found.0, pair.0) && same_info(found.1, pair.1),
                    None => false,
                }),
                None => r is None && final(self).pairing() == old(self).pairing(),
            },
    {
        let an = self.after.len();
        let bn = self.before.len();
        let ghost p = self.pairing();
        proof {
            assert(an > 0 ==> p.after[0] == self.after[an - 1]@);
            assert(bn > 0 ==> p.before[0] == self.before[bn - 1]@);
        }
        if an == 0 && bn == 0 {
            return None;
        }
        let take_after = an > 0 && (bn == 0 || !(line_tag(self.after[an - 1].line) == ' '
            && line_tag(self.before[bn - 1].line) != ' '));
        let take_before = bn > 0 && (an == 0 || !(line_tag(self.after[an - 1].line) != ' '
            && line_tag(self.before[bn - 1].line) == ' '));
        let a = if take_after {
            self.after.pop()
        } else {
            None
        };
        let b = if take_before {
            self.before.pop()
        } else {
            None
        };
        proof {
            if take_after {
                assert(pending(self.after@) =~= p.after.drop_first());
            }
            if take_before {
                assert(pending(self.before@) =~= p.before.drop_first());
            }
        }
        Some((a, b))
    }
}

/// Whether an info, if there is one, is the given line.
pub open spec fn same_info(found: Option<LineInfo>, line: Option<Placed>) -> bool {
    match (found, line) {
        (Some(f), Some(l)) => f@ == l,
        (None, None) => true,
        _ => false,
    }
}

} // verus!
