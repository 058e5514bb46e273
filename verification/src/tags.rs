//! Body lines and their tags.
//!
//! The first character of a body line is its tag: a space for a line that
//! stays, `-` for a line that goes, `+` for a line that comes.

use crate::text::{from_chars, to_chars};
use vstd::prelude::*;
use vstd::string::*;

verus! {

/// Tag returned for a line that has no first character.
pub const NO_TAG: char = '!';

/// The tag of a body line: its first character, or `NO_TAG` for an empty line.
pub open spec fn tag(line: Seq<char>) -> char {
    if line.len() > 0 {
        line[0]
    } else {
        NO_TAG
    }
}

/// What follows the tag on a line.
pub open spec fn payload(line: Seq<char>) -> Seq<char> {
    if line.len() > 0 {
        line.subrange(1, line.len() as int)
    } else {
        line
    }
}

/// The three tags a hunk body line may carry.
pub open spec fn is_body_tag(c: char) -> bool {
    c == ' ' || c == '-' || c == '+'
}

/// How many of the first `k` lines carry the tag `t`.
pub open spec fn tagged(lines: Seq<Seq<char>>, t: char, k: int) -> int
    decreases k,
{
    if k <= 0 {
        0
    } else {
        tagged(lines, t, k - 1) + if tag(lines[k - 1]) == t {
            1int
        } else {
            0int
        }
    }
}

/// How many lines carry the tag `t`.
pub open spec fn count_tag(lines: Seq<Seq<char>>, t: char) -> int {
    tagged(lines, t, lines.len() as int)
}

/// Whether every line carries one of the three body tags.
pub open spec fn all_body_tags(lines: Seq<Seq<char>>) -> bool {
    forall|i: int| 0 <= i < lines.len() ==> is_body_tag(tag(#[trigger] lines[i]))
}

/// Of `k` lines at most `k` carry a tag.
pub proof fn lemma_tagged_bounds(lines: Seq<Seq<char>>, t: char, k: int)
    requires
        0 <= k,
    ensures
        0 <= tagged(lines, t, k) <= k,
    decreases k,
{
    if k > 0 {
        lemma_tagged_bounds(lines, t, k - 1);
    }
}

/// No line carries two tags.
pub proof fn lemma_two_tags(lines: Seq<Seq<char>>, s: char, t: char, k: int)
    requires
        s != t,
        0 <= k,
    ensures
        tagged(lines, s, k) + tagged(lines, t, k) <= k,
    decreases k,
{
    if k > 0 {
        lemma_two_tags(lines, s, t, k - 1);
    }
}

/// Counting looks at the first `k` lines only.
pub proof fn lemma_tagged_prefix(x: Seq<Seq<char>>, y: Seq<Seq<char>>, t: char, k: int)
    requires
        0 <= k <= x.len(),
        k <= y.len(),
        forall|i: int| 0 <= i < k ==> x[i] == y[i],
    ensures
        tagged(x, t, k) == tagged(y, t, k),
    decreases k,
{
    if k > 0 {
        lemma_tagged_prefix(x, y, t, k - 1);
    }
}

/// The count of a concatenation is the sum of the counts.
pub proof fn lemma_count_concat(x: Seq<Seq<char>>, y: Seq<Seq<char>>, t: char)
    ensures
        count_tag(x + y, t) == count_tag(x, t) + count_tag(y, t),
    decreases y.len(),
{
    if y.len() == 0 {
        assert(x + y =~= x);
    } else {
        let y0 = y.drop_last();
        lemma_count_concat(x, y0, t);
        let n = (x + y).len() as int;
        lemma_tagged_prefix(x + y, x + y0, t, n - 1);
        lemma_tagged_prefix(y, y0, t, y.len() - 1);
        assert((x + y)[n - 1] == y[y.len() - 1]);
    }
}

/// The count after one more line.
pub proof fn lemma_count_push(x: Seq<Seq<char>>, line: Seq<char>, t: char)
    ensures
        count_tag(x.push(line), t) == count_tag(x, t) + if tag(line) == t {
            1int
        } else {
            0int
        },
{
    lemma_tagged_prefix(x.push(line), x, t, x.len() as int);
}

/// First character of a line, `NO_TAG` if there is none.
pub fn line_tag(line: &str) -> (c: char)
    ensures
        c == tag(line@),
{
    if line.is_empty() {
        NO_TAG
    } else {
        line.get_char(0)
    }
}

/// Whether two lines agree on everything after the tag.
pub fn same_payload(a: &str, b: &str) -> (r: bool)
    ensures
        r == (payload(a@) == payload(b@)),
{
    let x = to_chars(a);
    let y = to_chars(b);
    let xs: usize = if x.len() > 0 { 1 } else { 0 };
    let ys: usize = if y.len() > 0 { 1 } else { 0 };
    if x.len() - xs != y.len() - ys {
        assert(payload(a@).len() != payload(b@).len());
        return false;
    }
    let n: usize = x.len() - xs;
    let mut i: usize = 0;
    while i < n
        invariant
            x@ == a@,
            y@ == b@,
            xs == (if x.len() > 0 { 1usize } else { 0usize }),
            ys == (if y.len() > 0 { 1usize } else { 0usize }),
            n == x.len() - xs,
            n == y.len() - ys,
            i <= n,
            forall|j: int| 0 <= j < i ==> payload(a@)[j] == payload(b@)[j],
        decreases n - i,
    {
        if x[xs + i] != y[ys + i] {
            assert(payload(a@)[i as int] != payload(b@)[i as int]);
            return false;
        }
        i = i + 1;
    }
    assert(payload(a@) =~= payload(b@));
    true
}

/// A copy of the line with its tag replaced by `t`.
pub fn with_tag(line: &str, t: char) -> (s: String)
    requires
        line@.len() > 0,
    ensures
        s@ == seq![t] + payload(line@),
{
    let v = to_chars(line);
    let mut out: Vec<char> = Vec::new();
    out.push(t);
    let mut i: usize = 1;
    while i < v.len()
        invariant
            1 <= i <= v.len(),
            v@ == line@,
            out@ == seq![t] + v@.subrange(1, i as int),
        decreases v.len() - i,
    {
        out.push(v[i]);
        i = i + 1;
        assert(out@ =~= seq![t] + v@.subrange(1, i as int));
    }
    assert(out@.subrange(0, out.len() as int) =~= out@);
    from_chars(&out, 0, out.len())
}

/// Whether every character of the line is white space.
pub open spec fn is_blank(line: Seq<char>) -> bool {
    forall|i: int| 0 <= i < line.len() ==> is_space(#[trigger] line[i])
}

/// The characters Unicode lists as white space.
pub open spec fn is_space(c: char) -> bool {
    ||| '\u{9}' <= c <= '\u{d}'
    ||| c == ' '
    ||| c == '\u{85}'
    ||| c == '\u{a0}'
    ||| c == '\u{1680}'
    ||| '\u{2000}' <= c <= '\u{200a}'
    ||| c == '\u{2028}'
    ||| c == '\u{2029}'
    ||| c == '\u{202f}'
    ||| c == '\u{205f}'
    ||| c == '\u{3000}'
}

/// Exec form of `is_space`.
pub fn space(c: char) -> (r: bool)
    ensures
        r == is_space(c),
{
    let low = ('\u{9}' <= c && c <= '\u{d}') || c == ' ' || c == '\u{85}' || c == '\u{a0}';
    let wide = '\u{2000}' <= c && c <= '\u{200a}';
    let line = c == '\u{2028}' || c == '\u{2029}' || c == '\u{202f}' || c == '\u{205f}';
    low || wide || line || c == '\u{1680}' || c == '\u{3000}'
}

/// Exec form of `is_blank`.
pub fn blank(line: &str) -> (r: bool)
    ensures
        r == is_blank(line@),
{
    let v = to_chars(line);
    let mut i: usize = 0;
    while i < v.len()
        invariant
            i <= v.len(),
            v@ == line@,
            forall|j: int| 0 <= j < i ==> is_space(#[trigger] line@[j]),
        decreases v.len() - i,
    {
        if !space(v[i]) {
            assert(!is_space(line@[i as int]));
            return false;
        }
        i = i + 1;
    }
    true
}

/// Lines spanned before a change: removed lines and context lines.
pub open spec fn count_before(lines: Seq<Seq<char>>) -> int {
    count_tag(lines, '-') + count_tag(lines, ' ')
}

/// Lines spanned after a change: added lines and context lines.
pub open spec fn count_after(lines: Seq<Seq<char>>) -> int {
    count_tag(lines, '+') + count_tag(lines, ' ')
}

/// Whether the lines carry body tags and their two counts can be held.
pub open spec fn countable(lines: Seq<Seq<char>>) -> bool {
    all_body_tags(lines) && count_before(lines) <= usize::MAX && count_after(lines) <= usize::MAX
}

/// Counts one more line on the sides it spans: a removed line before the
/// change, an added line after it, a context line on both. `None` for a
/// line without a body tag and where a count cannot be held.
pub fn count_sides(line: &str, before: usize, after: usize) -> (r: Option<(usize, usize)>)
    ensures
        match r {
            Some(c) => is_body_tag(tag(line@)) && c.0 == before + if tag(line@) != '+' {
                1int
            } else {
                0int
            } && c.1 == after + if tag(line@) != '-' {
                1int
            } else {
                0int
            },
            None => !is_body_tag(tag(line@)) || (tag(line@) != '+'
                && before == usize::MAX) || (tag(line@) != '-' && after == usize::MAX),
        },
{
    let t = line_tag(line);
    if !(t == '-' || t == '+' || t == ' ') {
        return None;
    }
    let b = if t != '+' {
        if before == usize::MAX {
            return None;
        }
        before + 1
    } else {
        before
    };
    let a = if t != '-' {
        if after == usize::MAX {
            return None;
        }
        after + 1
    } else {
        after
    };
    Some((b, a))
}

/// The counts after one more line.
pub proof fn lemma_counted_push(lines: Seq<Seq<char>>, line: Seq<char>)
    ensures
        count_before(lines.push(line)) == count_before(lines) + if is_body_tag(tag(line))
            && tag(line)
            != '+' {
            1int
        } else {
            0int
        },
        count_after(lines.push(line)) == count_after(lines) + if is_body_tag(tag(line)) && tag(line)
            != '-' {
            1int
        } else {
            0int
        },
        all_body_tags(lines.push(line)) == (all_body_tags(lines) && is_body_tag(tag(line))),
{
    lemma_count_push(lines, line, '-');
    lemma_count_push(lines, line, '+');
    lemma_count_push(lines, line, ' ');
    let more = lines.push(line);
    if all_body_tags(lines) && is_body_tag(tag(line)) {
        assert forall|i: int| 0 <= i < more.len() implies is_body_tag(tag(#[trigger] more[i])) by {
            if i < lines.len() {
                assert(more[i] == lines[i]);
            }
        }
    }
    if all_body_tags(more) {
        assert(more[lines.len() as int] == line);
        assert forall|i: int| 0 <= i < lines.len() implies is_body_tag(tag(#[trigger] lines[i])) by
            {
            assert(more[i] == lines[i]);
        }
    }
}

/// No line that follows makes up for a line without a body tag or for a
/// count that cannot be held.
pub proof fn lemma_uncountable(lines: Seq<Seq<char>>, more: Seq<Seq<char>>)
    requires
        !countable(lines),
    ensures
        !countable(lines + more),
{
    let all = lines + more;
    if !all_body_tags(lines) {
        let i = choose|i: int| 0 <= i < lines.len() && !is_body_tag(tag(#[trigger] lines[i]));
        assert(all[i] == lines[i]);
    } else {
        lemma_count_concat(lines, more, '-');
        lemma_count_concat(lines, more, '+');
        lemma_count_concat(lines, more, ' ');
        lemma_tagged_bounds(more, '-', more.len() as int);
        lemma_tagged_bounds(more, '+', more.len() as int);
        lemma_tagged_bounds(more, ' ', more.len() as int);
    }
}

} // verus!
