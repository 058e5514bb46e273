//! A text cut into lines, and a cursor over them.

use crate::error::{ParseErr, parse_err};
use crate::text::{from_chars, index_of, lemma_index_of, reversed, to_chars, views};
use vstd::prelude::*;

verus! {

/// A line without the carriage return at its end, if it has one.
pub open spec fn chomp(line: Seq<char>) -> Seq<char> {
    if line.len() > 0 && line.last() == '\r' {
        line.drop_last()
    } else {
        line
    }
}

/// The lines of a text: each ends at a line feed, which is dropped together
/// with a carriage return before it. What follows the last line feed is a
/// line too, unless it is empty.
pub open spec fn split(text: Seq<char>) -> Seq<Seq<char>>
    decreases text.len(),
{
    if text.len() == 0 {
        Seq::empty()
    } else {
        let k = index_of(text, '\n');
        if 0 <= k < text.len() {
            seq![chomp(text.subrange(0, k))] + split(text.subrange(k + 1, text.len() as int))
        } else {
            seq![text]
        }
    }
}

/// Whether a line feed stands at `i`, after a carriage return.
pub open spec fn crlf_at(text: Seq<char>, i: int) -> bool {
    0 < i < text.len() && text[i] == '\n' && text[i - 1] == '\r'
}

/// Whether a line feed stands at `i`, and no carriage return before it.
pub open spec fn bare_lf_at(text: Seq<char>, i: int) -> bool {
    0 <= i < text.len() && text[i] == '\n' && (i == 0 || text[i - 1] != '\r')
}

/// Whether some line feed follows a carriage return.
pub open spec fn has_crlf(text: Seq<char>) -> bool {
    exists|i: int| crlf_at(text, i)
}

/// Whether some line feed does not follow a carriage return.
pub open spec fn has_bare_lf(text: Seq<char>) -> bool {
    exists|i: int| bare_lf_at(text, i)
}

/// The lines of a text whose line ends are all of one kind; `None` for a
/// text that mixes the two kinds.
pub open spec fn text_lines(text: Seq<char>) -> Option<Seq<Seq<char>>> {
    if has_crlf(text) && has_bare_lf(text) {
        None
    } else {
        Some(split(text))
    }
}

/// The text that lists the lines, a line feed after each.
pub open spec fn join(lines: Seq<Seq<char>>) -> Seq<char>
    decreases lines.len(),
{
    if lines.len() == 0 {
        Seq::empty()
    } else {
        join(lines.drop_last()) + lines.last() + seq!['\n']
    }
}

/// A cursor over lines.
pub struct Lines {
    /// The lines still to come, the next one last.
    stack: Vec<String>,
}

impl Lines {
    /// The lines still to come, in order.
    pub closed spec fn rest(&self) -> Seq<Seq<char>> {
        Seq::new(self.stack.len() as nat, |i: int| self.stack[self.stack.len() - 1 - i]@)
    }

    /// A cursor at the first of `lines`.
    pub fn new(lines: Vec<String>) -> (r: Lines)
        ensures
            r.rest() == views(lines@),
    {
        let ghost texts = views(lines@);
        let stack = reversed(lines);
        let r = Lines { stack };
        assert(r.rest() =~= texts);
        r
    }

    /// Cuts a text into lines. Fails on a text in which some line feeds
    /// follow a carriage return and others do not.
    pub fn from_text(text: &str) -> (r: Result<Lines, ParseErr>)
        ensures
            match text_lines(text@) {
                Some(lines) => r is Ok && r->Ok_0.rest() == lines,
                None => r is Err,
            },
    {
        let v = to_chars(text);
        let n = v.len();
        let mut lines: Vec<String> = Vec::new();
        let mut crlf = false;
        let mut bare = false;
        let mut start: usize = 0;
        let mut i: usize = 0;
        assert(text@.subrange(0, n as int) =~= text@);
        assert(views(lines@) + split(text@) =~= split(text@));
        while i < n
            invariant
                start <= i <= n,
                n == v.len(),
                v@ == text@,
                split(text@) == views(lines@) + split(text@.subrange(start as int, n as int)),
                forall|j: int| start <= j < i ==> text@[j] != '\n',
                crlf <==> exists|j: int| j < i && crlf_at(text@, j),
                bare <==> exists|j: int| j < i && bare_lf_at(text@, j),
            decreases n - i,
        {
            if v[i] == '\n' {
                let ghost tail = text@.subrange(start as int, n as int);
                let ghost before = views(lines@);
                proof {
                    assert forall|j: int| 0 <= j < i - start implies tail[j] != '\n' by {
                        assert(tail[j] == text@[start + j]);
                    }
                    lemma_index_of(tail, '\n', i - start);
                    assert(tail.subrange(0, i - start) =~= text@.subrange(start as int, i as int));
                    assert(tail.subrange(i - start + 1, tail.len() as int) =~= text@.subrange(
                        i + 1,
                        n as int,
                    ));
                }
                let end: usize = if i > start && v[i - 1] == '\r' {
                    i - 1
                } else {
                    i
                };
                if i > 0 && v[i - 1] == '\r' {
                    crlf = true;
                    assert(crlf_at(text@, i as int));
                } else {
                    bare = true;
                    assert(bare_lf_at(text@, i as int));
                }
                assert(chomp(text@.subrange(start as int, i as int)) =~= text@.subrange(
                    start as int,
                    end as int,
                ));
                lines.push(from_chars(&v, start, end));
                assert(views(lines@) =~= before.push(text@.subrange(start as int, end as int)));
                start = i + 1;
            }
            i = i + 1;
        }
        let ghost tail = text@.subrange(start as int, n as int);
        let ghost before = views(lines@);
        proof {
            assert forall|j: int| 0 <= j < tail.len() implies tail[j] != '\n' by {
                assert(tail[j] == text@[start + j]);
            }
            lemma_index_of(tail, '\n', tail.len() as int);
        }
        if start < n {
            lines.push(from_chars(&v, start, n));
            assert(views(lines@) =~= before.push(tail));
        }
        assert(views(lines@) =~= split(text@));
        if crlf && bare {
            return Err(parse_err("Unexpected line separator", "", ""));
        }
        Ok(Lines::new(lines))
    }

    /// The next line, left in place.
    pub fn peek(&self) -> (r: Option<&String>)
        ensures
            match r {
                Some(l) => self.rest().len() > 0 && l@ == self.rest()[0],
                None => self.rest().len() == 0,
            },
    {
        let n = self.stack.len();
        if n > 0 {
            Some(&self.stack[n - 1])
        } else {
            None
        }
    }

    /// Takes the next line.
    pub fn next(&mut self) -> (r: Option<String>)
        ensures
            match r {
                Some(l) => old(self).rest().len() > 0 && l@ == old(self).rest()[0]
                    && final(self).rest() == old(self).rest().drop_first(),
                None => old(self).rest().len() == 0 && final(self).rest() == old(self).rest(),
            },
    {
        let r = self.stack.pop();
        assert(r is Some ==> self.rest() =~= old(self).rest().drop_first());
        assert(r is None ==> self.rest() =~= old(self).rest());
        r
    }

    /// Number of lines left.
    pub fn len(&self) -> (r: usize)
        ensures
            r == self.rest().len(),
    {
        self.stack.len()
    }

    /// Whether no line is left.
    pub fn is_empty(&self) -> (r: bool)
        ensures
            r == (self.rest().len() == 0),
    {
        self.stack.len() == 0
    }
}

/// Whether a line can be written and read back: it holds no line feed and
/// does not end in a carriage return.
pub open spec fn printable(line: Seq<char>) -> bool {
    (forall|i: int| 0 <= i < line.len() ==> line[i] != '\n') && (line.len() == 0 || line.last()
        != '\r')
}

/// Whether every line can be written and read back.
pub open spec fn all_printable(lines: Seq<Seq<char>>) -> bool {
    forall|i: int| 0 <= i < lines.len() ==> printable(#[trigger] lines[i])
}

/// The text of some lines is the first line, a line feed, and the text of
/// the others.
pub proof fn lemma_join_front(lines: Seq<Seq<char>>)
    requires
        lines.len() > 0,
    ensures
        join(lines) == lines[0] + seq!['\n'] + join(lines.drop_first()),
    decreases lines.len(),
{
    if lines.len() == 1 {
        assert(lines.drop_last() =~= Seq::<Seq<char>>::empty());
        assert(lines.drop_first() =~= Seq::<Seq<char>>::empty());
        assert(join(lines) =~= lines[0] + seq!['\n'] + join(lines.drop_first()));
    } else {
        lemma_join_front(lines.drop_last());
        assert(lines.drop_last().drop_first() =~= lines.drop_first().drop_last());
        assert(lines.drop_last()[0] == lines[0]);
        assert(lines.drop_first().last() == lines.last());
        assert(join(lines) =~= lines[0] + seq!['\n'] + join(lines.drop_first()));
    }
}

/// In the text of printable lines no line feed follows a carriage return.
pub proof fn lemma_join_plain(lines: Seq<Seq<char>>, i: int)
    requires
        all_printable(lines),
    ensures
        !crlf_at(join(lines), i),
    decreases lines.len(),
{
    if lines.len() > 0 {
        let x = lines[0];
        let rest = lines.drop_first();
        let text = join(lines);
        lemma_join_front(lines);
        assert(printable(x));
        assert forall|j: int| 0 <= j < rest.len() implies printable(#[trigger] rest[j]) by {
            assert(rest[j] == lines[j + 1]);
        }
        if 0 < i < text.len() && text[i] == '\n' {
            if i < x.len() {
                assert(text[i] == x[i]);
            } else if i == x.len() {
                if x.len() > 0 {
                    assert(text[i - 1] == x.last());
                }
            } else {
                let k = i - x.len() - 1;
                assert(text[i] == join(rest)[k]);
                if k == 0 {
                    assert(text[i - 1] == '\n');
                } else {
                    assert(text[i - 1] == join(rest)[k - 1]);
                    lemma_join_plain(rest, k);
                }
            }
        }
    }
}

/// Printable lines, written as text and cut again, are the lines.
pub proof fn lemma_split_join(lines: Seq<Seq<char>>)
    requires
        all_printable(lines),
    ensures
        split(join(lines)) == lines,
        text_lines(join(lines)) == Some(lines),
    decreases lines.len(),
{
    let text = join(lines);
    assert(!has_crlf(text)) by {
        if has_crlf(text) {
            let i = choose|i: int| crlf_at(text, i);
            lemma_join_plain(lines, i);
        }
    }
    if lines.len() > 0 {
        let x = lines[0];
        let rest = lines.drop_first();
        lemma_join_front(lines);
        assert(printable(x));
        assert forall|j: int| 0 <= j < rest.len() implies printable(#[trigger] rest[j]) by {
            assert(rest[j] == lines[j + 1]);
        }
        lemma_split_join(rest);
        assert forall|j: int| 0 <= j < x.len() implies text[j] != '\n' by {
            assert(text[j] == x[j]);
        }
        assert(text[x.len() as int] == '\n');
        lemma_index_of(text, '\n', x.len() as int);
        assert(text.subrange(0, x.len() as int) =~= x);
        assert(text.subrange(x.len() as int + 1, text.len() as int) =~= join(rest));
        assert(chomp(x) == x);
        assert(seq![x] + rest =~= lines);
    } else {
        assert(lines =~= Seq::<Seq<char>>::empty());
    }
}

} // verus!
