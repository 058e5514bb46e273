//! Merges the bodies of a left and a right hunk line by line.
//!
//! Until the two bodies have met, the line that comes first by its number
//! goes out. From the first pair of lines that neither comes before the
//! other, the tags of the two first lines alone decide.

use crate::error::{MergeErr, merge_err};
use crate::hunk::header::least;
use crate::hunk::info_iter::{InfoIter, Numbered, numbered, order};
use crate::hunk::merge::{finish, headed, same_header, with_more};
use crate::info::tag_or_space;
use crate::tags::{payload, same_payload, with_tag};
use crate::text::views;
use vstd::prelude::*;
use vstd::string::*;

verus! {

/// A merge of two hunk bodies that gives its lines one by one.
pub struct MergeIter<'a> {
    lhs: InfoIter<'a>,
    rhs: InfoIter<'a>,
    start_nums: (usize, usize),
    synced: bool,
}

/// Where a merge stands: the lines of each body still to come, and
/// whether the two bodies have met.
pub struct State {
    pub left: Seq<Numbered>,
    pub right: Seq<Numbered>,
    pub synced: bool,
}

/// What asking for the next line gives.
pub enum Turn {
    /// No line is left.
    End,
    /// This line, and the merge goes on from the given state.
    Line(Seq<char>, State),
    /// The two first lines carry tags that do not go together.
    Fail,
}

/// The next line of the merge.
///
/// A body that is alone gives its lines as they come. Before the bodies
/// have met, the line that comes first by `order` goes out. Once they have
/// met the tags decide: of two added lines the right one goes out, a
/// removed line on the left goes out before a removed or a context line
/// on the right; a context line on the left gives way to the right line
/// and goes with it if the two agree; a line removed on the left and
/// added again on the right becomes a context line; a line added on the
/// left goes out with the context line on the right that agrees with it,
/// and is dropped with the removed line on the right that agrees with it.
pub open spec fn turn(s: State) -> Turn
    decreases s.left.len() + s.right.len(),
{
    let l = s.left;
    let r = s.right;
    if l.len() == 0 && r.len() == 0 {
        Turn::End
    } else if l.len() == 0 {
        Turn::Line(r[0].text, State { right: r.drop_first(), ..s })
    } else if r.len() == 0 {
        Turn::Line(l[0].text, State { left: l.drop_first(), ..s })
    } else if !s.synced && order(l[0], r[0]) == -1 {
        Turn::Line(l[0].text, State { left: l.drop_first(), ..s })
    } else if !s.synced && order(l[0], r[0]) == 1 {
        Turn::Line(r[0].text, State { right: r.drop_first(), ..s })
    } else {
        let lp = tag_or_space(l[0].text);
        let rp = tag_or_space(r[0].text);
        let same = payload(l[0].text) == payload(r[0].text);
        let take_left = State { left: l.drop_first(), right: r, synced: true };
        let take_right = State { left: l, right: r.drop_first(), synced: true };
        let take_both = State { left: l.drop_first(), right: r.drop_first(), synced: true };
        if lp == '+' && rp == '+' {
            Turn::Line(r[0].text, take_right)
        } else if lp == '-' && (rp == '-' || rp == ' ') {
            Turn::Line(l[0].text, take_left)
        } else if lp == ' ' {
            if same {
                Turn::Line(r[0].text, take_both)
            } else {
                Turn::Line(r[0].text, take_right)
            }
        } else if lp == '-' && rp == '+' {
            if same {
                Turn::Line(seq![' '] + payload(r[0].text), take_both)
            } else {
                Turn::Line(l[0].text, take_left)
            }
        } else if lp == '+' && rp == ' ' {
            if same {
                Turn::Line(l[0].text, take_both)
            } else {
                Turn::Line(r[0].text, take_right)
            }
        } else if lp == '+' && rp == '-' {
            if same {
                turn(take_both)
            } else {
                Turn::Line(r[0].text, take_right)
            }
        } else {
            Turn::Fail
        }
    }
}

/// A turn that gives a line uses up a line.
pub proof fn lemma_turn(s: State)
    ensures
        match turn(s) {
            Turn::Line(_, next) => next.left.len() + next.right.len() < s.left.len()
                + s.right.len(),
            _ => true,
        },
    decreases s.left.len() + s.right.len(),
{
    if s.left.len() > 0 && s.right.len() > 0 {
        lemma_turn(
            State { left: s.left.drop_first(), right: s.right.drop_first(), synced: true },
        );
    }
}

/// All lines the merge gives, to the end. `None` where it fails.
pub open spec fn yields(s: State) -> Option<Seq<Seq<char>>>
    decreases s.left.len() + s.right.len(),
{
    match turn(s) {
        Turn::End => Some(Seq::empty()),
        Turn::Fail => None,
        Turn::Line(line, next) => {
            proof {
                lemma_turn(s);
            }
            with_more(seq![line], yields(next))
        },
    }
}

impl<'a> MergeIter<'a> {
    /// Both cursors are valid.
    pub closed spec fn wf(&self) -> bool {
        self.lhs.wf() && self.rhs.wf()
    }

    /// Where the merge stands.
    pub closed spec fn state(&self) -> State {
        State { left: self.lhs.rest(), right: self.rhs.rest(), synced: self.synced }
    }

    /// The two starts of the merged header.
    pub closed spec fn starts(&self) -> (int, int) {
        (self.start_nums.0 as int, self.start_nums.1 as int)
    }

    /// A merge of two bodies under their headers, the left one first.
    pub fn new(
        headers: ([usize; 4], [usize; 4]),
        lines: (Vec<&'a str>, Vec<&'a str>),
    ) -> (it: MergeIter<'a>)
        requires
            headers.0[0] >= 1,
            headers.0[2] >= 1,
            headers.1[0] >= 1,
            headers.1[2] >= 1,
            headers.0[0] - 1 + lines.0.len() <= usize::MAX,
            headers.0[2] - 1 + lines.0.len() <= usize::MAX,
            headers.1[0] - 1 + lines.1.len() <= usize::MAX,
            headers.1[2] - 1 + lines.1.len() <= usize::MAX,
        ensures
            it.wf(),
            it.state() == (State {
                left: Seq::new(lines.0.len() as nat, |i: int| numbered(headers.0, lines.0@, i)),
                right: Seq::new(lines.1.len() as nat, |i: int| numbered(headers.1, lines.1@, i)),
                synced: false,
            }),
            it.starts() == (
                least(headers.0[0] as int, headers.1[0] as int),
                least(headers.0[2] as int, headers.1[2] as int),
            ),
    {
        let before = if headers.0[0] <= headers.1[0] {
            headers.0[0]
        } else {
            headers.1[0]
        };
        let after = if headers.0[2] <= headers.1[2] {
            headers.0[2]
        } else {
            headers.1[2]
        };
        MergeIter {
            lhs: InfoIter::new(&headers.0, lines.0),
            rhs: InfoIter::new(&headers.1, lines.1),
            start_nums: (before, after),
            synced: false,
        }
    }

    /// The next line of the merge.
    pub fn next(&mut self) -> (r: Option<Result<String, MergeErr>>)
        requires
            old(self).wf(),
        ensures
            final(self).wf(),
            final(self).starts() == old(self).starts(),
            match turn(old(self).state()) {
                Turn::End => r is None,
                Turn::Line(line, next) => r is Some && r->0 is Ok && r->0->Ok_0@ == line
                    && final(self).state() == next,
                Turn::Fail => r is Some && r->0 is Err,
            },
    {
        loop
            invariant
                self.wf(),
                self.starts() == old(self).starts(),
                turn(self.state()) == turn(old(self).state()),
            decreases self.state().left.len() + self.state().right.len(),
        {
            let ghost s = self.state();
            let (lhs, rhs) = match (self.lhs.peek(), self.rhs.peek()) {
                (None, None) => {
                    return None;
                },
                (None, Some(_)) => {
                    return Self::give(self.rhs.next());
                },
                (Some(_), None) => {
                    return Self::give(self.lhs.next());
                },
                (Some(lhs), Some(rhs)) => (lhs, rhs),
            };
            if !self.synced {
                match lhs.cmp(&rhs) {
                    core::cmp::Ordering::Less => {
                        return Self::give(self.lhs.next());
                    },
                    core::cmp::Ordering::Greater => {
                        return Self::give(self.rhs.next());
                    },
                    core::cmp::Ordering::Equal => {
                        self.synced = true;
                    },
                }
            }
            let lp = lhs.prefix();
            let rp = rhs.prefix();
            let same = same_payload(lhs.line, rhs.line);
            if lp == '+' && rp == '+' {
                return Self::give(self.rhs.next());
            } else if lp == '-' && (rp == '-' || rp == ' ') {
                return Self::give(self.lhs.next());
            } else if lp == ' ' {
                if same {
                    self.lhs.next();
                }
                return Self::give(self.rhs.next());
            } else if lp == '-' && rp == '+' {
                if same {
                    self.lhs.next();
                    self.rhs.next();
                    return Some(Ok(with_tag(rhs.line, ' ')));
                } else {
                    return Self::give(self.lhs.next());
                }
            } else if lp == '+' && rp == ' ' {
                if same {
                    self.rhs.next();
                    return Self::give(self.lhs.next());
                } else {
                    return Self::give(self.rhs.next());
                }
            } else if lp == '+' && rp == '-' {
                if same {
                    self.lhs.next();
                    self.rhs.next();
                } else {
                    return Self::give(self.rhs.next());
                }
            } else {
                return Some(Err(merge_err("Unexpected prefix combination in '", lhs.line, "'")));
            }
        }
    }

    /// The line of an info, as the merge gives it.
    fn give(info: Option<crate::hunk::info_iter::Info<'a>>) -> (r: Option<Result<String, MergeErr>>)
        ensures
            match info {
                Some(i) => r is Some && r->0 is Ok && r->0->Ok_0@ == i.line@,
                None => r is None,
            },
    {
        match info {
            Some(i) => Some(Ok(String::from_str(i.line))),
            None => None,
        }
    }
}

/// Runs a merge to its end, then counts its lines, heads them and puts
/// them in order.
pub fn process<'a>(iter: MergeIter<'a>) -> (r: Result<([usize; 4], Vec<String>), MergeErr>)
    requires
        iter.wf(),
    ensures
        match yields(iter.state()) {
            Some(lines) => match headed(iter.starts().0, iter.starts().1, lines) {
                Some((header, body)) => r is Ok && same_header(r->Ok_0.0, header)
                    && views(r->Ok_0.1@) == body,
                None => r is Err,
            },
            None => r is Err,
        },
{
    let ghost goal = yields(iter.state());
    let mut walk = iter;
    let mut lines: Vec<String> = Vec::new();
    proof {
        assert(views(lines@) =~= Seq::<Seq<char>>::empty());
        if goal is Some {
            assert(views(lines@) + goal.unwrap() =~= goal.unwrap());
        }
    }
    loop
        invariant_except_break
            goal == with_more(views(lines@), yields(walk.state())),
        invariant
            goal == yields(iter.state()),
            walk.starts() == iter.starts(),
            walk.wf(),
        ensures
            goal == Some(views(lines@)),
        decreases walk.state().left.len() + walk.state().right.len(),
    {
        let ghost seen = views(lines@);
        let ghost from = walk.state();
        proof {
            lemma_turn(from);
        }
        match walk.next() {
            None => {
                assert(seen + Seq::<Seq<char>>::empty() =~= seen);
                break ;
            },
            Some(Err(e)) => {
                return Err(e);
            },
            Some(Ok(line)) => {
                proof {
                    let more = yields(walk.state());
                    if more is Some {
                        assert(seen.push(line@) + more.unwrap() =~= seen + (seq![line@]
                            + more.unwrap()));
                    }
                }
                lines.push(line);
                assert(views(lines@) =~= seen.push(line@));
            },
        }
    }
    finish(walk.start_nums.0, walk.start_nums.1, lines)
}

} // verus!
