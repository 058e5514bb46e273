//! The fusion kernel: walks the two streams in step and emits the body of
//! the fused hunk.

use crate::error::{MergeErr, merge_err};
use crate::fuse::info_source::{
    InfoSource, Side, Streams, current, joins, lemma_settle, lemma_settle_side, lines_left, pop,
    settle, settle_side, stream_of, streams_ok,
};
use crate::fuse::line::{Line, LineView};
use crate::fuse::line_counter::{LineCounter, closed_header};
use crate::hunk::{Hunk, HunkView, delta};
use crate::hunk::header::{Header, Quad, header_text, quad_wf};
use crate::tags::{
    all_body_tags, count_after, count_before, count_tag, is_body_tag, lemma_count_concat,
    lemma_count_push, line_tag, payload, same_payload, tag,
};
use crate::text::views;
use vstd::prelude::*;

verus! {

/// What the kernel does with two lines of equal rank.
pub enum Verdict {
    /// The left line is emitted; the right line waits.
    Left,
    /// The right line is emitted; the left line waits.
    Right,
    /// Both lines are used up and these lines are emitted.
    Both(Seq<Seq<char>>),
    /// The two lines contradict each other.
    Clash,
}

/// The rule for two lines of equal rank, by their tags. The left line says
/// what the middle revision holds there after the first change, the right
/// line what it held before the second.
pub open spec fn verdict(l: Seq<char>, r: Seq<char>) -> Verdict {
    let same = payload(l) == payload(r);
    if tag(l) == ' ' && tag(r) == ' ' {
        if same {
            Verdict::Both(seq![r])
        } else {
            Verdict::Clash
        }
    } else if tag(l) == ' ' && tag(r) == '-' {
        if same {
            Verdict::Both(seq![r])
        } else {
            Verdict::Clash
        }
    } else if tag(l) == ' ' && tag(r) == '+' {
        Verdict::Right
    } else if tag(l) == '-' && tag(r) == ' ' {
        Verdict::Left
    } else if tag(l) == '-' && tag(r) == '-' {
        Verdict::Left
    } else if tag(l) == '-' && tag(r) == '+' {
        if same {
            Verdict::Both(Seq::empty())
        } else {
            Verdict::Both(seq![l, r])
        }
    } else if tag(l) == '+' && tag(r) == ' ' {
        if same {
            Verdict::Both(seq![l])
        } else {
            Verdict::Clash
        }
    } else if tag(l) == '+' && tag(r) == '-' {
        if same {
            Verdict::Both(Seq::empty())
        } else {
            Verdict::Clash
        }
    } else if tag(l) == '+' && tag(r) == '+' {
        Verdict::Right
    } else {
        Verdict::Clash
    }
}

/// One step of the kernel.
pub enum Step {
    /// Both streams are at their end.
    Done,
    /// These lines are emitted and the streams go on from the given state.
    Emit(Seq<Seq<char>>, Streams),
    /// The two diffs do not fit together.
    Fail,
}

/// The streams without the first line of the left one.
pub open spec fn pop_left(s: Streams) -> Streams {
    Streams { left: pop(s.left), right: s.right }
}

/// The streams without the first line of the right one.
pub open spec fn pop_right(s: Streams) -> Streams {
    Streams { left: s.left, right: pop(s.right) }
}

/// The step the kernel takes from `from`: it lets waiting hunks join, then
/// drains the side that is alone, takes the line of lower rank, or settles
/// two lines of equal rank by `verdict`.
pub open spec fn step(from: Streams) -> Step {
    let s = settle(from);
    if s.left.cur.len() == 0 && s.right.cur.len() == 0 {
        Step::Done
    } else if s.left.cur.len() == 0 {
        Step::Emit(seq![s.right.cur[0].text], pop_right(s))
    } else if s.right.cur.len() == 0 {
        Step::Emit(seq![s.left.cur[0].text], pop_left(s))
    } else {
        let l = s.left.cur[0];
        let r = s.right.cur[0];
        if l.rank < r.rank {
            Step::Emit(seq![l.text], pop_left(s))
        } else if l.rank > r.rank {
            Step::Emit(seq![r.text], pop_right(s))
        } else {
            match verdict(l.text, r.text) {
                Verdict::Left => Step::Emit(seq![l.text], pop_left(s)),
                Verdict::Right => Step::Emit(seq![r.text], pop_right(s)),
                Verdict::Both(lines) => Step::Emit(lines, pop_right(pop_left(s))),
                Verdict::Clash => Step::Fail,
            }
        }
    }
}

/// Every step that emits uses up a line.
pub proof fn lemma_step(from: Streams)
    ensures
        match step(from) {
            Step::Emit(_, next) => lines_left(next) < lines_left(from) && (streams_ok(from)
                ==> streams_ok(next)),
            _ => true,
        },
{
    lemma_settle(from);
}

/// The lines the kernel emits from `from`, in the order in which it emits
/// them, and the state in which it stops. `None` where the diffs do not
/// fit together.
pub open spec fn run(from: Streams) -> Option<(Seq<Seq<char>>, Streams)>
    decreases lines_left(from),
{
    match step(from) {
        Step::Done => Some((Seq::empty(), settle(from))),
        Step::Fail => None,
        Step::Emit(lines, next) => {
            proof {
                lemma_step(from);
            }
            match run(next) {
                None => None,
                Some((more, end)) => Some((lines + more, end)),
            }
        },
    }
}

/// The kernel takes hunks from the waiting lists and never puts one back.
pub proof fn lemma_run_rests(from: Streams)
    ensures
        match run(from) {
            Some(pair) => {
                &&& pair.1.left.rest.len() <= from.left.rest.len()
                &&& pair.1.right.rest.len() <= from.right.rest.len()
                &&& (streams_ok(from) ==> streams_ok(pair.1))
            },
            None => true,
        },
    decreases lines_left(from),
{
    lemma_settle(from);
    lemma_settle_side(true, from.left, crate::fuse::info_source::current(from.right));
    lemma_settle_side(false, from.right, crate::fuse::info_source::current(from.left));
    match step(from) {
        Step::Emit(_, next) => {
            lemma_step(from);
            lemma_run_rests(next);
        },
        _ => {},
    }
}

/// The lines seen so far, put in groups: `done` holds the groups that are
/// closed, `removed` and `added` the lines of the open group by tag.
pub struct Groups {
    pub done: Seq<Seq<char>>,
    pub removed: Seq<Seq<char>>,
    pub added: Seq<Seq<char>>,
}

/// Sorts lines into groups. A context line closes the open group and
/// comes first in the next one.
pub open spec fn grouped(lines: Seq<Seq<char>>) -> Groups
    decreases lines.len(),
{
    if lines.len() == 0 {
        Groups { done: Seq::empty(), removed: Seq::empty(), added: Seq::empty() }
    } else {
        let g = grouped(lines.drop_last());
        let line = lines.last();
        if tag(line) == ' ' {
            Groups {
                done: g.done + g.removed + g.added + seq![line],
                removed: Seq::empty(),
                added: Seq::empty(),
            }
        } else if tag(line) == '-' {
            Groups { removed: g.removed.push(line), ..g }
        } else {
            Groups { added: g.added.push(line), ..g }
        }
    }
}

/// The emitted lines as the fused body lists them: group after group, and
/// in each group the context line, then the removed lines, then the added
/// lines, each kind in the order in which it was emitted.
pub open spec fn arrange(lines: Seq<Seq<char>>) -> Seq<Seq<char>> {
    let g = grouped(lines);
    g.done + g.removed + g.added
}

/// The fused hunk and the state in which the kernel stops. The header
/// starts from `start` and gets its counts from what was emitted. `None`
/// where the diffs do not fit together, where a line without a body tag
/// was emitted, or where the header that results is not valid.
pub open spec fn fused(start: Quad, from: Streams) -> Option<(HunkView, Streams)> {
    match run(from) {
        None => None,
        Some((emitted, end)) => {
            let q = closed_header(start, count_before(emitted), count_after(emitted));
            if all_body_tags(emitted) && quad_wf(q) {
                Some((HunkView { header: q, lines: seq![header_text(q)] + arrange(emitted) }, end))
            } else {
                None
            }
        },
    }
}

/// Arranging keeps every line: the counts by tag do not change.
pub proof fn lemma_arrange_counts(lines: Seq<Seq<char>>, t: char)
    requires
        all_body_tags(lines),
    ensures
        count_tag(arrange(lines), t) == count_tag(lines, t),
        ({
            let g = grouped(lines);
            count_tag(g.done, t) + count_tag(g.removed, t) + count_tag(g.added, t) == count_tag(
                lines,
                t,
            )
        }),
        all_body_tags(grouped(lines).done),
        all_body_tags(grouped(lines).removed),
        all_body_tags(grouped(lines).added),
        all_body_tags(arrange(lines)),
    decreases lines.len(),
{
    let g = grouped(lines);
    if lines.len() == 0 {
        assert(arrange(lines) =~= Seq::<Seq<char>>::empty());
    } else {
        let before = lines.drop_last();
        let line = lines.last();
        let h = grouped(before);
        assert(all_body_tags(before)) by {
            assert forall|i: int| 0 <= i < before.len() implies is_body_tag(
                tag(#[trigger] before[i]),
            ) by {
                assert(before[i] == lines[i]);
            }
        }
        lemma_arrange_counts(before, t);
        assert(lines =~= before.push(line));
        lemma_count_push(before, line, t);
        assert(is_body_tag(tag(lines[lines.len() - 1])));
        if tag(line) == ' ' {
            lemma_count_concat(h.done, h.removed, t);
            lemma_count_concat(h.done + h.removed, h.added, t);
            lemma_count_push(h.done + h.removed + h.added, line, t);
            assert(g.done =~= (h.done + h.removed + h.added).push(line));
        } else if tag(line) == '-' {
            lemma_count_push(h.removed, line, t);
        } else {
            lemma_count_push(h.added, line, t);
        }
        lemma_count_concat(g.done, g.removed, t);
        lemma_count_concat(g.done + g.removed, g.added, t);
    }
}

/// The lines of an outcome of `run`.
pub open spec fn emitted_by(outcome: Option<(Seq<Seq<char>>, Streams)>) -> Seq<Seq<char>> {
    match outcome {
        Some(pair) => pair.0,
        None => Seq::empty(),
    }
}

/// The state in which an outcome of `run` stops.
pub open spec fn end_of(outcome: Option<(Seq<Seq<char>>, Streams)>) -> Streams
    recommends
        outcome is Some,
{
    match outcome {
        Some(pair) => pair.1,
        None => arbitrary(),
    }
}

/// `more` after `lines`, where there is a `more`.
pub open spec fn extend(
    lines: Seq<Seq<char>>,
    more: Option<(Seq<Seq<char>>, Streams)>,
) -> Option<(Seq<Seq<char>>, Streams)> {
    match more {
        None => None,
        Some((tail, end)) => Some((lines + tail, end)),
    }
}

/// No line that follows can make up for a line without a body tag, nor for
/// a count that is out of reach.
pub proof fn lemma_beyond_repair(start: Quad, lines: Seq<Seq<char>>, more: Seq<Seq<char>>)
    requires
        !all_body_tags(lines) || count_tag(lines, '-') + count_tag(lines, ' ') > i64::MAX
            || count_tag(lines, '+') + count_tag(lines, ' ') > i64::MAX,
    ensures
        !(all_body_tags(lines + more) && quad_wf(
            closed_header(start, count_before(lines + more), count_after(lines + more)),
        )),
{
    let all = lines + more;
    if !all_body_tags(lines) {
        let i = choose|i: int| 0 <= i < lines.len() && !is_body_tag(tag(#[trigger] lines[i]));
        assert(all[i] == lines[i]);
    } else {
        lemma_count_concat(lines, more, '-');
        lemma_count_concat(lines, more, '+');
        lemma_count_concat(lines, more, ' ');
        crate::tags::lemma_tagged_bounds(more, '-', more.len() as int);
        crate::tags::lemma_tagged_bounds(more, '+', more.len() as int);
        crate::tags::lemma_tagged_bounds(more, ' ', more.len() as int);
    }
}

/// Fuses what the source gives into one hunk under the header `header`,
/// whose counts and, for an empty side, start are set from the lines
/// emitted. Hands the source back as the kernel left it.
pub fn fuse<T: InfoSource>(header: Header, source: T) -> (r: Result<(Hunk, T), MergeErr>)
    requires
        source.inv(),
    ensures
        match fused(header.quad(), source.streams()) {
            Some((v, end)) => match r {
                Ok(pair) => pair.0@ == v && pair.0.wf() && pair.1.streams() == end && pair.1.inv(),
                Err(_) => false,
            },
            None => r is Err,
        },
{
    let ghost init = source.streams();
    let ghost start = header.quad();
    let mut closing = header;
    let mut counter = LineCounter::default();
    let mut data: Vec<String> = Vec::new();
    let mut drain = Drain { source };
    assert(views(data@) =~= Seq::<Seq<char>>::empty());
    assert(views(data@) + emitted_by(run(init)) =~= emitted_by(run(init)));
    loop
        invariant_except_break
            run(init) == extend(views(data@), run(drain.source.streams())),
        invariant
            init == source.streams(),
            start == header.quad(),
            drain.source.inv(),
            closing.quad() == start,
            all_body_tags(views(data@)),
            counter@.removed == count_tag(views(data@), '-'),
            counter@.added == count_tag(views(data@), '+'),
            counter@.unchanged == count_tag(views(data@), ' '),
            0 <= counter@.run_removed <= counter@.removed,
            0 <= counter@.run_added <= counter@.added,
            0 <= counter@.unchanged,
        ensures
            closing.quad() == start,
            all_body_tags(views(data@)),
            counter@.removed == count_tag(views(data@), '-'),
            counter@.added == count_tag(views(data@), '+'),
            counter@.unchanged == count_tag(views(data@), ' '),
            run(init) == Some((views(data@), drain.source.streams())),
        decreases lines_left(drain.source.streams()),
    {
        let ghost from = drain.source.streams();
        let ghost before = views(data@);
        proof {
            lemma_step(from);
        }
        let item = match drain.next() {
            None => {
                assert(before + Seq::<Seq<char>>::empty() =~= before);
                break ;
            },
            Some(Err(e)) => {
                return Err(e);
            },
            Some(Ok(item)) => item,
        };
        let ghost lines = item.texts();
        let ghost rest = run(drain.source.streams());
        assert(run(from) == extend(lines, rest));
        proof {
            if rest is Some {
                assert(run(init) == Some((before + (lines + emitted_by(rest)), end_of(rest))));
                assert(before + (lines + emitted_by(rest)) =~= (before + lines) + emitted_by(rest));
            }
        }
        match item {
            FuseItem::Skip => {
                assert(before + lines =~= before);
            },
            FuseItem::Single(info) => {
                match counter.update(&info) {
                    Err(e) => {
                        proof {
                            if rest is Some {
                                lemma_count_push(before, info.line@, '-');
                                lemma_count_push(before, info.line@, '+');
                                lemma_count_push(before, info.line@, ' ');
                                assert(before + lines =~= before.push(info.line@));
                                if is_body_tag(tag(info.line@)) {
                                } else {
                                    assert(!is_body_tag(tag((before
                                        + lines)[before.len() as int])));
                                }
                                lemma_beyond_repair(start, before + lines, emitted_by(rest));
                            }
                        }
                        return Err(e);
                    },
                    Ok(_) => {},
                }
                proof {
                    lemma_count_push(before, info.line@, '-');
                    lemma_count_push(before, info.line@, '+');
                    lemma_count_push(before, info.line@, ' ');
                    assert(before + lines =~= before.push(info.line@));
                }
                data.push(info.line);
                assert(views(data@) =~= before.push(info.line@));
            },
            FuseItem::Pair(first, second) => {
                let ghost middle = before.push(first.line@);
                proof {
                    lemma_count_push(before, first.line@, '-');
                    lemma_count_push(before, first.line@, '+');
                    lemma_count_push(before, first.line@, ' ');
                    lemma_count_push(middle, second.line@, '-');
                    lemma_count_push(middle, second.line@, '+');
                    lemma_count_push(middle, second.line@, ' ');
                    assert(before + lines =~= middle.push(second.line@));
                }
                match counter.update(&first) {
                    Err(e) => {
                        proof {
                            if rest is Some {
                                if !is_body_tag(tag(first.line@)) {
                                    assert(!is_body_tag(tag((before
                                        + lines)[before.len() as int])));
                                }
                                lemma_beyond_repair(start, before + lines, emitted_by(rest));
                            }
                        }
                        return Err(e);
                    },
                    Ok(_) => {},
                }
                match counter.update(&second) {
                    Err(e) => {
                        proof {
                            if rest is Some {
                                if !is_body_tag(tag(second.line@)) {
                                    assert(!is_body_tag(
                                        tag((before + lines)[before.len() as int + 1]),
                                    ));
                                }
                                lemma_beyond_repair(start, before + lines, emitted_by(rest));
                            }
                        }
                        return Err(e);
                    },
                    Ok(_) => {},
                }
                data.push(first.line);
                data.push(second.line);
                assert(views(data@) =~= middle.push(second.line@));
            },
        }
    }
    let ghost emitted = views(data@);
    let ghost q = closed_header(start, count_before(emitted), count_after(emitted));
    if !counter.fits(&closing) {
        return Err(merge_err("Fused header out of range under ", closing.to_string().as_str(), ""));
    }
    counter.update_header(&mut closing);
    if !closing.valid() {
        return Err(merge_err("Fused header out of range: ", closing.to_string().as_str(), ""));
    }
    let lines = match sort(data) {
        Ok(lines) => lines,
        Err(e) => {
            return Err(e);
        },
    };
    proof {
        lemma_arrange_counts(emitted, '-');
        lemma_arrange_counts(emitted, '+');
        lemma_arrange_counts(emitted, ' ');
    }
    Ok((Hunk::new(closing, lines), drain.source))
}

/// Puts emitted lines in the order of the fused body. Fails on a line
/// without a body tag.
pub fn sort(data: Vec<String>) -> (r: Result<Vec<String>, MergeErr>)
    ensures
        r is Ok <==> all_body_tags(views(data@)),
        r is Ok ==> views(r->Ok_0@) == arrange(views(data@)),
{
    let ghost texts = views(data@);
    let ghost n = data.len() as int;
    let mut stack = crate::text::reversed(data);
    let mut done: Vec<String> = Vec::new();
    let mut removed: Vec<String> = Vec::new();
    let mut added: Vec<String> = Vec::new();
    let ghost mut k: int = 0;
    assert(texts.subrange(0, 0) =~= Seq::<Seq<char>>::empty());
    while stack.len() > 0
        invariant
            texts == views(data@),
            0 <= k <= n,
            n == texts.len(),
            stack.len() == n - k,
            forall|j: int| 0 <= j < stack.len() ==> (#[trigger] stack[j])@ == texts[n - 1 - j],
            forall|j: int| 0 <= j < k ==> is_body_tag(tag(#[trigger] texts[j])),
            views(done@) == grouped(texts.subrange(0, k)).done,
            views(removed@) == grouped(texts.subrange(0, k)).removed,
            views(added@) == grouped(texts.subrange(0, k)).added,
        decreases stack.len(),
    {
        let line = match stack.pop() {
            Some(line) => line,
            None => {
                return Err(merge_err("sort: no line", "", ""));
            },
        };
        assert(line@ == texts[k]);
        let ghost prefix = texts.subrange(0, k + 1);
        assert(prefix.drop_last() =~= texts.subrange(0, k));
        assert(prefix.last() == line@);
        let t = line_tag(line.as_str());
        if t == ' ' {
            let ghost d = views(done@);
            let ghost r = views(removed@);
            let ghost a = views(added@);
            done.append(&mut removed);
            done.append(&mut added);
            done.push(line);
            assert(views(done@) =~= d + r + a + seq![line@]);
            assert(views(removed@) =~= Seq::<Seq<char>>::empty());
            assert(views(added@) =~= Seq::<Seq<char>>::empty());
        } else if t == '-' {
            let ghost r = views(removed@);
            removed.push(line);
            assert(views(removed@) =~= r.push(line@));
        } else if t == '+' {
            let ghost a = views(added@);
            added.push(line);
            assert(views(added@) =~= a.push(line@));
        } else {
            assert(!is_body_tag(tag(texts[k])));
            return Err(merge_err("sort: Unexpected line prefix in '", line.as_str(), "'"));
        }
        proof {
            k = k + 1;
        }
    }
    assert(texts.subrange(0, n) =~= texts);
    let ghost d = views(done@);
    let ghost r = views(removed@);
    let ghost a = views(added@);
    done.append(&mut removed);
    done.append(&mut added);
    assert(views(done@) =~= d + r + a);
    Ok(done)
}

/// What a step of the kernel hands over.
pub enum FuseItem {
    Skip,
    Single(Line),
    Pair(Line, Line),
}

impl FuseItem {
    /// The lines handed over, in order.
    pub open spec fn texts(&self) -> Seq<Seq<char>> {
        match self {
            FuseItem::Skip => Seq::empty(),
            FuseItem::Single(l) => seq![l.line@],
            FuseItem::Pair(l, r) => seq![l.line@, r.line@],
        }
    }
}

/// Takes the kernel's steps one at a time.
pub struct Drain<T: InfoSource> {
    pub source: T,
}

impl<T: InfoSource> Drain<T> {
    /// Takes one step. `None` once both streams are at their end.
    pub fn next(&mut self) -> (r: Option<Result<FuseItem, MergeErr>>)
        requires
            old(self).source.inv(),
        ensures
            final(self).source.inv(),
            match step(old(self).source.streams()) {
                Step::Done => {
                    &&& r is None
                    &&& final(self).source.streams() == settle(old(self).source.streams())
                },
                Step::Emit(lines, next) => r is Some && r->0 is Ok && r->0->Ok_0.texts() == lines
                    && final(self).source.streams() == next,
                Step::Fail => r is Some && r->0 is Err,
            },
    {
        let ghost settled = settle(self.source.streams());
        let (left, right) = {
            let heads = self.source.peek();
            let left = match heads[0] {
                Some(l) => Some((l.rank, l.prefix())),
                None => None,
            };
            let right = match heads[1] {
                Some(l) => Some((l.rank, l.prefix())),
                None => None,
            };
            (left, right)
        };
        assert(self.source.streams() == settled);
        match (left, right) {
            (None, None) => None,
            (None, Some(_)) => self.take_right(),
            (Some(_), None) => self.take_left(),
            (Some(l), Some(r)) => {
                if l.0 < r.0 {
                    self.take_left()
                } else if l.0 > r.0 {
                    self.take_right()
                } else {
                    self.decide([l.1, r.1])
                }
            },
        }
    }

    /// Settles two lines of equal rank whose tags are `index`.
    fn decide(&mut self, index: [char; 2]) -> (r: Option<Result<FuseItem, MergeErr>>)
        requires
            old(self).source.inv(),
            old(self).source.streams().left.cur.len() > 0,
            old(self).source.streams().right.cur.len() > 0,
            index[0] == tag(old(self).source.streams().left.cur[0].text),
            index[1] == tag(old(self).source.streams().right.cur[0].text),
        ensures
            final(self).source.inv(),
            ({
                let s = old(self).source.streams();
                match verdict(s.left.cur[0].text, s.right.cur[0].text) {
                    Verdict::Left => {
                        &&& r is Some
                        &&& r->0 is Ok
                        &&& r->0->Ok_0.texts() == seq![s.left.cur[0].text]
                        &&& final(self).source.streams() == pop_left(s)
                    },
                    Verdict::Right => {
                        &&& r is Some
                        &&& r->0 is Ok
                        &&& r->0->Ok_0.texts() == seq![s.right.cur[0].text]
                        &&& final(self).source.streams() == pop_right(s)
                    },
                    Verdict::Both(lines) => r is Some && r->0 is Ok && r->0->Ok_0.texts() == lines
                        && final(self).source.streams() == pop_right(pop_left(s)),
                    Verdict::Clash => r is Some && r->0 is Err,
                }
            }),
    {
        let l = index[0];
        let r = index[1];
        if l == ' ' && r == ' ' {
            self.skip_take_right()
        } else if l == '+' && r == ' ' {
            self.skip_take_left()
        } else if l == '-' && r == ' ' {
            self.take_left()
        } else if l == ' ' && r == '+' {
            self.take_right()
        } else if l == '+' && r == '+' {
            self.take_right()
        } else if l == '-' && r == '+' {
            let (left, right) = match self.both() {
                Some(pair) => pair,
                None => {
                    return None;
                },
            };
            if same_payload(left.line.as_str(), right.line.as_str()) {
                Some(Ok(FuseItem::Skip))
            } else {
                Some(Ok(FuseItem::Pair(left, right)))
            }
        } else if l == ' ' && r == '-' {
            self.skip_take_right()
        } else if l == '+' && r == '-' {
            self.skip()
        } else if l == '-' && r == '-' {
            self.take_left()
        } else {
            match self.both() {
                Some((left, right)) => Some(
                    Err(
                        merge_err(
                            "Unexpected prefixes on lines -- '",
                            left.line.as_str(),
                            "' and its counterpart",
                        ),
                    ),
                ),
                None => None,
            }
        }
    }

    /// Takes the first line of each stream.
    fn both(&mut self) -> (r: Option<(Line, Line)>)
        requires
            old(self).source.inv(),
            old(self).source.streams().left.cur.len() > 0,
            old(self).source.streams().right.cur.len() > 0,
        ensures
            final(self).source.inv(),
            match r {
                Some(pair) => {
                    &&& pair.0@ == old(self).source.streams().left.cur[0]
                    &&& pair.1@ == old(self).source.streams().right.cur[0]
                },
                None => false,
            },
            final(self).source.streams() == pop_right(pop_left(old(self).source.streams())),
    {
        let ghost s = self.source.streams();
        proof {
            lemma_settle_side(true, s.left, crate::fuse::info_source::current(s.right));
            lemma_settle_side(false, s.right, crate::fuse::info_source::current(pop(s.left)));
        }
        let left = self.source.next_left();
        let right = self.source.next_right();
        match (left, right) {
            (Some(l), Some(r)) => Some((l, r)),
            _ => None,
        }
    }

    fn take_left(&mut self) -> (r: Option<Result<FuseItem, MergeErr>>)
        requires
            old(self).source.inv(),
            old(self).source.streams().left.cur.len() > 0,
        ensures
            final(self).source.inv(),
            r is Some && r->0 is Ok,
            r->0->Ok_0.texts() == seq![old(self).source.streams().left.cur[0].text],
            final(self).source.streams() == pop_left(old(self).source.streams()),
    {
        let ghost s = self.source.streams();
        proof {
            lemma_settle_side(true, s.left, crate::fuse::info_source::current(s.right));
        }
        Self::take(self.source.next_left())
    }

    fn take_right(&mut self) -> (r: Option<Result<FuseItem, MergeErr>>)
        requires
            old(self).source.inv(),
            old(self).source.streams().right.cur.len() > 0,
        ensures
            final(self).source.inv(),
            r is Some && r->0 is Ok,
            r->0->Ok_0.texts() == seq![old(self).source.streams().right.cur[0].text],
            final(self).source.streams() == pop_right(old(self).source.streams()),
    {
        let ghost s = self.source.streams();
        proof {
            lemma_settle_side(false, s.right, crate::fuse::info_source::current(s.left));
        }
        Self::take(self.source.next_right())
    }

    /// Uses up both lines, which must agree, and emits nothing.
    fn skip(&mut self) -> (r: Option<Result<FuseItem, MergeErr>>)
        requires
            old(self).source.inv(),
            old(self).source.streams().left.cur.len() > 0,
            old(self).source.streams().right.cur.len() > 0,
        ensures
            final(self).source.inv(),
            r is Some,
            ({
                let s = old(self).source.streams();
                if payload(s.left.cur[0].text) == payload(s.right.cur[0].text) {
                    r->0 is Ok && r->0->Ok_0.texts() == Seq::<Seq<char>>::empty()
                        && final(self).source.streams() == pop_right(pop_left(s))
                } else {
                    r->0 is Err
                }
            }),
    {
        match self.both() {
            Some((left, right)) => {
                if same_payload(left.line.as_str(), right.line.as_str()) {
                    Some(Ok(FuseItem::Skip))
                } else {
                    Some(Err(Self::mismatch("skip", &left, &right)))
                }
            },
            None => None,
        }
    }

    /// Uses up both lines, which must agree, and emits the left one.
    fn skip_take_left(&mut self) -> (r: Option<Result<FuseItem, MergeErr>>)
        requires
            old(self).source.inv(),
            old(self).source.streams().left.cur.len() > 0,
            old(self).source.streams().right.cur.len() > 0,
        ensures
            final(self).source.inv(),
            r is Some,
            ({
                let s = old(self).source.streams();
                if payload(s.left.cur[0].text) == payload(s.right.cur[0].text) {
                    r->0 is Ok && r->0->Ok_0.texts() == seq![s.left.cur[0].text]
                        && final(self).source.streams() == pop_right(pop_left(s))
                } else {
                    r->0 is Err
                }
            }),
    {
        match self.both() {
            Some((left, right)) => {
                if same_payload(left.line.as_str(), right.line.as_str()) {
                    Self::take(Some(left))
                } else {
                    Some(Err(Self::mismatch("skip_take", &left, &right)))
                }
            },
            None => None,
        }
    }

    /// Uses up both lines, which must agree, and emits the right one.
    fn skip_take_right(&mut self) -> (r: Option<Result<FuseItem, MergeErr>>)
        requires
            old(self).source.inv(),
            old(self).source.streams().left.cur.len() > 0,
            old(self).source.streams().right.cur.len() > 0,
        ensures
            final(self).source.inv(),
            r is Some,
            ({
                let s = old(self).source.streams();
                if payload(s.left.cur[0].text) == payload(s.right.cur[0].text) {
                    r->0 is Ok && r->0->Ok_0.texts() == seq![s.right.cur[0].text]
                        && final(self).source.streams() == pop_right(pop_left(s))
                } else {
                    r->0 is Err
                }
            }),
    {
        match self.both() {
            Some((left, right)) => {
                if same_payload(left.line.as_str(), right.line.as_str()) {
                    Self::take(Some(right))
                } else {
                    Some(Err(Self::mismatch("skip_take", &left, &right)))
                }
            },
            None => None,
        }
    }

    fn take(info: Option<Line>) -> (r: Option<Result<FuseItem, MergeErr>>)
        ensures
            match info {
                Some(l) => r is Some && r->0 is Ok && r->0->Ok_0 == FuseItem::Single(l),
                None => r is None,
            },
    {
        match info {
            Some(l) => Some(Ok(FuseItem::Single(l))),
            None => None,
        }
    }

    /// The error for two lines that contradict each other; its message
    /// names the step and both lines, each in quotes.
    fn mismatch(place: &str, left: &Line, right: &Line) -> (e: MergeErr)
        ensures
            e.message() == place@ + ": Mismatch between lines -- "@ + ("'"@ + (left@.text
                + "' and '"@ + right@.text) + "'"@),
    {
        let pair = crate::error::describe(left.line.as_str(), "' and '", right.line.as_str());
        let quoted = crate::error::describe("'", pair.as_str(), "'");
        merge_err(place, ": Mismatch between lines -- ", quoted.as_str())
    }
}

/// The texts of ranked lines.
pub open spec fn stream_texts(cur: Seq<LineView>) -> Seq<Seq<char>> {
    Seq::new(cur.len(), |i: int| cur[i].text)
}

/// Net number of lines a list of hunks adds.
pub open spec fn hunks_delta(hunks: Seq<HunkView>) -> int
    decreases hunks.len(),
{
    if hunks.len() == 0 {
        0
    } else {
        hunks[0].delta() + hunks_delta(hunks.drop_first())
    }
}

/// Net number of lines that the lines a side can still give add.
pub open spec fn side_delta(side: Side) -> int {
    delta(stream_texts(side.cur)) + hunks_delta(side.rest)
}

/// Net number of lines that the lines the streams can still give add.
pub open spec fn streams_delta(s: Streams) -> int {
    side_delta(s.left) + side_delta(s.right)
}

/// What one line adds: one for an added line, minus one for a removed one.
pub open spec fn line_delta(line: Seq<char>) -> int {
    if tag(line) == '+' {
        1
    } else if tag(line) == '-' {
        -1
    } else {
        0
    }
}

/// What the lines after the first add.
pub proof fn lemma_delta_front(lines: Seq<Seq<char>>)
    requires
        lines.len() > 0,
    ensures
        delta(lines) == line_delta(lines[0]) + delta(lines.drop_first()),
{
    let head = seq![lines[0]];
    assert(lines =~= head + lines.drop_first());
    lemma_count_concat(head, lines.drop_first(), '+');
    lemma_count_concat(head, lines.drop_first(), '-');
    assert(head =~= Seq::<Seq<char>>::empty().push(lines[0]));
    lemma_count_push(Seq::<Seq<char>>::empty(), lines[0], '+');
    lemma_count_push(Seq::<Seq<char>>::empty(), lines[0], '-');
}

/// What two lists of lines add is what each adds, together.
pub proof fn lemma_delta_concat(x: Seq<Seq<char>>, y: Seq<Seq<char>>)
    ensures
        delta(x + y) == delta(x) + delta(y),
{
    lemma_count_concat(x, y, '+');
    lemma_count_concat(x, y, '-');
}

/// A side that lets hunks join adds what it added before.
pub proof fn lemma_settle_side_delta(left: bool, side: Side, other: Quad)
    ensures
        side_delta(settle_side(left, side, other)) == side_delta(side),
    decreases side.rest.len(),
{
    if side.cur.len() > 0 || side.rest.len() == 0 || !joins(left, side.rest[0].header, other) {
    } else {
        let next = Side {
            cur: stream_of(left, side.rest[0]),
            header: side.rest[0].header,
            rest: side.rest.drop_first(),
        };
        lemma_settle_side_delta(left, next, other);
        assert(stream_texts(next.cur) =~= side.rest[0].body());
        assert(stream_texts(side.cur) =~= Seq::<Seq<char>>::empty());
    }
}

/// A side without its first line adds what it added, less that line.
pub proof fn lemma_pop_delta(side: Side)
    requires
        side.cur.len() > 0,
    ensures
        side_delta(pop(side)) + line_delta(side.cur[0].text) == side_delta(side),
{
    lemma_delta_front(stream_texts(side.cur));
    assert(stream_texts(side.cur).drop_first() =~= stream_texts(side.cur.drop_first()));
}

/// What a step emits and what is left add up to what there was.
pub proof fn lemma_step_delta(from: Streams)
    ensures
        match step(from) {
            Step::Emit(lines, next) => delta(lines) + streams_delta(next) == streams_delta(from),
            Step::Done => streams_delta(settle(from)) == streams_delta(from)
                && settle(from).left.cur.len() == 0 && settle(from).right.cur.len() == 0,
            Step::Fail => true,
        },
{
    let s = settle(from);
    lemma_settle_side_delta(true, from.left, current(from.right));
    lemma_settle_side_delta(false, from.right, current(from.left));
    if s.left.cur.len() > 0 {
        lemma_pop_delta(s.left);
    }
    if s.right.cur.len() > 0 {
        lemma_pop_delta(s.right);
    }
    match step(from) {
        Step::Emit(lines, next) => {
            if lines.len() == 1 {
                lemma_delta_front(lines);
                assert(lines.drop_first() =~= Seq::<Seq<char>>::empty());
            } else if lines.len() == 2 {
                lemma_delta_front(lines);
                lemma_delta_front(lines.drop_first());
                assert(lines.drop_first().drop_first() =~= Seq::<Seq<char>>::empty());
            } else {
                assert(lines =~= Seq::<Seq<char>>::empty());
            }
        },
        _ => {},
    }
}

/// Offset conservation for the kernel: what it emits adds as many lines
/// as the lines it has used up, and it stops with no line at hand.
pub proof fn lemma_run_delta(from: Streams)
    ensures
        match run(from) {
            Some(pair) => delta(pair.0) + streams_delta(pair.1) == streams_delta(from)
                && pair.1.left.cur.len() == 0 && pair.1.right.cur.len() == 0,
            None => true,
        },
    decreases lines_left(from),
{
    lemma_step_delta(from);
    match step(from) {
        Step::Emit(lines, next) => {
            lemma_step(from);
            lemma_run_delta(next);
            if run(next) is Some {
                lemma_delta_concat(lines, emitted_by(run(next)));
            }
        },
        _ => {},
    }
}

/// Offset conservation for a fused hunk: it adds as many lines as the
/// lines that went into it.
pub proof fn lemma_fused_delta(start: Quad, from: Streams)
    ensures
        match fused(start, from) {
            Some(pair) => pair.0.delta() + streams_delta(pair.1) == streams_delta(from)
                && pair.1.left.cur.len() == 0 && pair.1.right.cur.len() == 0,
            None => true,
        },
{
    lemma_run_delta(from);
    if fused(start, from) is Some {
        let emitted = emitted_by(run(from));
        lemma_arrange_counts(emitted, '+');
        lemma_arrange_counts(emitted, '-');
        let hunk = fused(start, from).unwrap().0;
        assert(hunk.body() =~= arrange(emitted));
    }
}

/// The group a line belongs to: the number of context lines up to and
/// with the line. A context line opens a group.
pub open spec fn group_of(lines: Seq<Seq<char>>, i: int) -> int {
    crate::tags::tagged(lines, ' ', i + 1)
}

/// The rank of a tag within a group: context first, then removed lines,
/// then added lines.
pub open spec fn class_of(line: Seq<char>) -> int {
    if tag(line) == ' ' {
        0
    } else if tag(line) == '-' {
        1
    } else {
        2
    }
}

/// Whether line `i` comes before line `j` in the order of the fused body:
/// by group, within a group by the rank of the tag, and among lines of
/// one tag by the order in which they were emitted.
pub open spec fn sorts_before(lines: Seq<Seq<char>>, i: int, j: int) -> bool {
    let gi = group_of(lines, i);
    let gj = group_of(lines, j);
    let ci = class_of(lines[i]);
    let cj = class_of(lines[j]);
    gi < gj || (gi == gj && (ci < cj || (ci == cj && i < j)))
}

/// The places the lines seen so far came from, put in groups as `grouped`
/// puts the lines.
pub struct Places {
    pub done: Seq<int>,
    pub removed: Seq<int>,
    pub added: Seq<int>,
}

/// For each line of `grouped(lines)` the place in `lines` it came from.
pub open spec fn places(lines: Seq<Seq<char>>) -> Places
    decreases lines.len(),
{
    if lines.len() == 0 {
        Places { done: Seq::empty(), removed: Seq::empty(), added: Seq::empty() }
    } else {
        let g = places(lines.drop_last());
        let at = lines.len() - 1;
        if tag(lines.last()) == ' ' {
            Places {
                done: g.done + g.removed + g.added + seq![at],
                removed: Seq::empty(),
                added: Seq::empty(),
            }
        } else if tag(lines.last()) == '-' {
            Places { removed: g.removed.push(at), ..g }
        } else {
            Places { added: g.added.push(at), ..g }
        }
    }
}

/// For each line of `arrange(lines)` the place in `lines` it came from.
pub open spec fn origin(lines: Seq<Seq<char>>) -> Seq<int> {
    let p = places(lines);
    p.done + p.removed + p.added
}

/// Whether `line` is the line at place `i`, which belongs to a closed
/// group or is a context line of the open group.
pub open spec fn is_done(lines: Seq<Seq<char>>, i: int, line: Seq<char>) -> bool {
    let open = crate::tags::tagged(lines, ' ', lines.len() as int);
    &&& 0 <= i < lines.len()
    &&& line == lines[i]
    &&& group_of(lines, i) < open || (group_of(lines, i) == open && class_of(lines[i]) == 0)
}

/// Whether `line` is the line at place `i`, which belongs to the open
/// group and to the given class.
pub open spec fn is_open(lines: Seq<Seq<char>>, i: int, line: Seq<char>, class: int) -> bool {
    &&& 0 <= i < lines.len()
    &&& line == lines[i]
    &&& group_of(lines, i) == crate::tags::tagged(lines, ' ', lines.len() as int)
    &&& class_of(lines[i]) == class
}

/// What holds of the places of the groups: each is a place of `lines`
/// and holds the line that `grouped` lists there; every place is listed;
/// each list is in order; the closed groups come before the open group,
/// whose removed lines come before its added lines.
pub open spec fn places_ok(lines: Seq<Seq<char>>) -> bool {
    let p = places(lines);
    let g = grouped(lines);
    let n = lines.len() as int;
    let open = crate::tags::tagged(lines, ' ', n);
    &&& p.done.len() == g.done.len()
    &&& p.removed.len() == g.removed.len()
    &&& p.added.len() == g.added.len()
    &&& forall|k: int| 0 <= k < p.done.len() ==> is_done(lines, #[trigger] p.done[k], g.done[k])
    &&& forall|k: int|
        0 <= k < p.removed.len() ==> is_open(lines, #[trigger] p.removed[k], g.removed[k], 1)
    &&& forall|k: int|
        0 <= k < p.added.len() ==> is_open(lines, #[trigger] p.added[k], g.added[k], 2)
    &&& forall|j: int, k: int|
        0 <= j < k < p.done.len()
            ==> sorts_before(lines, #[trigger] p.done[j], #[trigger] p.done[k])
    &&& forall|j: int, k: int|
        0 <= j < k < p.removed.len() ==> (#[trigger] p.removed[j]) < (#[trigger] p.removed[k])
    &&& forall|j: int, k: int|
        0 <= j < k < p.added.len() ==> (#[trigger] p.added[j]) < (#[trigger] p.added[k])
    &&& forall|i: int|
        0 <= i < n ==> p.done.contains(i) || p.removed.contains(i) || #[trigger] p.added.contains(i)
}

/// The order of two lines does not change when a line is emitted after them.
pub proof fn lemma_sorts_before_stable(lines: Seq<Seq<char>>, line: Seq<char>, i: int, j: int)
    requires
        0 <= i < lines.len(),
        0 <= j < lines.len(),
    ensures
        group_of(lines.push(line), i) == group_of(lines, i),
        class_of(lines.push(line)[i]) == class_of(lines[i]),
        sorts_before(lines.push(line), i, j) == sorts_before(lines, i, j),
{
    crate::tags::lemma_tagged_prefix(lines.push(line), lines, ' ', i + 1);
    crate::tags::lemma_tagged_prefix(lines.push(line), lines, ' ', j + 1);
}

/// The places are as `places_ok` says, whatever lines were emitted.
pub proof fn lemma_places(lines: Seq<Seq<char>>)
    requires
        all_body_tags(lines),
    ensures
        places_ok(lines),
    decreases lines.len(),
{
    let n = lines.len() as int;
    if n > 0 {
        let front = lines.drop_last();
        let line = lines.last();
        assert(lines =~= front.push(line));
        assert(all_body_tags(front)) by {
            assert forall|i: int| 0 <= i < front.len() implies is_body_tag(
                tag(#[trigger] front[i]),
            ) by {
                assert(front[i] == lines[i]);
            }
        }
        lemma_places(front);
        let q = places(front);
        let h = grouped(front);
        let p = places(lines);
        let g = grouped(lines);
        let was = crate::tags::tagged(front, ' ', n - 1);
        let open = crate::tags::tagged(lines, ' ', n);
        crate::tags::lemma_tagged_prefix(lines, front, ' ', n - 1);
        assert(is_body_tag(tag(lines[n - 1])));
        assert(group_of(lines, n - 1) == open);
        assert forall|i: int| 0 <= i < n - 1 implies group_of(lines, i) == group_of(front, i)
            && lines[i] == front[i] by {
            lemma_sorts_before_stable(front, line, i, i);
        }
        assert forall|i: int, j: int| 0 <= i < n - 1 && 0 <= j < n - 1 implies sorts_before(
            lines,
            i,
            j,
        ) == sorts_before(front, i, j) by {
            lemma_sorts_before_stable(front, line, i, j);
        }
        if tag(line) == ' ' {
            assert(open == was + 1);
            let all = q.done + q.removed + q.added;
            assert(p.done =~= all.push(n - 1));
            assert(g.done =~= (h.done + h.removed + h.added).push(line));
            assert forall|k: int| 0 <= k < p.done.len() implies is_done(
                lines,
                #[trigger] p.done[k],
                g.done[k],
            ) by {
                if k < q.done.len() {
                    assert(p.done[k] == q.done[k]);
                } else if k < q.done.len() + q.removed.len() {
                    assert(p.done[k] == q.removed[k - q.done.len()]);
                } else if k < all.len() {
                    assert(p.done[k] == q.added[k - q.done.len() - q.removed.len()]);
                }
            }
            assert forall|j: int, k: int| 0 <= j < k < p.done.len() implies sorts_before(
                lines,
                #[trigger] p.done[j],
                #[trigger] p.done[k],
            ) by {
                let a = q.done.len() as int;
                let b = a + q.removed.len();
                let pj = p.done[j];
                let pk = p.done[k];
                if j < a {
                    assert(pj == q.done[j]);
                } else if j < b {
                    assert(pj == q.removed[j - a]);
                } else {
                    assert(pj == q.added[j - b]);
                }
                if k < a {
                    assert(pk == q.done[k]);
                } else if k < b {
                    assert(pk == q.removed[k - a]);
                } else if k < all.len() {
                    assert(pk == q.added[k - b]);
                }
            }
            assert forall|i: int| 0 <= i < n implies p.done.contains(i) || p.removed.contains(i)
                || #[trigger] p.added.contains(i) by {
                if i == n - 1 {
                    assert(p.done[all.len() as int] == i);
                } else {
                    assert(q.done.contains(i) || q.removed.contains(i) || q.added.contains(i));
                    if q.done.contains(i) {
                        let k = choose|k: int| 0 <= k < q.done.len() && q.done[k] == i;
                        assert(p.done[k] == i);
                    } else if q.removed.contains(i) {
                        let k = choose|k: int| 0 <= k < q.removed.len() && q.removed[k] == i;
                        assert(p.done[q.done.len() + k] == i);
                    } else {
                        let k = choose|k: int| 0 <= k < q.added.len() && q.added[k] == i;
                        assert(p.done[q.done.len() + q.removed.len() + k] == i);
                    }
                }
            }
        } else {
            assert(open == was);
            if tag(line) == '-' {
                assert(p.removed =~= q.removed.push(n - 1));
                assert(g.removed =~= h.removed.push(line));
                assert forall|k: int| 0 <= k < p.removed.len() implies is_open(
                    lines,
                    #[trigger] p.removed[k],
                    g.removed[k],
                    1,
                ) by {
                    if k < q.removed.len() {
                        assert(p.removed[k] == q.removed[k]);
                    }
                }
                assert forall|j: int, k: int| 0 <= j < k < p.removed.len() implies (
                #[trigger] p.removed[j]) < (#[trigger] p.removed[k]) by {
                    assert(p.removed[j] == q.removed[j]);
                    if k < q.removed.len() {
                        assert(p.removed[k] == q.removed[k]);
                    }
                }
            } else {
                assert(p.added =~= q.added.push(n - 1));
                assert(g.added =~= h.added.push(line));
                assert forall|k: int| 0 <= k < p.added.len() implies is_open(
                    lines,
                    #[trigger] p.added[k],
                    g.added[k],
                    2,
                ) by {
                    if k < q.added.len() {
                        assert(p.added[k] == q.added[k]);
                    }
                }
                assert forall|j: int, k: int| 0 <= j < k < p.added.len() implies (
                #[trigger] p.added[j]) < (#[trigger] p.added[k]) by {
                    assert(p.added[j] == q.added[j]);
                    if k < q.added.len() {
                        assert(p.added[k] == q.added[k]);
                    }
                }
            }
            assert forall|k: int| 0 <= k < p.done.len() implies is_done(
                lines,
                #[trigger] p.done[k],
                g.done[k],
            ) by {
                assert(p.done[k] == q.done[k]);
            }
            assert forall|i: int| 0 <= i < n implies p.done.contains(i) || p.removed.contains(i)
                || #[trigger] p.added.contains(i) by {
                if i == n - 1 {
                    if tag(line) == '-' {
                        assert(p.removed[q.removed.len() as int] == i);
                    } else {
                        assert(p.added[q.added.len() as int] == i);
                    }
                } else {
                    assert(q.done.contains(i) || q.removed.contains(i) || q.added.contains(i));
                    if q.removed.contains(i) {
                        let k = choose|k: int| 0 <= k < q.removed.len() && q.removed[k] == i;
                        assert(p.removed[k] == i);
                    } else if q.added.contains(i) {
                        let k = choose|k: int| 0 <= k < q.added.len() && q.added[k] == i;
                        assert(p.added[k] == i);
                    }
                }
            }
        }
    }
}

/// The order of a fused body: `arrange` lists every emitted line once, and
/// lists it by group, within a group by the rank of its tag, and among
/// lines of one tag in the order in which they were emitted.
pub proof fn lemma_arrange_order(lines: Seq<Seq<char>>)
    requires
        all_body_tags(lines),
    ensures
        origin(lines).len() == lines.len(),
        arrange(lines).len() == lines.len(),
        forall|k: int| 0 <= k < lines.len() ==> 0 <= #[trigger] origin(lines)[k] < lines.len(),
        forall|k: int|
            0 <= k < lines.len() ==> #[trigger] arrange(lines)[k] == lines[origin(lines)[k]],
        forall|i: int| 0 <= i < lines.len() ==> #[trigger] origin(lines).contains(i),
        forall|j: int, k: int|
            0 <= j < k < lines.len() ==> sorts_before(
                lines,
                #[trigger] origin(lines)[j],
                #[trigger] origin(lines)[k],
            ),
{
    lemma_places(lines);
    let p = places(lines);
    let g = grouped(lines);
    let o = origin(lines);
    let n = lines.len() as int;
    let a = p.done.len() as int;
    let b = a + p.removed.len();
    lemma_origin_len(lines);
    assert forall|k: int| 0 <= k < n implies {
        &&& 0 <= #[trigger] o[k] < n
        &&& arrange(lines)[k] == lines[o[k]]
    } by {
        if k < a {
            assert(o[k] == p.done[k]);
        } else if k < b {
            assert(o[k] == p.removed[k - a]);
        } else {
            assert(o[k] == p.added[k - b]);
        }
    }
    assert forall|i: int| 0 <= i < n implies #[trigger] o.contains(i) by {
        assert(p.done.contains(i) || p.removed.contains(i) || p.added.contains(i));
        if p.done.contains(i) {
            let k = choose|k: int| 0 <= k < p.done.len() && p.done[k] == i;
            assert(o[k] == i);
        } else if p.removed.contains(i) {
            let k = choose|k: int| 0 <= k < p.removed.len() && p.removed[k] == i;
            assert(o[a + k] == i);
        } else {
            let k = choose|k: int| 0 <= k < p.added.len() && p.added[k] == i;
            assert(o[b + k] == i);
        }
    }
    assert forall|j: int, k: int| 0 <= j < k < n implies sorts_before(
        lines,
        #[trigger] o[j],
        #[trigger] o[k],
    ) by {
        if j < a {
            assert(o[j] == p.done[j]);
        } else if j < b {
            assert(o[j] == p.removed[j - a]);
        } else {
            assert(o[j] == p.added[j - b]);
        }
        if k < a {
            assert(o[k] == p.done[k]);
        } else if k < b {
            assert(o[k] == p.removed[k - a]);
        } else {
            assert(o[k] == p.added[k - b]);
        }
    }
}

/// Every line has one place.
pub proof fn lemma_origin_len(lines: Seq<Seq<char>>)
    ensures
        places(lines).done.len() + places(lines).removed.len() + places(lines).added.len()
            == lines.len(),
        grouped(lines).done.len() + grouped(lines).removed.len() + grouped(lines).added.len()
            == lines.len(),
    decreases lines.len(),
{
    if lines.len() > 0 {
        lemma_origin_len(lines.drop_last());
    }
}

} // verus!
