//! Merges two streams of ranked, handed lines into one hunk body.
//!
//! The streams are walked together. The line of lower rank goes first;
//! two lines of equal rank from different hands are settled by their
//! tags, the line of the left hand standing for what the first diff
//! leaves and the line of the right hand for what the second diff takes.

use crate::error::{MergeErr, merge_err};
use crate::hand::Hand;
use crate::hunk::header::least;
use crate::hunk::merge::same_header;
use crate::info::{Info, InfoView, info_views, tag_or_space};
use crate::tags::{
    all_body_tags, count_after, count_before, count_sides, countable, is_body_tag,
    lemma_counted_push, lemma_uncountable, line_tag, payload, same_payload, tag, with_tag,
};
use crate::text::reversed;
use vstd::prelude::*;

verus! {

/// A line on its way out, with the hand it came from.
pub struct Handed {
    pub hand: Hand,
    pub text: Seq<char>,
}

/// What becomes of two lines of equal rank.
pub enum Outcome {
    /// The line of the left hand goes out; the other waits.
    First,
    /// The line of the right hand goes out; the other waits.
    Second,
    /// Both lines are used up and these go out.
    Both(Seq<Handed>),
    /// The two lines contradict each other.
    Clash,
}

/// The line of an info with its hand.
pub open spec fn handed(info: InfoView) -> Handed {
    Handed { hand: info.hand, text: info.text }
}

/// The rule for two lines of equal rank: `first` is the line of the left
/// hand, `second` the line of the right hand. A line taken out by the
/// first diff and put back by the second stays as context.
pub open spec fn outcome(first: InfoView, second: InfoView) -> Outcome {
    let l = tag_or_space(first.text);
    let r = tag_or_space(second.text);
    let same = payload(first.text) == payload(second.text);
    if l == ' ' && r == ' ' {
        if same {
            Outcome::Both(seq![handed(second)])
        } else {
            Outcome::Clash
        }
    } else if l == '+' && r == ' ' {
        if same {
            Outcome::Both(seq![handed(first)])
        } else {
            Outcome::Clash
        }
    } else if l == '-' && r == ' ' {
        Outcome::First
    } else if l == ' ' && r == '+' {
        Outcome::Second
    } else if l == '+' && r == '+' {
        Outcome::Second
    } else if l == '-' && r == '+' {
        if same {
            Outcome::Both(
                seq![Handed { hand: second.hand, text: seq![' '] + payload(second.text) }],
            )
        } else {
            Outcome::Both(seq![handed(first), handed(second)])
        }
    } else if l == ' ' && r == '-' {
        if same {
            Outcome::Both(seq![handed(second)])
        } else {
            Outcome::Clash
        }
    } else if l == '+' && r == '-' {
        if same {
            Outcome::Both(Seq::empty())
        } else {
            Outcome::Clash
        }
    } else if l == '-' && r == '-' {
        Outcome::First
    } else {
        Outcome::Clash
    }
}

/// One step of the merge: the lines that go out and how many lines each
/// stream gives up.
pub enum Move {
    Done,
    Emit(Seq<Handed>, int, int),
    Fail,
}

/// The step taken with `l` and `r` still to come. A stream that is alone
/// is drained. Of two lines of different rank the one of lower rank goes
/// out. Two lines of equal rank are settled by `outcome` if they come from
/// different hands, and contradict each other if they come from the same.
pub open spec fn next_move(l: Seq<InfoView>, r: Seq<InfoView>) -> Move {
    if l.len() == 0 && r.len() == 0 {
        Move::Done
    } else if l.len() == 0 {
        Move::Emit(seq![handed(r[0])], 0, 1)
    } else if r.len() == 0 {
        Move::Emit(seq![handed(l[0])], 1, 0)
    } else if l[0].rank < r[0].rank {
        Move::Emit(seq![handed(l[0])], 1, 0)
    } else if l[0].rank > r[0].rank {
        Move::Emit(seq![handed(r[0])], 0, 1)
    } else if l[0].hand == r[0].hand {
        Move::Fail
    } else if l[0].hand == Hand::Left {
        match outcome(l[0], r[0]) {
            Outcome::First => Move::Emit(seq![handed(l[0])], 1, 0),
            Outcome::Second => Move::Emit(seq![handed(r[0])], 0, 1),
            Outcome::Both(lines) => Move::Emit(lines, 1, 1),
            Outcome::Clash => Move::Fail,
        }
    } else {
        match outcome(r[0], l[0]) {
            Outcome::First => Move::Emit(seq![handed(r[0])], 0, 1),
            Outcome::Second => Move::Emit(seq![handed(l[0])], 1, 0),
            Outcome::Both(lines) => Move::Emit(lines, 1, 1),
            Outcome::Clash => Move::Fail,
        }
    }
}

/// The lines that go out, in the order in which they do. `None` where two
/// lines contradict each other.
pub open spec fn merged(l: Seq<InfoView>, r: Seq<InfoView>) -> Option<Seq<Handed>>
    decreases l.len() + r.len(),
{
    match next_move(l, r) {
        Move::Done => Some(Seq::empty()),
        Move::Fail => None,
        Move::Emit(lines, nl, nr) => {
            if 0 <= nl <= l.len() && 0 <= nr <= r.len() && nl + nr > 0 {
                match merged(l.subrange(nl, l.len() as int), r.subrange(nr, r.len() as int)) {
                    Some(more) => Some(lines + more),
                    None => None,
                }
            } else {
                None
            }
        },
    }
}

/// The texts of handed lines.
pub open spec fn texts(lines: Seq<Handed>) -> Seq<Seq<char>> {
    Seq::new(lines.len(), |i: int| lines[i].text)
}

/// Handed lines put in groups; see `arranged`.
pub struct Sorted {
    pub done: Seq<Handed>,
    pub removed: Seq<Handed>,
    pub added: Seq<Handed>,
}

/// The lines put in groups: a context line closes the open group and comes
/// first in the next one.
pub open spec fn sorted(lines: Seq<Handed>) -> Sorted
    decreases lines.len(),
{
    if lines.len() == 0 {
        Sorted { done: Seq::empty(), removed: Seq::empty(), added: Seq::empty() }
    } else {
        let g = sorted(lines.drop_last());
        let line = lines.last();
        if tag(line.text) == ' ' {
            Sorted {
                done: g.done + g.removed + g.added + seq![line],
                removed: Seq::empty(),
                added: Seq::empty(),
            }
        } else if tag(line.text) == '-' {
            Sorted { removed: g.removed.push(line), ..g }
        } else {
            Sorted { added: g.added.push(line), ..g }
        }
    }
}

/// The lines as the merged body lists them: group after group, a group
/// being a context line and what follows it up to the next, and in each
/// group the context line, then the removed lines, then the added lines,
/// each kind in the order in which it went out.
pub open spec fn arranged(lines: Seq<Handed>) -> Seq<Handed> {
    let g = sorted(lines);
    g.done + g.removed + g.added
}

/// Header and body of the merge of two hunks, given their headers and
/// their lines with ranks. The header starts where the earlier of the two
/// starts and counts the lines of the body. `None` where two lines
/// contradict each other, where a line without a body tag goes out, and
/// where a count cannot be held.
pub open spec fn merge_of(
    lheader: [usize; 4],
    l: Seq<InfoView>,
    rheader: [usize; 4],
    r: Seq<InfoView>,
) -> Option<(Seq<int>, Seq<Handed>)> {
    match merged(l, r) {
        None => None,
        Some(lines) => {
            if countable(texts(lines)) {
                Some(
                    (
                        seq![
                            least(lheader[0] as int, rheader[0] as int),
                            count_before(texts(lines)),
                            least(lheader[2] as int, rheader[2] as int),
                            count_after(texts(lines)),
                        ],
                        arranged(lines),
                    ),
                )
            } else {
                None
            }
        },
    }
}

/// Arranging handed lines arranges their texts.
pub proof fn lemma_arranged_texts(lines: Seq<Handed>)
    ensures
        texts(sorted(lines).done) == crate::fuse::kernel::grouped(texts(lines)).done,
        texts(sorted(lines).removed) == crate::fuse::kernel::grouped(texts(lines)).removed,
        texts(sorted(lines).added) == crate::fuse::kernel::grouped(texts(lines)).added,
        texts(arranged(lines)) == crate::fuse::kernel::arrange(texts(lines)),
    decreases lines.len(),
{
    let s = sorted(lines);
    let g = crate::fuse::kernel::grouped(texts(lines));
    if lines.len() == 0 {
        assert(texts(s.done) =~= g.done);
        assert(texts(s.removed) =~= g.removed);
        assert(texts(s.added) =~= g.added);
    } else {
        let front = lines.drop_last();
        lemma_arranged_texts(front);
        assert(texts(lines).drop_last() =~= texts(front));
        assert(texts(lines).last() == lines.last().text);
        let q = sorted(front);
        assert(texts(s.done) =~= g.done);
        assert(texts(s.removed) =~= g.removed);
        assert(texts(s.added) =~= g.added);
    }
    assert(texts(arranged(lines)) =~= texts(s.done) + texts(s.removed) + texts(s.added));
}

/// What a step of the merge hands over.
pub enum MergeItem {
    Skip,
    Single(Info),
    Pair(Info, Info),
}

impl MergeItem {
    /// The lines handed over, in order.
    pub open spec fn lines(&self) -> Seq<Handed> {
        match self {
            MergeItem::Skip => Seq::empty(),
            MergeItem::Single(a) => seq![handed(a@)],
            MergeItem::Pair(a, b) => seq![handed(a@), handed(b@)],
        }
    }
}

/// The infos still on a stack, the last of the stack first.
pub open spec fn pending(stack: Seq<Info>) -> Seq<InfoView> {
    Seq::new(stack.len(), |i: int| stack[stack.len() - 1 - i]@)
}

/// The views of handed lines held as pairs.
pub open spec fn pair_views(data: Seq<(Hand, String)>) -> Seq<Handed> {
    Seq::new(data.len(), |i: int| Handed { hand: data[i].0, text: data[i].1@ })
}

/// Takes the next line of a stream.
fn take(iter: &mut Vec<Info>) -> (r: Option<Result<MergeItem, MergeErr>>)
    ensures
        match r {
            Some(Ok(item)) => {
                &&& pending(old(iter)@).len() > 0
                &&& item.lines() == seq![handed(pending(old(iter)@)[0])]
                &&& pending(final(iter)@) == pending(old(iter)@).drop_first()
            },
            Some(Err(_)) => false,
            None => pending(old(iter)@).len() == 0,
        },
{
    match iter.pop() {
        Some(info) => {
            assert(pending(iter@) =~= pending(old(iter)@).drop_first());
            Some(Ok(MergeItem::Single(info)))
        },
        None => None,
    }
}

/// Takes the next line of each stream.
fn take_both(first: &mut Vec<Info>, second: &mut Vec<Info>) -> (r: Option<(Info, Info)>)
    requires
        old(first).len() > 0,
        old(second).len() > 0,
    ensures
        match r {
            Some(pair) => pair.0@ == pending(old(first)@)[0] && pair.1@ == pending(old(second)@)[0],
            None => false,
        },
        pending(final(first)@) == pending(old(first)@).drop_first(),
        pending(final(second)@) == pending(old(second)@).drop_first(),
{
    let a = first.pop();
    let b = second.pop();
    assert(pending(first@) =~= pending(old(first)@).drop_first());
    assert(pending(second@) =~= pending(old(second)@).drop_first());
    match (a, b) {
        (Some(x), Some(y)) => Some((x, y)),
        _ => None,
    }
}

/// Uses up the next line of each stream; the two must agree, and nothing
/// goes out.
fn skip(lhs: &mut Vec<Info>, rhs: &mut Vec<Info>) -> (r: Option<Result<MergeItem, MergeErr>>)
    requires
        old(lhs).len() > 0,
        old(rhs).len() > 0,
    ensures
        pending(final(lhs)@) == pending(old(lhs)@).drop_first(),
        pending(final(rhs)@) == pending(old(rhs)@).drop_first(),
        match r {
            Some(Ok(item)) => {
                &&& payload(pending(old(lhs)@)[0].text) == payload(pending(old(rhs)@)[0].text)
                &&& item.lines() == Seq::<Handed>::empty()
            },
            Some(Err(_)) => payload(pending(old(lhs)@)[0].text) != payload(
                pending(old(rhs)@)[0].text,
            ),
            None => false,
        },
{
    match take_both(lhs, rhs) {
        Some((l, r)) => {
            if same_payload(l.line.as_str(), r.line.as_str()) {
                Some(Ok(MergeItem::Skip))
            } else {
                Some(Err(merge_err("skip: Mismatch between lines '", l.line.as_str(),
                    "' and its match")))
            }
        },
        None => None,
    }
}

/// Uses up the next line of each stream; the two must agree, and the line
/// of `rhs` goes out.
fn skip_take(lhs: &mut Vec<Info>, rhs: &mut Vec<Info>) -> (r: Option<Result<MergeItem, MergeErr>>)
    requires
        old(lhs).len() > 0,
        old(rhs).len() > 0,
    ensures
        pending(final(lhs)@) == pending(old(lhs)@).drop_first(),
        pending(final(rhs)@) == pending(old(rhs)@).drop_first(),
        match r {
            Some(Ok(item)) => {
                &&& payload(pending(old(lhs)@)[0].text) == payload(pending(old(rhs)@)[0].text)
                &&& item.lines() == seq![handed(pending(old(rhs)@)[0])]
            },
            Some(Err(_)) => payload(pending(old(lhs)@)[0].text) != payload(
                pending(old(rhs)@)[0].text,
            ),
            None => false,
        },
{
    match take_both(lhs, rhs) {
        Some((l, r)) => {
            if same_payload(l.line.as_str(), r.line.as_str()) {
                Some(Ok(MergeItem::Single(r)))
            } else {
                Some(
                    Err(
                        merge_err(
                            "skip_take: Mismatch between lines '",
                            l.line.as_str(),
                            "' and its match",
                        ),
                    ),
                )
            }
        },
        None => None,
    }
}

/// Settles two lines of equal rank whose tags are `index`: `liter` holds
/// the line of the left hand, `riter` the line of the right hand.
fn next(
    index: [char; 2],
    liter: &mut Vec<Info>,
    riter: &mut Vec<Info>,
) -> (r: Option<Result<MergeItem, MergeErr>>)
    requires
        old(liter).len() > 0,
        old(riter).len() > 0,
        index[0] == tag_or_space(pending(old(liter)@)[0].text),
        index[1] == tag_or_space(pending(old(riter)@)[0].text),
    ensures
        ({
            let first = pending(old(liter)@)[0];
            let second = pending(old(riter)@)[0];
            match outcome(first, second) {
                Outcome::First => {
                    &&& r is Some
                    &&& r->0 is Ok
                    &&& r->0->Ok_0.lines() == seq![handed(first)]
                    &&& pending(final(liter)@) == pending(old(liter)@).drop_first()
                    &&& pending(final(riter)@) == pending(old(riter)@)
                },
                Outcome::Second => {
                    &&& r is Some
                    &&& r->0 is Ok
                    &&& r->0->Ok_0.lines() == seq![handed(second)]
                    &&& pending(final(liter)@) == pending(old(liter)@)
                    &&& pending(final(riter)@) == pending(old(riter)@).drop_first()
                },
                Outcome::Both(lines) => {
                    &&& r is Some
                    &&& r->0 is Ok
                    &&& r->0->Ok_0.lines() == lines
                    &&& pending(final(liter)@) == pending(old(liter)@).drop_first()
                    &&& pending(final(riter)@) == pending(old(riter)@).drop_first()
                },
                Outcome::Clash => r is Some && r->0 is Err,
            }
        }),
{
    let l = index[0];
    let r = index[1];
    if l == ' ' && r == ' ' {
        skip_take(liter, riter)
    } else if l == '+' && r == ' ' {
        skip_take(riter, liter)
    } else if l == '-' && r == ' ' {
        take(liter)
    } else if l == ' ' && r == '+' {
        take(riter)
    } else if l == '+' && r == '+' {
        take(riter)
    } else if l == '-' && r == '+' {
        match take_both(liter, riter) {
            Some((linfo, rinfo)) => {
                if same_payload(linfo.line.as_str(), rinfo.line.as_str()) {
                    let kept = Info {
                        line: with_tag(rinfo.line.as_str(), ' '),
                        rank: rinfo.rank,
                        hand: rinfo.hand,
                    };
                    Some(Ok(MergeItem::Single(kept)))
                } else {
                    Some(Ok(MergeItem::Pair(linfo, rinfo)))
                }
            },
            None => None,
        }
    } else if l == ' ' && r == '-' {
        skip_take(liter, riter)
    } else if l == '+' && r == '-' {
        skip(liter, riter)
    } else if l == '-' && r == '-' {
        take(liter)
    } else {
        match take_both(liter, riter) {
            Some((linfo, rinfo)) => Some(
                Err(merge_err("Unexpected prefixes on lines '", linfo.line.as_str(),
                    "' and its match")),
            ),
            None => None,
        }
    }
}

fn rank_order(a: usize, b: usize) -> (r: i8)
    ensures
        r == -1 <==> a < b,
        r == 0 <==> a == b,
        r == 1 <==> a > b,
{
    if a < b {
        -1
    } else if a > b {
        1
    } else {
        0
    }
}

/// Walks the two streams and lists what each step hands over.
fn merge_iter(linfo: Vec<Info>, rinfo: Vec<Info>) -> (r: Result<Vec<MergeItem>, MergeErr>)
    ensures
        match merged(info_views(linfo@), info_views(rinfo@)) {
            Some(lines) => r is Ok && flat(r->Ok_0@) == lines,
            None => r is Err,
        },
{
    let ghost goal = merged(info_views(linfo@), info_views(rinfo@));
    let mut liter = reversed(linfo);
    let mut riter = reversed(rinfo);
    let mut out: Vec<MergeItem> = Vec::new();
    proof {
        assert(pending(liter@) =~= info_views(linfo@));
        assert(pending(riter@) =~= info_views(rinfo@));
        if goal is Some {
            assert(flat(out@) + goal.unwrap() =~= goal.unwrap());
        }
    }
    loop
        invariant_except_break
            goal == with_more(flat(out@), merged(pending(liter@), pending(riter@))),
        invariant
            goal == merged(info_views(linfo@), info_views(rinfo@)),
        ensures
            goal == Some(flat(out@)),
        decreases liter.len() + riter.len(),
    {
        let ghost l = pending(liter@);
        let ghost r = pending(riter@);
        let ghost done = flat(out@);
        let ln = liter.len();
        let rn = riter.len();
        proof {
            assert(ln > 0 ==> l[0] == liter[ln - 1]@);
            assert(rn > 0 ==> r[0] == riter[rn - 1]@);
            assert(l.subrange(0, l.len() as int) =~= l);
            assert(r.subrange(0, r.len() as int) =~= r);
            assert(l.len() > 0 ==> l.subrange(1, l.len() as int) =~= l.drop_first());
            assert(r.len() > 0 ==> r.subrange(1, r.len() as int) =~= r.drop_first());
        }
        let item = if ln == 0 && rn == 0 {
            assert(done + Seq::<Handed>::empty() =~= done);
            break ;
        } else if ln == 0 {
            take(&mut riter)
        } else if rn == 0 {
            take(&mut liter)
        } else {
            let order = rank_order(liter[ln - 1].rank, riter[rn - 1].rank);
            let lhand = liter[ln - 1].hand;
            let rhand = riter[rn - 1].hand;
            if order < 0 {
                take(&mut liter)
            } else if order > 0 {
                take(&mut riter)
            } else {
                match (lhand, rhand) {
                    (Hand::Left, Hand::Right) => {
                        let index = [liter[ln - 1].prefix(), riter[rn - 1].prefix()];
                        next(index, &mut liter, &mut riter)
                    },
                    (Hand::Right, Hand::Left) => {
                        let index = [riter[rn - 1].prefix(), liter[ln - 1].prefix()];
                        next(index, &mut riter, &mut liter)
                    },
                    _ => {
                        return Err(merge_err("Conflict between lines '",
                            liter[ln - 1].line.as_str(), "' and its match"));
                    },
                }
            }
        };
        match item {
            Some(Ok(item)) => {
                proof {
                    let more = merged(pending(liter@), pending(riter@));
                    lemma_flat_push(out@, item);
                    if more is Some {
                        assert(done + item.lines() + more.unwrap() =~= done + (item.lines()
                            + more.unwrap()));
                    }
                }
                out.push(item);
            },
            Some(Err(e)) => {
                return Err(e);
            },
            None => {
                return Err(merge_err("merge_iter: no line", "", ""));
            },
        }
    }
    Ok(out)
}

/// The lines a list of items hands over, in order.
pub open spec fn flat(items: Seq<MergeItem>) -> Seq<Handed>
    decreases items.len(),
{
    if items.len() == 0 {
        Seq::empty()
    } else {
        flat(items.drop_last()) + items.last().lines()
    }
}

/// What a list of items hands over with one more item.
pub proof fn lemma_flat_push(items: Seq<MergeItem>, item: MergeItem)
    ensures
        flat(items.push(item)) == flat(items) + item.lines(),
{
    assert(items.push(item).drop_last() =~= items);
}

/// `more` after `lines`, where there is a `more`.
pub open spec fn with_more(lines: Seq<Handed>, more: Option<Seq<Handed>>) -> Option<Seq<Handed>> {
    match more {
        Some(tail) => Some(lines + tail),
        None => None,
    }
}

/// The infos a list of items hands over.
fn flatten(items: Vec<MergeItem>) -> (r: Vec<Info>)
    ensures
        info_lines(r@) == flat(items@),
{
    let ghost all = items@;
    let ghost n = items.len() as int;
    let mut data: Vec<Info> = Vec::new();
    let mut stack = reversed(items);
    let ghost mut k: int = 0;
    proof {
        assert(all.subrange(0, 0) =~= Seq::<MergeItem>::empty());
        assert(info_lines(data@) =~= Seq::<Handed>::empty());
    }
    while stack.len() > 0
        invariant
            n == all.len(),
            0 <= k <= n,
            stack.len() == n - k,
            forall|j: int| 0 <= j < stack.len() ==> #[trigger] stack[j] == all[n - 1 - j],
            info_lines(data@) == flat(all.subrange(0, k)),
        decreases stack.len(),
    {
        let ghost seen = info_lines(data@);
        let item = stack.pop();
        proof {
            assert(all.subrange(0, k + 1).drop_last() =~= all.subrange(0, k));
        }
        match item {
            None => {},
            Some(MergeItem::Skip) => {
                assert(seen + Seq::<Handed>::empty() =~= seen);
            },
            Some(MergeItem::Single(info)) => {
                let ghost line = handed(info@);
                data.push(info);
                assert(info_lines(data@) =~= seen + seq![line]);
            },
            Some(MergeItem::Pair(first, second)) => {
                let ghost one = handed(first@);
                let ghost two = handed(second@);
                data.push(first);
                data.push(second);
                assert(info_lines(data@) =~= seen + seq![one, two]);
            },
        }
        proof {
            k = k + 1;
        }
    }
    proof {
        assert(all.subrange(0, n) =~= all);
    }
    data
}

/// Counts the lines before and after the change. `None` for lines that
/// cannot be counted.
fn count(data: &Vec<Info>) -> (r: Option<(usize, usize)>)
    ensures
        match r {
            Some(c) => {
                &&& countable(texts(info_lines(data@)))
                &&& c.0 == count_before(texts(info_lines(data@)))
                &&& c.1 == count_after(texts(info_lines(data@)))
            },
            None => !countable(texts(info_lines(data@))),
        },
{
    let ghost all = texts(info_lines(data@));
    let mut pre: usize = 0;
    let mut post: usize = 0;
    let mut i: usize = 0;
    assert(all.subrange(0, 0) =~= Seq::<Seq<char>>::empty());
    while i < data.len()
        invariant
            i <= data.len(),
            all == texts(info_lines(data@)),
            countable(all.subrange(0, i as int)),
            pre == count_before(all.subrange(0, i as int)),
            post == count_after(all.subrange(0, i as int)),
        decreases data.len() - i,
    {
        let ghost seen = all.subrange(0, i as int);
        proof {
            assert(all[i as int] == data[i as int].line@);
            lemma_counted_push(seen, all[i as int]);
            assert(seen.push(all[i as int]) =~= all.subrange(0, i + 1));
        }
        match count_sides(data[i].line.as_str(), pre, post) {
            Some(c) => {
                pre = c.0;
                post = c.1;
            },
            None => {
                proof {
                    lemma_uncountable(all.subrange(0, i + 1), all.subrange(i + 1,
                        all.len() as int));
                    assert(all.subrange(0, i + 1) + all.subrange(i + 1, all.len() as int) =~= all);
                }
                return None;
            },
        }
        i = i + 1;
    }
    assert(all.subrange(0, data.len() as int) =~= all);
    Some((pre, post))
}

/// The hands and lines of a list of infos.
fn into_pairs(infos: Vec<Info>) -> (r: Vec<(Hand, String)>)
    ensures
        pair_views(r@) == info_lines(infos@),
{
    let ghost want = info_lines(infos@);
    let mut out: Vec<(Hand, String)> = Vec::new();
    let mut stack = reversed(infos);
    let ghost m = stack.len() as int;
    assert(pair_views(out@) =~= want.subrange(0, 0));
    while stack.len() > 0
        invariant
            want.len() == m,
            stack.len() <= m,
            out.len() == m - stack.len(),
            forall|j: int| 0 <= j < stack.len()
                ==> handed((#[trigger] stack[j])@) == want[m - 1 - j],
            pair_views(out@) == want.subrange(0, out.len() as int),
        decreases stack.len(),
    {
        let ghost before = pair_views(out@);
        match stack.pop() {
            Some(info) => {
                let ghost line = handed(info@);
                out.push(info.data());
                assert(pair_views(out@) =~= before.push(line));
                assert(before.push(line) =~= want.subrange(0, out.len() as int));
            },
            None => {},
        }
    }
    assert(want.subrange(0, m) =~= want);
    out
}

/// Merges the lines of a left and a right hunk, given with their ranks,
/// into the header and the body of one hunk.
pub fn merge_fn(
    lheader: &[usize; 4],
    llines: Vec<Info>,
    rheader: &[usize; 4],
    rlines: Vec<Info>,
) -> (r: Result<([usize; 4], Vec<(Hand, String)>), MergeErr>)
    ensures
        match merge_of(*lheader, info_views(llines@), *rheader, info_views(rlines@)) {
            Some((header, lines)) => {
                &&& r is Ok
                &&& same_header(r->Ok_0.0, header)
                &&& pair_views(r->Ok_0.1@) == lines
            },
            None => r is Err,
        },
{
    let items = match merge_iter(llines, rlines) {
        Ok(items) => items,
        Err(e) => {
            return Err(e);
        },
    };
    let data = flatten(items);
    let (pre, post) = match count(&data) {
        Some(c) => c,
        None => {
            return Err(merge_err("merge_fn: lines cannot be counted", "", ""));
        },
    };
    let header: [usize; 4] = [
        if lheader[0] <= rheader[0] {
            lheader[0]
        } else {
            rheader[0]
        },
        pre,
        if lheader[2] <= rheader[2] {
            lheader[2]
        } else {
            rheader[2]
        },
        post,
    ];
    match sort_data(data) {
        Ok(sorted) => Ok((header, into_pairs(sorted))),
        Err(e) => Err(e),
    }
}

/// The lines of a list of infos, with their hands.
pub open spec fn info_lines(infos: Seq<Info>) -> Seq<Handed> {
    Seq::new(infos.len(), |i: int| handed(infos[i]@))
}

/// Puts lines in the order of the merged body. Fails on a line without a
/// body tag.
fn sort_data(data: Vec<Info>) -> (r: Result<Vec<Info>, MergeErr>)
    ensures
        r is Ok <==> all_body_tags(texts(info_lines(data@))),
        r is Ok ==> info_lines(r->Ok_0@) == arranged(info_lines(data@)),
{
    let ghost lines = info_lines(data@);
    let ghost n = data.len() as int;
    let mut stack = reversed(data);
    let mut done: Vec<Info> = Vec::new();
    let mut removed: Vec<Info> = Vec::new();
    let mut added: Vec<Info> = Vec::new();
    let ghost mut k: int = 0;
    assert(lines.subrange(0, 0) =~= Seq::<Handed>::empty());
    assert(info_lines(done@) =~= Seq::<Handed>::empty());
    assert(info_lines(removed@) =~= Seq::<Handed>::empty());
    assert(info_lines(added@) =~= Seq::<Handed>::empty());
    while stack.len() > 0
        invariant
            lines == info_lines(data@),
            0 <= k <= n,
            n == lines.len(),
            stack.len() == n - k,
            forall|j: int| 0 <= j < stack.len()
                ==> handed((#[trigger] stack[j])@) == lines[n - 1 - j],
            forall|j: int| 0 <= j < k ==> is_body_tag(tag(#[trigger] texts(lines)[j])),
            info_lines(done@) == sorted(lines.subrange(0, k)).done,
            info_lines(removed@) == sorted(lines.subrange(0, k)).removed,
            info_lines(added@) == sorted(lines.subrange(0, k)).added,
        decreases stack.len(),
    {
        let info = match stack.pop() {
            Some(info) => info,
            None => {
                return Err(merge_err("sort: no line", "", ""));
            },
        };
        assert(handed(info@) == lines[k]);
        let ghost prefix = lines.subrange(0, k + 1);
        assert(prefix.drop_last() =~= lines.subrange(0, k));
        assert(prefix.last() == handed(info@));
        assert(texts(lines)[k] == info.line@);
        let t = line_tag(info.line.as_str());
        if t == ' ' {
            let ghost d = info_lines(done@);
            let ghost r = info_lines(removed@);
            let ghost a = info_lines(added@);
            done.append(&mut removed);
            done.append(&mut added);
            done.push(info);
            assert(info_lines(done@) =~= d + r + a + seq![handed(info@)]);
            assert(info_lines(removed@) =~= Seq::<Handed>::empty());
            assert(info_lines(added@) =~= Seq::<Handed>::empty());
        } else if t == '-' {
            let ghost r = info_lines(removed@);
            removed.push(info);
            assert(info_lines(removed@) =~= r.push(handed(info@)));
        } else if t == '+' {
            let ghost a = info_lines(added@);
            added.push(info);
            assert(info_lines(added@) =~= a.push(handed(info@)));
        } else {
            assert(!is_body_tag(tag(texts(lines)[k])));
            return Err(merge_err("Unexpected line prefix in '", info.line.as_str(), "'"));
        }
        proof {
            k = k + 1;
        }
    }
    assert(lines.subrange(0, n) =~= lines);
    let ghost d = info_lines(done@);
    let ghost r = info_lines(removed@);
    let ghost a = info_lines(added@);
    done.append(&mut removed);
    done.append(&mut added);
    assert(info_lines(done@) =~= d + r + a);
    Ok(done)
}

} // verus!
