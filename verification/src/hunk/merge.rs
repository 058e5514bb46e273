//! Merges the bodies of a left and a right hunk, each read from its own
//! side.

use crate::error::{MergeErr, merge_err};
use crate::fuse::kernel::{arrange, sort};
use crate::fuse::line::LineView;
use crate::hunk::header::least;
use crate::hunk::iter_info::{Info, InfoType, info_views, iter_info, ranked_by};
use crate::info::tag_or_space;
use crate::tags::{
    count_after, count_before, count_sides, countable, lemma_counted_push, lemma_uncountable,
    payload, same_payload, with_tag,
};
use crate::text::{reversed, views};
use vstd::prelude::*;

verus! {

/// What becomes of the first lines of the two streams.
pub enum Choice {
    /// The left line goes out; the right line waits.
    Left,
    /// The right line goes out; the left line waits.
    Right,
    /// Both lines are used up and these go out.
    Both(Seq<Seq<char>>),
    /// The two lines contradict each other.
    Clash,
}

/// The rule for the first lines of the two streams, by their tags and
/// their ranks. As a rule the line of lower rank goes out; lines of
/// equal rank are settled by their tags. A line taken out on the left and
/// put back on the right stays as context.
pub open spec fn choice(l: LineView, r: LineView) -> Choice {
    let lp = tag_or_space(l.text);
    let rp = tag_or_space(r.text);
    let less = l.rank < r.rank;
    let greater = l.rank > r.rank;
    let same = payload(l.text) == payload(r.text);
    if (lp == '+' || lp == ' ') && rp == '+' {
        if less {
            Choice::Left
        } else {
            Choice::Right
        }
    } else if lp == '-' && (rp == ' ' || rp == '-') {
        if greater {
            Choice::Right
        } else {
            Choice::Left
        }
    } else if lp == '-' && rp == '+' {
        if less {
            Choice::Left
        } else if greater {
            Choice::Right
        } else if same {
            Choice::Both(seq![seq![' '] + payload(r.text)])
        } else {
            Choice::Both(seq![l.text, r.text])
        }
    } else if lp == '+' && rp == '-' {
        if less {
            Choice::Left
        } else if greater {
            Choice::Right
        } else if same {
            Choice::Both(Seq::empty())
        } else {
            Choice::Clash
        }
    } else if lp == '+' && rp == ' ' {
        if less {
            Choice::Left
        } else if greater {
            Choice::Right
        } else if same {
            Choice::Both(seq![l.text])
        } else {
            Choice::Clash
        }
    } else if lp == ' ' && rp == ' ' {
        if less {
            Choice::Left
        } else if greater {
            Choice::Right
        } else if same {
            Choice::Both(seq![r.text])
        } else {
            Choice::Clash
        }
    } else if lp == ' ' && rp == '-' {
        if less || greater {
            Choice::Left
        } else if same {
            Choice::Both(seq![r.text])
        } else {
            Choice::Clash
        }
    } else {
        Choice::Clash
    }
}

/// The lines that go out, in the order in which they do: a stream that is
/// alone is drained, and two first lines are settled by `choice`. `None`
/// where two lines contradict each other.
pub open spec fn merged(l: Seq<LineView>, r: Seq<LineView>) -> Option<Seq<Seq<char>>>
    decreases l.len() + r.len(),
{
    if l.len() == 0 && r.len() == 0 {
        Some(Seq::empty())
    } else if l.len() == 0 {
        with_more(seq![r[0].text], merged(l, r.drop_first()))
    } else if r.len() == 0 {
        with_more(seq![l[0].text], merged(l.drop_first(), r))
    } else {
        match choice(l[0], r[0]) {
            Choice::Left => with_more(seq![l[0].text], merged(l.drop_first(), r)),
            Choice::Right => with_more(seq![r[0].text], merged(l, r.drop_first())),
            Choice::Both(lines) => with_more(lines, merged(l.drop_first(), r.drop_first())),
            Choice::Clash => None,
        }
    }
}

/// `more` after `lines`, where there is a `more`.
pub open spec fn with_more(
    lines: Seq<Seq<char>>,
    more: Option<Seq<Seq<char>>>,
) -> Option<Seq<Seq<char>>> {
    match more {
        Some(tail) => Some(lines + tail),
        None => None,
    }
}

/// Header and body that the lines that went out make, given the two
/// starts: the header counts the lines, and the body lists them group by
/// group. `None` for lines that cannot be counted.
pub open spec fn headed(
    before: int,
    after: int,
    lines: Seq<Seq<char>>,
) -> Option<(Seq<int>, Seq<Seq<char>>)> {
    if countable(lines) {
        Some((seq![before, count_before(lines), after, count_after(lines)], arrange(lines)))
    } else {
        None
    }
}

/// Header and body that the lines that went out make under two headers:
/// the header starts where the earlier of the two starts.
pub open spec fn assembled(
    lheader: [usize; 4],
    rheader: [usize; 4],
    lines: Seq<Seq<char>>,
) -> Option<(Seq<int>, Seq<Seq<char>>)> {
    headed(
        least(lheader[0] as int, rheader[0] as int),
        least(lheader[2] as int, rheader[2] as int),
        lines,
    )
}

/// Header and body of the merge of a left and a right hunk, given their
/// headers and bodies.
pub open spec fn merge_of(
    lheader: [usize; 4],
    llines: Seq<Seq<char>>,
    rheader: [usize; 4],
    rlines: Seq<Seq<char>>,
) -> Option<(Seq<int>, Seq<Seq<char>>)> {
    match merged(
        ranked_by(lheader, llines, InfoType::Minus()),
        ranked_by(rheader, rlines, InfoType::Plus()),
    ) {
        Some(lines) => assembled(lheader, rheader, lines),
        None => None,
    }
}

/// What a step of the merge hands over.
pub enum MergeItem {
    Skip,
    Single(String),
    Pair(String, String),
}

impl MergeItem {
    /// The lines handed over, in order.
    pub open spec fn lines(&self) -> Seq<Seq<char>> {
        match self {
            MergeItem::Skip => Seq::empty(),
            MergeItem::Single(a) => seq![a@],
            MergeItem::Pair(a, b) => seq![a@, b@],
        }
    }
}

/// The lines a list of items hands over, in order.
pub open spec fn flat(items: Seq<MergeItem>) -> Seq<Seq<char>>
    decreases items.len(),
{
    if items.len() == 0 {
        Seq::empty()
    } else {
        flat(items.drop_last()) + items.last().lines()
    }
}

/// The infos still on a stack, the last of the stack first.
pub open spec fn pending(stack: Seq<Info>) -> Seq<LineView> {
    Seq::new(stack.len(), |i: int| stack[stack.len() - 1 - i]@)
}

/// Takes the next line of a stream.
fn take(iter: &mut Vec<Info>) -> (r: Option<Result<MergeItem, MergeErr>>)
    ensures
        match r {
            Some(Ok(item)) => {
                &&& pending(old(iter)@).len() > 0
                &&& item.lines() == seq![pending(old(iter)@)[0].text]
                &&& pending(final(iter)@) == pending(old(iter)@).drop_first()
            },
            Some(Err(_)) => false,
            None => pending(old(iter)@).len() == 0,
        },
{
    match iter.pop() {
        Some(info) => {
            assert(pending(iter@) =~= pending(old(iter)@).drop_first());
            Some(Ok(MergeItem::Single(info.line)))
        },
        None => None,
    }
}

/// Takes the next line of each stream.
fn take_both(first: &mut Vec<Info>, second: &mut Vec<Info>) -> (r: Option<(String, String)>)
    requires
        old(first).len() > 0,
        old(second).len() > 0,
    ensures
        match r {
            Some(pair) => {
                &&& pair.0@ == pending(old(first)@)[0].text
                &&& pair.1@ == pending(old(second)@)[0].text
            },
            None => false,
        },
        pending(final(first)@) == pending(old(first)@).drop_first(),
        pending(final(second)@) == pending(old(second)@).drop_first(),
{
    let a = first.pop();
    let b = second.pop();
    assert(pending(first@) =~= pending(old(first)@).drop_first());
    assert(pending(second@) =~= pending(old(second)@).drop_first());
    match (a, b) {
        (Some(x), Some(y)) => Some((x.line, y.line)),
        _ => None,
    }
}

/// Uses up the next line of each stream; the two must agree, and nothing
/// goes out.
fn skip(lhs: &mut Vec<Info>, rhs: &mut Vec<Info>) -> (r: Option<Result<MergeItem, MergeErr>>)
    requires
        old(lhs).len() > 0,
        old(rhs).len() > 0,
    ensures
        pending(final(lhs)@) == pending(old(lhs)@).drop_first(),
        pending(final(rhs)@) == pending(old(rhs)@).drop_first(),
        match r {
            Some(Ok(item)) => {
                &&& payload(pending(old(lhs)@)[0].text) == payload(pending(old(rhs)@)[0].text)
                &&& item.lines() == Seq::<Seq<char>>::empty()
            },
            Some(Err(_)) => payload(pending(old(lhs)@)[0].text) != payload(
                pending(old(rhs)@)[0].text,
            ),
            None => false,
        },
{
    match take_both(lhs, rhs) {
        Some((l, r)) => {
            if same_payload(l.as_str(), r.as_str()) {
                Some(Ok(MergeItem::Skip))
            } else {
                Some(Err(merge_err("Mismatch between lines '", l.as_str(), "' and its match")))
            }
        },
        None => None,
    }
}

/// Uses up the next line of each stream; the two must agree, and the line
/// of `rhs` goes out.
fn skip_take(lhs: &mut Vec<Info>, rhs: &mut Vec<Info>) -> (r: Option<Result<MergeItem, MergeErr>>)
    requires
        old(lhs).len() > 0,
        old(rhs).len() > 0,
    ensures
        pending(final(lhs)@) == pending(old(lhs)@).drop_first(),
        pending(final(rhs)@) == pending(old(rhs)@).drop_first(),
        match r {
            Some(Ok(item)) => {
                &&& payload(pending(old(lhs)@)[0].text) == payload(pending(old(rhs)@)[0].text)
                &&& item.lines() == seq![pending(old(rhs)@)[0].text]
            },
            Some(Err(_)) => payload(pending(old(lhs)@)[0].text) != payload(
                pending(old(rhs)@)[0].text,
            ),
            None => false,
        },
{
    match take_both(lhs, rhs) {
        Some((l, r)) => {
            if same_payload(l.as_str(), r.as_str()) {
                Some(Ok(MergeItem::Single(r)))
            } else {
                Some(Err(merge_err("Mismatch between lines '", l.as_str(), "' and its match")))
            }
        },
        None => None,
    }
}

/// How the ranks of two lines compare: -1, 0 or 1.
fn rank_order(a: usize, b: usize) -> (r: i8)
    ensures
        r == -1 <==> a < b,
        r == 0 <==> a == b,
        r == 1 <==> a > b,
{
    if a < b {
        -1
    } else if a > b {
        1
    } else {
        0
    }
}

/// Settles the first lines of the two streams, whose tags and order of
/// rank are given.
fn next(
    index: (char, char, i8),
    liter: &mut Vec<Info>,
    riter: &mut Vec<Info>,
) -> (r: Option<Result<MergeItem, MergeErr>>)
    requires
        old(liter).len() > 0,
        old(riter).len() > 0,
        index.0 == tag_or_space(pending(old(liter)@)[0].text),
        index.1 == tag_or_space(pending(old(riter)@)[0].text),
        index.2 == -1 <==> pending(old(liter)@)[0].rank < pending(old(riter)@)[0].rank,
        index.2 == 1 <==> pending(old(liter)@)[0].rank > pending(old(riter)@)[0].rank,
    ensures
        ({
            let first = pending(old(liter)@)[0];
            let second = pending(old(riter)@)[0];
            match choice(first, second) {
                Choice::Left => {
                    &&& r is Some
                    &&& r->0 is Ok
                    &&& r->0->Ok_0.lines() == seq![first.text]
                    &&& pending(final(liter)@) == pending(old(liter)@).drop_first()
                    &&& pending(final(riter)@) == pending(old(riter)@)
                },
                Choice::Right => {
                    &&& r is Some
                    &&& r->0 is Ok
                    &&& r->0->Ok_0.lines() == seq![second.text]
                    &&& pending(final(liter)@) == pending(old(liter)@)
                    &&& pending(final(riter)@) == pending(old(riter)@).drop_first()
                },
                Choice::Both(lines) => {
                    &&& r is Some
                    &&& r->0 is Ok
                    &&& r->0->Ok_0.lines() == lines
                    &&& pending(final(liter)@) == pending(old(liter)@).drop_first()
                    &&& pending(final(riter)@) == pending(old(riter)@).drop_first()
                },
                Choice::Clash => r is Some && r->0 is Err,
            }
        }),
{
    let lp = index.0;
    let rp = index.1;
    let less = index.2 == -1;
    let greater = index.2 == 1;
    if (lp == '+' || lp == ' ') && rp == '+' {
        if less {
            take(liter)
        } else {
            take(riter)
        }
    } else if lp == '-' && (rp == ' ' || rp == '-') {
        if greater {
            take(riter)
        } else {
            take(liter)
        }
    } else if lp == '-' && rp == '+' {
        if less {
            take(liter)
        } else if greater {
            take(riter)
        } else {
            match take_both(liter, riter) {
                Some((lline, rline)) => {
                    if same_payload(lline.as_str(), rline.as_str()) {
                        Some(Ok(MergeItem::Single(with_tag(rline.as_str(), ' '))))
                    } else {
                        Some(Ok(MergeItem::Pair(lline, rline)))
                    }
                },
                None => None,
            }
        }
    } else if lp == '+' && rp == '-' {
        if less {
            take(liter)
        } else if greater {
            take(riter)
        } else {
            skip(liter, riter)
        }
    } else if lp == '+' && rp == ' ' {
        if less {
            take(liter)
        } else if greater {
            take(riter)
        } else {
            skip_take(riter, liter)
        }
    } else if lp == ' ' && rp == ' ' {
        if less {
            take(liter)
        } else if greater {
            take(riter)
        } else {
            skip_take(liter, riter)
        }
    } else if lp == ' ' && rp == '-' {
        if less || greater {
            take(liter)
        } else {
            skip_take(liter, riter)
        }
    } else {
        match take_both(liter, riter) {
            Some((lline, rline)) => Some(
                Err(merge_err("Unexpected prefixes on lines '", lline.as_str(), "' and its match")),
            ),
            None => None,
        }
    }
}

/// What a list of items hands over with one more item.
pub proof fn lemma_flat_push(items: Seq<MergeItem>, item: MergeItem)
    ensures
        flat(items.push(item)) == flat(items) + item.lines(),
{
    assert(items.push(item).drop_last() =~= items);
}

/// Walks the two bodies, each read from its side, and lists what each
/// step hands over.
fn merge_iter(
    lheader: &[usize; 4],
    llines: Vec<String>,
    rheader: &[usize; 4],
    rlines: Vec<String>,
) -> (r: Result<Vec<MergeItem>, MergeErr>)
    requires
        lheader[2] + llines.len() <= usize::MAX,
        rheader[0] + rlines.len() <= usize::MAX,
    ensures
        match merged(
            ranked_by(*lheader, views(llines@), InfoType::Minus()),
            ranked_by(*rheader, views(rlines@), InfoType::Plus()),
        ) {
            Some(lines) => r is Ok && flat(r->Ok_0@) == lines,
            None => r is Err,
        },
{
    let ghost goal = merged(
        ranked_by(*lheader, views(llines@), InfoType::Minus()),
        ranked_by(*rheader, views(rlines@), InfoType::Plus()),
    );
    let linfo = iter_info(lheader, llines, InfoType::Minus());
    let rinfo = iter_info(rheader, rlines, InfoType::Plus());
    let ghost l0 = info_views(linfo@);
    let ghost r0 = info_views(rinfo@);
    let mut liter = reversed(linfo);
    let mut riter = reversed(rinfo);
    let mut out: Vec<MergeItem> = Vec::new();
    proof {
        assert(pending(liter@) =~= l0);
        assert(pending(riter@) =~= r0);
        if goal is Some {
            assert(flat(out@) + goal.unwrap() =~= goal.unwrap());
        }
    }
    loop
        invariant_except_break
            goal == with_more(flat(out@), merged(pending(liter@), pending(riter@))),
        invariant
            goal == merged(
                ranked_by(*lheader, views(llines@), InfoType::Minus()),
                ranked_by(*rheader, views(rlines@), InfoType::Plus()),
            ),
        ensures
            goal == Some(flat(out@)),
        decreases liter.len() + riter.len(),
    {
        let ghost l = pending(liter@);
        let ghost r = pending(riter@);
        let ghost done = flat(out@);
        let ln = liter.len();
        let rn = riter.len();
        proof {
            assert(ln > 0 ==> l[0] == liter[ln - 1]@);
            assert(rn > 0 ==> r[0] == riter[rn - 1]@);
        }
        let item = if ln == 0 && rn == 0 {
            assert(done + Seq::<Seq<char>>::empty() =~= done);
            break ;
        } else if ln == 0 {
            take(&mut riter)
        } else if rn == 0 {
            take(&mut liter)
        } else {
            let index = (
                liter[ln - 1].prefix(),
                riter[rn - 1].prefix(),
                rank_order(liter[ln - 1].rank, riter[rn - 1].rank),
            );
            next(index, &mut liter, &mut riter)
        };
        match item {
            Some(Ok(item)) => {
                proof {
                    let more = merged(pending(liter@), pending(riter@));
                    lemma_flat_push(out@, item);
                    if more is Some {
                        assert(done + item.lines() + more.unwrap() =~= done + (item.lines()
                            + more.unwrap()));
                    }
                }
                out.push(item);
            },
            Some(Err(e)) => {
                return Err(e);
            },
            None => {
                return Err(merge_err("Merge conflict detected", "", ""));
            },
        }
    }
    Ok(out)
}

/// The lines a list of items hands over.
fn flatten(items: Vec<MergeItem>) -> (r: Vec<String>)
    ensures
        views(r@) == flat(items@),
{
    let ghost all = items@;
    let ghost n = items.len() as int;
    let mut data: Vec<String> = Vec::new();
    let mut stack = reversed(items);
    let ghost mut k: int = 0;
    proof {
        assert(all.subrange(0, 0) =~= Seq::<MergeItem>::empty());
        assert(views(data@) =~= Seq::<Seq<char>>::empty());
    }
    while stack.len() > 0
        invariant
            n == all.len(),
            0 <= k <= n,
            stack.len() == n - k,
            forall|j: int| 0 <= j < stack.len() ==> #[trigger] stack[j] == all[n - 1 - j],
            views(data@) == flat(all.subrange(0, k)),
        decreases stack.len(),
    {
        let ghost seen = views(data@);
        let item = stack.pop();
        proof {
            assert(all.subrange(0, k + 1).drop_last() =~= all.subrange(0, k));
        }
        match item {
            None => {},
            Some(MergeItem::Skip) => {
                assert(seen + Seq::<Seq<char>>::empty() =~= seen);
            },
            Some(MergeItem::Single(line)) => {
                data.push(line);
                assert(views(data@) =~= seen + seq![line@]);
            },
            Some(MergeItem::Pair(first, second)) => {
                data.push(first);
                data.push(second);
                assert(views(data@) =~= seen + seq![first@, second@]);
            },
        }
        proof {
            k = k + 1;
        }
    }
    proof {
        assert(all.subrange(0, n) =~= all);
    }
    data
}

/// Counts the lines that went out, heads them and puts them in order.
pub fn finish(
    before: usize,
    after: usize,
    lines: Vec<String>,
) -> (r: Result<([usize; 4], Vec<String>), MergeErr>)
    ensures
        match headed(before as int, after as int, views(lines@)) {
            Some((header, body)) => {
                &&& r is Ok
                &&& same_header(r->Ok_0.0, header)
                &&& views(r->Ok_0.1@) == body
            },
            None => r is Err,
        },
{
    let ghost all = views(lines@);
    let mut pre: usize = 0;
    let mut post: usize = 0;
    let mut i: usize = 0;
    assert(all.subrange(0, 0) =~= Seq::<Seq<char>>::empty());
    while i < lines.len()
        invariant
            i <= lines.len(),
            all == views(lines@),
            countable(all.subrange(0, i as int)),
            pre == count_before(all.subrange(0, i as int)),
            post == count_after(all.subrange(0, i as int)),
        decreases lines.len() - i,
    {
        let ghost seen = all.subrange(0, i as int);
        proof {
            lemma_counted_push(seen, all[i as int]);
            assert(seen.push(all[i as int]) =~= all.subrange(0, i + 1));
        }
        match count_sides(lines[i].as_str(), pre, post) {
            Some(c) => {
                pre = c.0;
                post = c.1;
            },
            None => {
                proof {
                    lemma_uncountable(all.subrange(0, i + 1), all.subrange(i + 1,
                        all.len() as int));
                    assert(all.subrange(0, i + 1) + all.subrange(i + 1, all.len() as int) =~= all);
                }
                return Err(merge_err("Cannot count line '", lines[i].as_str(), "'"));
            },
        }
        i = i + 1;
    }
    assert(all.subrange(0, lines.len() as int) =~= all);
    let header: [usize; 4] = [before, pre, after, post];
    match sort_lines(lines) {
        Ok(body) => Ok((header, body)),
        Err(e) => Err(e),
    }
}

/// Counts the lines handed over, then orders them and heads them.
pub fn assemble(
    lheader: &[usize; 4],
    rheader: &[usize; 4],
    items: Vec<MergeItem>,
) -> (r: Result<([usize; 4], Vec<String>), MergeErr>)
    ensures
        match assembled(*lheader, *rheader, flat(items@)) {
            Some((header, lines)) => {
                &&& r is Ok
                &&& same_header(r->Ok_0.0, header)
                &&& views(r->Ok_0.1@) == lines
            },
            None => r is Err,
        },
{
    let before = if lheader[0] <= rheader[0] {
        lheader[0]
    } else {
        rheader[0]
    };
    let after = if lheader[2] <= rheader[2] {
        lheader[2]
    } else {
        rheader[2]
    };
    finish(before, after, flatten(items))
}

/// Whether a header holds the four given numbers.
pub open spec fn same_header(header: [usize; 4], numbers: Seq<int>) -> bool {
    &&& numbers.len() == 4
    &&& header[0] == numbers[0]
    &&& header[1] == numbers[1]
    &&& header[2] == numbers[2]
    &&& header[3] == numbers[3]
}

/// Puts lines in the order of the merged body. Fails on a line without a
/// body tag.
fn sort_lines(lines: Vec<String>) -> (r: Result<Vec<String>, MergeErr>)
    ensures
        r is Ok <==> crate::tags::all_body_tags(views(lines@)),
        r is Ok ==> views(r->Ok_0@) == arrange(views(lines@)),
{
    sort(lines)
}

/// Merges the bodies of a left and a right hunk into the header and the
/// body of one hunk.
pub fn merge(
    lheader: &[usize; 4],
    llines: Vec<String>,
    rheader: &[usize; 4],
    rlines: Vec<String>,
) -> (r: Result<([usize; 4], Vec<String>), MergeErr>)
    requires
        lheader[2] + llines.len() <= usize::MAX,
        rheader[0] + rlines.len() <= usize::MAX,
    ensures
        match merge_of(*lheader, views(llines@), *rheader, views(rlines@)) {
            Some((header, lines)) => {
                &&& r is Ok
                &&& same_header(r->Ok_0.0, header)
                &&& views(r->Ok_0.1@) == lines
            },
            None => r is Err,
        },
{
    match merge_iter(lheader, llines, rheader, rlines) {
        Ok(items) => assemble(lheader, rheader, items),
        Err(e) => Err(e),
    }
}

} // verus!
