//! Walks the hunks that two diffs hold for one file and merges those that
//! overlap.
//!
//! A hunk that overlaps none on the other side goes out as it is. Two
//! hunks that overlap are merged, together with the hunks after each that
//! overlap the first hunk of the other side.

use crate::error::{MergeErr, merge_err};
use crate::fuse::fuse_iter::{followed, hunk_views, key};
use crate::fuse::info_chain::{all_wf, waiting};
use crate::fuse::kernel::lemma_arrange_counts;
use crate::hand::Hand;
use crate::hunk::{Hunk, HunkView, header_nums, of_hand, ranks_in_reach};
use crate::hunk::header::{Header, Quad, header_text, overlap, quad_wf};
use crate::info::{Info, InfoView, info_views, ranked_infos};
use crate::merge::{strip, to_header};
use crate::merge::merge_fn::{lemma_arranged_texts, merge_fn, merge_of, texts};
use crate::text::reversed;
use core::cmp::Ordering;
use vstd::prelude::*;

verus! {

/// How many hunks at the start of `hunks` overlap the header `other`.
pub open spec fn joined_len(hunks: Seq<HunkView>, other: Quad) -> int
    decreases hunks.len(),
{
    if hunks.len() > 0 && overlap(hunks[0].header, other) {
        1 + joined_len(hunks.drop_first(), other)
    } else {
        0
    }
}

/// The lines of the first `k` hunks with their ranks, each hunk ranked
/// under its own header, all read as lines of `hand`.
pub open spec fn cluster_infos(hand: Hand, hunks: Seq<HunkView>, k: int) -> Seq<InfoView>
    decreases k,
{
    if k <= 0 {
        Seq::empty()
    } else {
        cluster_infos(hand, hunks, k - 1) + ranked_infos(
            header_nums(hunks[k - 1].header),
            of_hand(hand, hunks[k - 1].body()),
        )
    }
}

/// Whether the numbers of the first `k` hunks can be held without sign.
pub open spec fn all_in_reach(hunks: Seq<HunkView>, k: int) -> bool {
    forall|i: int| 0 <= i < k ==> ranks_in_reach(#[trigger] hunks[i])
}

/// The hunk four numbers and the lines of a body make.
pub open spec fn built(header: Seq<int>, body: Seq<Seq<char>>) -> HunkView {
    let q = Quad { a: header[0], b: header[1], c: header[2], d: header[3] };
    HunkView { header: q, lines: seq![header_text(q)] + body }
}

/// A merged cluster: the hunk it gives and the number of hunks it takes
/// from each side.
pub struct Cluster {
    pub hunk: HunkView,
    pub left: int,
    pub right: int,
}

/// The merge of the cluster at the start of `l` and `r`: the first hunk of
/// each side, and after it the hunks that overlap the first hunk of the
/// other side. `None` where a side is empty, where a number cannot be
/// held, where the lines do not merge, and where the header that results
/// is not valid.
#[verifier::opaque]
pub open spec fn merged_cluster(l: Seq<HunkView>, r: Seq<HunkView>) -> Option<Cluster> {
    if l.len() == 0 || r.len() == 0 {
        None
    } else {
        let nl = 1 + joined_len(l.drop_first(), r[0].header);
        let nr = 1 + joined_len(r.drop_first(), l[0].header);
        if all_in_reach(l, nl) && all_in_reach(r, nr) {
            match merge_of(
                header_nums(l[0].header),
                cluster_infos(Hand::Left, l, nl),
                header_nums(r[0].header),
                cluster_infos(Hand::Right, r, nr),
            ) {
                Some((header, lines)) => if quad_wf(built(header, texts(lines)).header) {
                    Some(Cluster { hunk: built(header, texts(lines)), left: nl, right: nr })
                } else {
                    None
                },
                None => None,
            }
        } else {
            None
        }
    }
}

/// A cluster takes at least one hunk from each side, and no more than
/// there are.
pub proof fn lemma_cluster(l: Seq<HunkView>, r: Seq<HunkView>)
    ensures
        match merged_cluster(l, r) {
            Some(c) => 1 <= c.left <= l.len() && 1 <= c.right <= r.len(),
            None => true,
        },
{
    reveal(merged_cluster);
    if l.len() > 0 && r.len() > 0 {
        lemma_joined_len(l.drop_first(), r[0].header);
        lemma_joined_len(r.drop_first(), l[0].header);
    }
}

/// No more hunks join than there are.
pub proof fn lemma_joined_len(hunks: Seq<HunkView>, other: Quad)
    ensures
        0 <= joined_len(hunks, other) <= hunks.len(),
    decreases hunks.len(),
{
    if hunks.len() > 0 && overlap(hunks[0].header, other) {
        lemma_joined_len(hunks.drop_first(), other);
    }
}

/// The hunks of the merged diff, given the hunks `l` and `r` the two diffs
/// still hold. Where one side is empty the other goes out as it is. Of
/// two first hunks that do not overlap the one that sorts first goes out,
/// the right one if neither does. Two first hunks that overlap go out
/// merged, with all that join them. `None` where a merge fails.
pub open spec fn merge_hunks(l: Seq<HunkView>, r: Seq<HunkView>) -> Option<Seq<HunkView>>
    decreases l.len() + r.len(),
{
    if l.len() == 0 && r.len() == 0 {
        Some(Seq::empty())
    } else if l.len() == 0 {
        followed(r[0], merge_hunks(l, r.drop_first()))
    } else if r.len() == 0 {
        followed(l[0], merge_hunks(l.drop_first(), r))
    } else if !overlap(l[0].header, r[0].header) {
        if key(l[0]) < key(r[0]) {
            followed(l[0], merge_hunks(l.drop_first(), r))
        } else {
            followed(r[0], merge_hunks(l, r.drop_first()))
        }
    } else {
        match merged_cluster(l, r) {
            None => None,
            Some(c) => {
                proof {
                    lemma_cluster(l, r);
                }
                followed(
                    c.hunk,
                    merge_hunks(
                        l.subrange(c.left, l.len() as int),
                        r.subrange(c.right, r.len() as int),
                    ),
                )
            },
        }
    }
}

/// The infos of the hunks that make one side of a cluster: the hunk
/// `first`, then the hunks taken from `iter` as long as the next one
/// overlaps `other`. `None` where a number cannot be held.
fn gather(first: Hunk, iter: &mut Vec<Hunk>, other: &Header, hand: Hand) -> (r: Option<Vec<Info>>)
    requires
        first.wf(),
        all_wf(old(iter)@),
    ensures
        all_wf(final(iter)@),
        ({
            let hunks = seq![first@] + waiting(old(iter)@);
            let n = 1 + joined_len(waiting(old(iter)@), other.quad());
            match r {
                Some(infos) => {
                    &&& all_in_reach(hunks, n)
                    &&& info_views(infos@) == cluster_infos(hand, hunks, n)
                    &&& waiting(final(iter)@) == hunks.subrange(n, hunks.len() as int)
                },
                None => !all_in_reach(hunks, n),
            }
        }),
{
    let ghost rest = waiting(iter@);
    let ghost hunks = seq![first@] + rest;
    let ghost n = 1 + joined_len(rest, other.quad());
    proof {
        lemma_joined_len(rest, other.quad());
        assert(hunks[0] == first@);
    }
    let mut infos = match first.into_info(hand) {
        Some(found) => found.1,
        None => {
            return None;
        },
    };
    let ghost mut k: int = 1;
    proof {
        assert(cluster_infos(hand, hunks, 0) + info_views(infos@) =~= info_views(infos@));
        assert(hunks.subrange(1, hunks.len() as int) =~= rest);
    }
    loop
        invariant_except_break
            1 <= k <= n,
            n == k + joined_len(waiting(iter@), other.quad()),
        invariant
            hunks == seq![first@] + waiting(old(iter)@),
            n == 1 + joined_len(waiting(old(iter)@), other.quad()),
            n <= hunks.len(),
            all_wf(iter@),
            1 <= k <= n,
            waiting(iter@) == hunks.subrange(k, hunks.len() as int),
            all_in_reach(hunks, k),
            info_views(infos@) == cluster_infos(hand, hunks, k),
        ensures
            k == n,
        decreases iter.len(),
    {
        let m = iter.len();
        let ghost held = waiting(iter@);
        if m == 0 {
            break ;
        }
        assert(held[0] == iter[m - 1]@);
        assert(held[0] == hunks[k]);
        if !iter[m - 1].header().overlaps(other) {
            break ;
        }
        proof {
            lemma_joined_len(held.drop_first(), other.quad());
            assert(joined_len(held, other.quad()) == 1 + joined_len(
                held.drop_first(),
                other.quad(),
            ));
        }
        let hunk = match iter.pop() {
            Some(hunk) => hunk,
            None => {
                return None;
            },
        };
        proof {
            assert(waiting(iter@) =~= held.drop_first());
            assert(held.drop_first() =~= hunks.subrange(k + 1, hunks.len() as int));
        }
        let ghost seen = info_views(infos@);
        match hunk.into_info(hand) {
            Some(found) => {
                let mut more = found.1;
                let ghost added = info_views(more@);
                infos.append(&mut more);
                assert(info_views(infos@) =~= seen + added);
            },
            None => {
                assert(!ranks_in_reach(hunks[k]));
                return None;
            },
        }
        proof {
            k = k + 1;
        }
    }
    Some(infos)
}

/// Merges the cluster that starts with the last hunk of each stack, and
/// takes its hunks off the stacks.
pub fn merge_overlapping(
    liter: &mut Vec<Hunk>,
    riter: &mut Vec<Hunk>,
) -> (r: Result<Hunk, MergeErr>)
    requires
        all_wf(old(liter)@),
        all_wf(old(riter)@),
    ensures
        all_wf(final(liter)@),
        all_wf(final(riter)@),
        ({
            let l = waiting(old(liter)@);
            let r0 = waiting(old(riter)@);
            match merged_cluster(l, r0) {
                Some(c) => {
                    &&& r is Ok
                    &&& r->Ok_0@ == c.hunk
                    &&& r->Ok_0.wf()
                    &&& waiting(final(liter)@) == l.subrange(c.left, l.len() as int)
                    &&& waiting(final(riter)@) == r0.subrange(c.right, r0.len() as int)
                },
                None => r is Err,
            }
        }),
{
    reveal(merged_cluster);
    let ghost l = waiting(liter@);
    let ghost r0 = waiting(riter@);
    let ln = liter.len();
    let rn = riter.len();
    proof {
        assert(ln > 0 ==> l[0] == liter[ln - 1]@);
        assert(rn > 0 ==> r0[0] == riter[rn - 1]@);
    }
    let first = match liter.pop() {
        Some(hunk) => hunk,
        None => {
            return Err(merge_err("Expected hunk in left iterator", "", ""));
        },
    };
    let second = match riter.pop() {
        Some(hunk) => hunk,
        None => {
            return Err(merge_err("Expected hunk in right iterator", "", ""));
        },
    };
    proof {
        assert(waiting(liter@) =~= l.drop_first());
        assert(waiting(riter@) =~= r0.drop_first());
        assert(seq![first@] + l.drop_first() =~= l);
        assert(seq![second@] + r0.drop_first() =~= r0);
    }
    let lheader = *first.header();
    let rheader = *second.header();
    let left = match gather(first, liter, &rheader, Hand::Left) {
        Some(infos) => infos,
        None => {
            return Err(merge_err("Hunk out of range", "", ""));
        },
    };
    let right = match gather(second, riter, &lheader, Hand::Right) {
        Some(infos) => infos,
        None => {
            return Err(merge_err("Hunk out of range", "", ""));
        },
    };
    proof {
        lemma_joined_len(l.drop_first(), r0[0].header);
        lemma_joined_len(r0.drop_first(), l[0].header);
        assert(ranks_in_reach(l[0]) && ranks_in_reach(r0[0]));
        crate::tags::lemma_two_tags(l[0].body(), '-', ' ', l[0].body().len() as int);
        crate::tags::lemma_two_tags(l[0].body(), '+', ' ', l[0].body().len() as int);
        crate::tags::lemma_two_tags(r0[0].body(), '-', ' ', r0[0].body().len() as int);
        crate::tags::lemma_two_tags(r0[0].body(), '+', ' ', r0[0].body().len() as int);
    }
    let lnums = to_nums(&lheader);
    let rnums = to_nums(&rheader);
    let found = match merge_fn(&lnums, left, &rnums, right) {
        Ok(found) => found,
        Err(e) => {
            return Err(e);
        },
    };
    let header = match to_header(&found.0) {
        Some(header) => header,
        None => {
            return Err(merge_err("Merged header out of range", "", ""));
        },
    };
    let body = strip(found.1);
    proof {
        let emitted = crate::merge::merge_fn::merged(
            cluster_infos(Hand::Left, l, 1 + joined_len(l.drop_first(), r0[0].header)),
            cluster_infos(Hand::Right, r0, 1 + joined_len(r0.drop_first(), l[0].header)),
        ).unwrap();
        lemma_arranged_texts(emitted);
        lemma_arrange_counts(texts(emitted), '-');
        lemma_arrange_counts(texts(emitted), '+');
        lemma_arrange_counts(texts(emitted), ' ');
    }
    Ok(Hunk::new(header, body))
}

/// The four numbers of a valid header, without sign.
fn to_nums(header: &Header) -> (r: [usize; 4])
    requires
        header.wf(),
        header.quad().a <= usize::MAX,
        header.quad().b <= usize::MAX,
        header.quad().c <= usize::MAX,
        header.quad().d <= usize::MAX,
    ensures
        r == header_nums(header.quad()),
{
    let r: [usize; 4] = [
        header.fields[0] as usize,
        header.fields[1] as usize,
        header.fields[2] as usize,
        header.fields[3] as usize,
    ];
    assert(r =~= header_nums(header.quad()));
    r
}

/// Whether `l` sorts before `r`.
fn sorts_first(l: &Hunk, r: &Hunk) -> (b: bool)
    ensures
        b == (key(l@) < key(r@)),
{
    proof {
        l.lemma_key();
        r.lemma_key();
    }
    match l.cmp(r) {
        Ordering::Less => true,
        _ => false,
    }
}

/// `hunks`, then `more`, where there is a `more`.
pub open spec fn after(hunks: Seq<HunkView>, more: Option<Seq<HunkView>>) -> Option<Seq<HunkView>> {
    match more {
        Some(tail) => Some(hunks + tail),
        None => None,
    }
}

/// Merges the hunks of the first diff, `lhunks`, with those of the second,
/// `rhunks`, both in the order of the file.
pub fn merge_iter(lhunks: Vec<Hunk>, rhunks: Vec<Hunk>) -> (r: Result<Vec<Hunk>, MergeErr>)
    requires
        all_wf(lhunks@),
        all_wf(rhunks@),
    ensures
        match merge_hunks(hunk_views(lhunks@), hunk_views(rhunks@)) {
            Some(hunks) => r is Ok && hunk_views(r->Ok_0@) == hunks && all_wf(r->Ok_0@),
            None => r is Err,
        },
{
    let ghost goal = merge_hunks(hunk_views(lhunks@), hunk_views(rhunks@));
    let mut liter = reversed(lhunks);
    let mut riter = reversed(rhunks);
    let mut out: Vec<Hunk> = Vec::new();
    proof {
        assert(waiting(liter@) =~= hunk_views(lhunks@));
        assert(waiting(riter@) =~= hunk_views(rhunks@));
        assert(hunk_views(out@) =~= Seq::<HunkView>::empty());
        if goal is Some {
            assert(hunk_views(out@) + goal.unwrap() =~= goal.unwrap());
        }
    }
    while liter.len() > 0 || riter.len() > 0
        invariant
            goal == merge_hunks(hunk_views(lhunks@), hunk_views(rhunks@)),
            goal == after(hunk_views(out@), merge_hunks(waiting(liter@), waiting(riter@))),
            all_wf(liter@),
            all_wf(riter@),
            all_wf(out@),
        decreases liter.len() + riter.len(),
    {
        let ghost l = waiting(liter@);
        let ghost r0 = waiting(riter@);
        let ghost done = hunk_views(out@);
        let ln = liter.len();
        let rn = riter.len();
        proof {
            assert(ln > 0 ==> l[0] == liter[ln - 1]@);
            assert(rn > 0 ==> r0[0] == riter[rn - 1]@);
            lemma_cluster(l, r0);
        }
        let both = ln > 0 && rn > 0;
        let apart = both && !liter[ln - 1].overlaps(&riter[rn - 1]);
        let take_left = ln > 0 && (rn == 0 || (apart
            && sorts_first(&liter[ln - 1], &riter[rn - 1])));
        let take_right = !take_left && rn > 0 && (ln == 0 || apart);
        let hunk = if take_left {
            match liter.pop() {
                Some(hunk) => {
                    assert(waiting(liter@) =~= l.drop_first());
                    hunk
                },
                None => {
                    return Err(merge_err("merge_iter: no hunk", "", ""));
                },
            }
        } else if take_right {
            match riter.pop() {
                Some(hunk) => {
                    assert(waiting(riter@) =~= r0.drop_first());
                    hunk
                },
                None => {
                    return Err(merge_err("merge_iter: no hunk", "", ""));
                },
            }
        } else {
            match merge_overlapping(&mut liter, &mut riter) {
                Ok(hunk) => hunk,
                Err(e) => {
                    return Err(e);
                },
            }
        };
        let ghost view = hunk@;
        out.push(hunk);
        proof {
            let more = merge_hunks(waiting(liter@), waiting(riter@));
            assert(hunk_views(out@) =~= done.push(view));
            if more is Some {
                assert(done.push(view) + more.unwrap() =~= done + (seq![view] + more.unwrap()));
            }
        }
    }
    assert(hunk_views(out@) + Seq::<HunkView>::empty() =~= hunk_views(out@));
    Ok(out)
}

} // verus!
