//! Fuses the hunks two diffs hold for one file.
//!
//! The two lists are walked together. A hunk that meets none on the other
//! side goes out alone, its starts moved by the lines the other diff has
//! added so far. Hunks that meet are fused, in clusters.

use crate::error::{MergeErr, merge_err};
use crate::fuse::info_chain::{InfoChain, all_wf, chain_streams, waiting};
use crate::fuse::kernel::{
    fuse, fused, hunks_delta, lemma_fused_delta, lemma_run_rests, stream_texts,
};
use crate::hunk::{Hunk, HunkView};
use crate::hunk::header::{fused_start, least, meets, moved, quad_wf};
use crate::text::reversed;
use core::cmp::Ordering;
use vstd::prelude::*;

verus! {

/// Whether a number of lines can be held.
pub open spec fn in_reach(x: int) -> bool {
    i64::MIN <= x <= i64::MAX
}

/// `hunk`, then `more`, where there is a `more`.
pub open spec fn followed(hunk: HunkView, more: Option<Seq<HunkView>>) -> Option<Seq<HunkView>> {
    match more {
        Some(hunks) => Some(seq![hunk] + hunks),
        None => None,
    }
}

/// The key hunks are ordered by.
pub open spec fn key(h: HunkView) -> int {
    least(h.header.a, h.header.c)
}

/// Whether the first left hunk goes out alone: no right hunk is left, or
/// the first right hunk does not meet it and sorts after it.
pub open spec fn left_alone(l: Seq<HunkView>, r: Seq<HunkView>) -> bool {
    l.len() > 0 && (r.len() == 0 || (!meets(l[0].header, r[0].header) && key(l[0]) < key(r[0])))
}

/// Whether the first right hunk goes out alone.
pub open spec fn right_alone(l: Seq<HunkView>, r: Seq<HunkView>) -> bool {
    r.len() > 0 && !left_alone(l, r) && (l.len() == 0 || !meets(l[0].header, r[0].header))
}

/// What one step of the walk gives: the hunk that goes out, the hunks
/// each diff still holds, and the lines added so far on each side.
pub struct Progress {
    pub hunk: HunkView,
    pub left: Seq<HunkView>,
    pub right: Seq<HunkView>,
    pub lo: int,
    pub ro: int,
}

/// The next hunk of the fused diff, given the hunks `l` and `r` that the
/// two diffs still hold, not both none, and the lines `lo` and `ro` that
/// the hunks already seen have added on each side.
///
/// A left hunk that goes out alone has its post-image moved by `ro`, a
/// right hunk its pre-image by `lo`. Hunks that meet are fused with all
/// that join them, and what the fused hunk adds counts on both sides.
/// `None` where a moved header is not valid, where hunks that meet do not
/// fit together, or where a running count cannot be held.
#[verifier::opaque]
pub open spec fn next_hunk(
    l: Seq<HunkView>,
    r: Seq<HunkView>,
    lo: int,
    ro: int,
) -> Option<Progress> {
    if left_alone(l, r) {
        if in_reach(lo + l[0].delta()) && quad_wf(moved(l[0].header, 0, ro)) {
            Some(
                Progress {
                    hunk: l[0].moved(0, ro),
                    left: l.drop_first(),
                    right: r,
                    lo: lo + l[0].delta(),
                    ro,
                },
            )
        } else {
            None
        }
    } else if right_alone(l, r) {
        if in_reach(ro + r[0].delta()) && quad_wf(moved(r[0].header, lo, 0)) {
            Some(
                Progress {
                    hunk: r[0].moved(lo, 0),
                    left: l,
                    right: r.drop_first(),
                    lo,
                    ro: ro + r[0].delta(),
                },
            )
        } else {
            None
        }
    } else {
        match fused(fused_start(l[0].header, r[0].header), chain_streams(l, r)) {
            None => None,
            Some((hunk, end)) => {
                if in_reach(lo + hunk.delta()) && in_reach(ro + hunk.delta()) {
                    Some(
                        Progress {
                            hunk,
                            left: end.left.rest,
                            right: end.right.rest,
                            lo: lo + hunk.delta(),
                            ro: ro + hunk.delta(),
                        },
                    )
                } else {
                    None
                }
            },
        }
    }
}

/// Every step takes at least one hunk.
pub proof fn lemma_next_hunk(l: Seq<HunkView>, r: Seq<HunkView>, lo: int, ro: int)
    requires
        l.len() + r.len() > 0,
    ensures
        match next_hunk(l, r, lo, ro) {
            Some(p) => p.left.len() + p.right.len() < l.len() + r.len(),
            None => true,
        },
{
    reveal(next_hunk);
    if !left_alone(l, r) && !right_alone(l, r) {
        lemma_run_rests(chain_streams(l, r));
    }
}

/// The hunks of the fused diff: step after step until neither diff holds
/// a hunk. `None` where a step fails.
pub open spec fn fuse_hunks(
    l: Seq<HunkView>,
    r: Seq<HunkView>,
    lo: int,
    ro: int,
) -> Option<Seq<HunkView>>
    decreases l.len() + r.len(),
{
    if l.len() == 0 && r.len() == 0 {
        Some(Seq::empty())
    } else {
        match next_hunk(l, r, lo, ro) {
            None => None,
            Some(p) => {
                proof {
                    lemma_next_hunk(l, r, lo, ro);
                }
                followed(p.hunk, fuse_hunks(p.left, p.right, p.lo, p.ro))
            },
        }
    }
}

/// One step conserves the offset: the hunk that goes out and the hunks
/// still held add as many lines as the hunks held before.
pub proof fn lemma_next_hunk_delta(l: Seq<HunkView>, r: Seq<HunkView>, lo: int, ro: int)
    requires
        l.len() + r.len() > 0,
    ensures
        match next_hunk(l, r, lo, ro) {
            Some(p) => p.hunk.delta() + hunks_delta(p.left) + hunks_delta(p.right) == hunks_delta(l)
                + hunks_delta(r),
            None => true,
        },
{
    reveal(next_hunk);
    if left_alone(l, r) {
        assert(l[0].moved(0, ro).body() =~= l[0].body());
    } else if right_alone(l, r) {
        assert(r[0].moved(lo, 0).body() =~= r[0].body());
    } else {
        let from = chain_streams(l, r);
        let start = fused_start(l[0].header, r[0].header);
        lemma_fused_delta(start, from);
        match fused(start, from) {
            None => {},
            Some((hunk, end)) => {
                assert(stream_texts(from.left.cur) =~= l[0].body());
                assert(stream_texts(from.right.cur) =~= r[0].body());
                assert(stream_texts(end.left.cur) =~= Seq::<Seq<char>>::empty());
                assert(stream_texts(end.right.cur) =~= Seq::<Seq<char>>::empty());
            },
        }
    }
}

/// Offset conservation: the hunks of the fused diff add as many lines as
/// the hunks of the two diffs add together.
pub proof fn lemma_fuse_hunks_delta(l: Seq<HunkView>, r: Seq<HunkView>, lo: int, ro: int)
    ensures
        match fuse_hunks(l, r, lo, ro) {
            Some(hunks) => hunks_delta(hunks) == hunks_delta(l) + hunks_delta(r),
            None => true,
        },
    decreases l.len() + r.len(),
{
    if l.len() + r.len() > 0 {
        lemma_next_hunk(l, r, lo, ro);
        lemma_next_hunk_delta(l, r, lo, ro);
        match next_hunk(l, r, lo, ro) {
            None => {},
            Some(p) => {
                lemma_fuse_hunks_delta(p.left, p.right, p.lo, p.ro);
                let more = fuse_hunks(p.left, p.right, p.lo, p.ro);
                if more is Some {
                    let all = seq![p.hunk] + more.unwrap();
                    assert(all[0] == p.hunk);
                    assert(all.drop_first() =~= more.unwrap());
                }
            },
        }
    }
}

/// The views of a list of hunks.
pub open spec fn hunk_views(hunks: Seq<Hunk>) -> Seq<HunkView> {
    Seq::new(hunks.len(), |i: int| hunks[i]@)
}

/// `hunks`, then `more`, where there is a `more`.
pub open spec fn after(hunks: Seq<HunkView>, more: Option<Seq<HunkView>>) -> Option<Seq<HunkView>> {
    match more {
        Some(tail) => Some(hunks + tail),
        None => None,
    }
}

/// Whether `l` sorts before `r`.
fn sorts_first(l: &Hunk, r: &Hunk) -> (b: bool)
    ensures
        b == (key(l@) < key(r@)),
{
    proof {
        l.lemma_key();
        r.lemma_key();
    }
    match l.cmp(r) {
        Ordering::Less => true,
        _ => false,
    }
}

/// `total + delta`, if it can be held.
fn advance(total: i64, delta: i64) -> (r: Option<i64>)
    ensures
        match r {
            Some(sum) => sum == total + delta,
            None => !in_reach(total + delta),
        },
{
    let sum: i128 = total as i128 + delta as i128;
    if sum < i64::MIN as i128 || sum > i64::MAX as i128 {
        None
    } else {
        Some(sum as i64)
    }
}

/// The hunks two diffs still hold for a file, the next one of each last,
/// and the lines the hunks already seen have added on each side.
struct Walk {
    left: Vec<Hunk>,
    right: Vec<Hunk>,
    loffset: i64,
    roffset: i64,
}

impl Walk {
    /// Every hunk still held is valid.
    spec fn wf(&self) -> bool {
        all_wf(self.left@) && all_wf(self.right@)
    }

    /// What the next step gives.
    spec fn next(&self) -> Option<Progress> {
        next_hunk(
            waiting(self.left@),
            waiting(self.right@),
            self.loffset as int,
            self.roffset as int,
        )
    }

    /// Whether the walk stands where a step has led.
    spec fn at(&self, p: Progress) -> bool {
        &&& waiting(self.left@) == p.left
        &&& waiting(self.right@) == p.right
        &&& self.loffset == p.lo
        &&& self.roffset == p.ro
    }

    /// Lets the next left hunk go out alone.
    fn take_left(&mut self) -> (r: Result<Hunk, MergeErr>)
        requires
            old(self).wf(),
            left_alone(waiting(old(self).left@), waiting(old(self).right@)),
        ensures
            final(self).wf(),
            match old(self).next() {
                Some(p) => r is Ok && r->Ok_0@ == p.hunk && r->Ok_0.wf() && final(self).at(p),
                None => r is Err,
            },
    {
        reveal(next_hunk);
        let ghost l = waiting(self.left@);
        let n = self.left.len();
        assert(l[0] == self.left[n - 1]@);
        let hunk = match self.left.pop() {
            Some(hunk) => hunk,
            None => {
                return Err(merge_err("fuse_iter: no hunk", "", ""));
            },
        };
        assert(waiting(self.left@) =~= l.drop_first());
        self.loffset = match advance(self.loffset, hunk.offset()) {
            Some(sum) => sum,
            None => {
                return Err(merge_err("fuse_iter: too many lines", "", ""));
            },
        };
        hunk.with_offset(0, self.roffset)
    }

    /// Lets the next right hunk go out alone.
    fn take_right(&mut self) -> (r: Result<Hunk, MergeErr>)
        requires
            old(self).wf(),
            right_alone(waiting(old(self).left@), waiting(old(self).right@)),
        ensures
            final(self).wf(),
            match old(self).next() {
                Some(p) => r is Ok && r->Ok_0@ == p.hunk && r->Ok_0.wf() && final(self).at(p),
                None => r is Err,
            },
    {
        reveal(next_hunk);
        let ghost r0 = waiting(self.right@);
        let n = self.right.len();
        assert(r0[0] == self.right[n - 1]@);
        let hunk = match self.right.pop() {
            Some(hunk) => hunk,
            None => {
                return Err(merge_err("fuse_iter: no hunk", "", ""));
            },
        };
        assert(waiting(self.right@) =~= r0.drop_first());
        self.roffset = match advance(self.roffset, hunk.offset()) {
            Some(sum) => sum,
            None => {
                return Err(merge_err("fuse_iter: too many lines", "", ""));
            },
        };
        hunk.with_offset(self.loffset, 0)
    }

    /// Fuses the next hunks of the two sides and all that join them.
    fn take_cluster(self) -> (r: Result<(Hunk, Walk), MergeErr>)
        requires
            self.wf(),
            self.left.len() > 0,
            self.right.len() > 0,
            !left_alone(waiting(self.left@), waiting(self.right@)),
            !right_alone(waiting(self.left@), waiting(self.right@)),
        ensures
            match self.next() {
                Some(p) => match r {
                    Ok(found) => found.0@ == p.hunk && found.0.wf() && found.1.wf()
                        && found.1.at(p),
                    Err(_) => false,
                },
                None => r is Err,
            },
    {
        reveal(next_hunk);
        let found = match fuse_overlapping(self.left, self.right) {
            Ok(found) => found,
            Err(e) => {
                return Err(e);
            },
        };
        let delta = found.0.offset();
        let loffset = match advance(self.loffset, delta) {
            Some(sum) => sum,
            None => {
                return Err(merge_err("fuse_iter: too many lines", "", ""));
            },
        };
        let roffset = match advance(self.roffset, delta) {
            Some(sum) => sum,
            None => {
                return Err(merge_err("fuse_iter: too many lines", "", ""));
            },
        };
        Ok((found.0, Walk { left: found.1, right: found.2, loffset, roffset }))
    }

    /// Takes one step: the hunk that goes out and the walk after it.
    fn step(self) -> (r: Result<(Hunk, Walk), MergeErr>)
        requires
            self.wf(),
            self.left.len() + self.right.len() > 0,
        ensures
            match self.next() {
                Some(p) => match r {
                    Ok(found) => found.0@ == p.hunk && found.0.wf() && found.1.wf()
                        && found.1.at(p),
                    Err(_) => false,
                },
                None => r is Err,
            },
    {
        let ln = self.left.len();
        let rn = self.right.len();
        let ghost l = waiting(self.left@);
        let ghost r0 = waiting(self.right@);
        proof {
            assert(ln > 0 ==> l[0] == self.left[ln - 1]@);
            assert(rn > 0 ==> r0[0] == self.right[rn - 1]@);
        }
        let meet = ln > 0 && rn > 0 && self.left[ln - 1].header().should_fuse(
            self.right[rn - 1].header(),
        );
        let left_first = ln > 0 && (rn == 0 || (!meet && sorts_first(
            &self.left[ln - 1],
            &self.right[rn - 1],
        )));
        let mut walk = self;
        if left_first {
            match walk.take_left() {
                Ok(hunk) => Ok((hunk, walk)),
                Err(e) => Err(e),
            }
        } else if !meet {
            match walk.take_right() {
                Ok(hunk) => Ok((hunk, walk)),
                Err(e) => Err(e),
            }
        } else {
            walk.take_cluster()
        }
    }
}

/// Fuses the hunks of the first diff, `lhunks`, with those of the second,
/// `rhunks`, both in the order of the file.
pub fn fuse_iter(lhunks: Vec<Hunk>, rhunks: Vec<Hunk>) -> (r: Result<Vec<Hunk>, MergeErr>)
    requires
        all_wf(lhunks@),
        all_wf(rhunks@),
    ensures
        match fuse_hunks(hunk_views(lhunks@), hunk_views(rhunks@), 0, 0) {
            Some(hunks) => r is Ok && hunk_views(r->Ok_0@) == hunks && all_wf(r->Ok_0@),
            None => r is Err,
        },
{
    let ghost goal = fuse_hunks(hunk_views(lhunks@), hunk_views(rhunks@), 0, 0);
    let mut walk = Walk { left: reversed(lhunks), right: reversed(rhunks), loffset: 0, roffset: 0 };
    let mut out: Vec<Hunk> = Vec::new();
    proof {
        assert(waiting(walk.left@) =~= hunk_views(lhunks@));
        assert(waiting(walk.right@) =~= hunk_views(rhunks@));
        assert(hunk_views(out@) =~= Seq::<HunkView>::empty());
        if goal is Some {
            assert(hunk_views(out@) + goal.unwrap() =~= goal.unwrap());
        }
    }
    while walk.left.len() > 0 || walk.right.len() > 0
        invariant
            goal == fuse_hunks(hunk_views(lhunks@), hunk_views(rhunks@), 0, 0),
            goal == after(
                hunk_views(out@),
                fuse_hunks(
                    waiting(walk.left@),
                    waiting(walk.right@),
                    walk.loffset as int,
                    walk.roffset as int,
                ),
            ),
            walk.wf(),
            all_wf(out@),
        decreases walk.left.len() + walk.right.len(),
    {
        let ghost done = hunk_views(out@);
        proof {
            lemma_next_hunk(
                waiting(walk.left@),
                waiting(walk.right@),
                walk.loffset as int,
                walk.roffset as int,
            );
        }
        match walk.step() {
            Ok(found) => {
                let ghost view = found.0@;
                walk = found.1;
                out.push(found.0);
                proof {
                    let more = fuse_hunks(
                        waiting(walk.left@),
                        waiting(walk.right@),
                        walk.loffset as int,
                        walk.roffset as int,
                    );
                    assert(hunk_views(out@) =~= done.push(view));
                    if more is Some {
                        assert(done.push(view) + more.unwrap() =~= done + (seq![view]
                            + more.unwrap()));
                    }
                }
            },
            Err(e) => {
                return Err(e);
            },
        }
    }
    assert(hunk_views(out@) + Seq::<HunkView>::empty() =~= hunk_views(out@));
    Ok(out)
}

/// Fuses the cluster that starts with the last hunk of each stack, and
/// hands back the hunks of each side that did not join.
fn fuse_overlapping(
    lhunks: Vec<Hunk>,
    rhunks: Vec<Hunk>,
) -> (r: Result<(Hunk, Vec<Hunk>, Vec<Hunk>), MergeErr>)
    requires
        all_wf(lhunks@),
        all_wf(rhunks@),
        lhunks.len() > 0,
        rhunks.len() > 0,
    ensures
        ({
            let l = waiting(lhunks@);
            let r0 = waiting(rhunks@);
            match fused(fused_start(l[0].header, r0[0].header), chain_streams(l, r0)) {
                Some((hunk, end)) => match r {
                    Ok(found) => {
                        &&& found.0@ == hunk
                        &&& found.0.wf()
                        &&& waiting(found.1@) == end.left.rest
                        &&& waiting(found.2@) == end.right.rest
                        &&& all_wf(found.1@)
                        &&& all_wf(found.2@)
                    },
                    Err(_) => false,
                },
                None => r is Err,
            }
        }),
{
    let ln = lhunks.len();
    let rn = rhunks.len();
    assert(waiting(lhunks@)[0] == lhunks[ln - 1]@);
    assert(waiting(rhunks@)[0] == rhunks[rn - 1]@);
    let header = lhunks[ln - 1].header().fuse(rhunks[rn - 1].header());
    let chain = match InfoChain::new(lhunks, rhunks) {
        Ok(chain) => chain,
        Err(e) => {
            return Err(e);
        },
    };
    match fuse(header, chain) {
        Ok(pair) => {
            proof {
                pair.1.lemma_inv();
            }
            let rest = pair.1.into_hunks();
            Ok((pair.0, rest.0, rest.1))
        },
        Err(e) => Err(e),
    }
}

} // verus!
