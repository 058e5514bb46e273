//! The changes to one file: a file header and the hunks under it.

pub mod flagged_hunk;
pub mod merge_iter;

use crate::error::{MergeErr, ParseErr, merge_err, parse_err};
use crate::fuse::fuse_iter::{fuse_hunks, fuse_iter, hunk_views, lemma_fuse_hunks_delta};
use crate::fuse::info_chain::all_wf;
use crate::fuse::kernel::hunks_delta;
use crate::header::{Header, HeaderView, header_of};
use crate::hunk::{Hunk, HunkView, hunk_of, lemma_body_len_bounds};
use crate::hunk::header::overlap;
use crate::lines::{Lines, join};
use crate::tags::{blank, is_blank, is_body_tag, tag};
use crate::text::{push_refs, ref_views, starts_with};
use vstd::prelude::*;
use vstd::string::*;

verus! {

/// The changes to one file: the file header, the hunks, and the number of
/// lines of both.
#[derive(Debug, Clone)]
pub struct FileDiff {
    _header: Header,
    _hunks: Vec<Hunk>,
    _num_lines: usize,
}

/// The changes to one file as a mathematical value.
pub struct FileDiffView {
    pub header: HeaderView,
    pub hunks: Seq<HunkView>,
}

/// Number of lines in a list of hunks, header lines included.
pub open spec fn hunk_lines(hunks: Seq<HunkView>) -> nat
    decreases hunks.len(),
{
    if hunks.len() == 0 {
        0
    } else {
        hunk_lines(hunks.drop_last()) + hunks.last().lines.len()
    }
}

/// The lines of a list of hunks, one hunk after the other.
pub open spec fn all_lines(hunks: Seq<HunkView>) -> Seq<Seq<char>>
    decreases hunks.len(),
{
    if hunks.len() == 0 {
        Seq::empty()
    } else {
        all_lines(hunks.drop_last()) + hunks.last().lines
    }
}

/// No two hunks share a line, before the change or after it.
pub open spec fn pairwise_disjoint(hunks: Seq<HunkView>) -> bool {
    forall|i: int, j: int|
        0 <= i < j < hunks.len()
            ==> !overlap((#[trigger] hunks[i]).header, (#[trigger] hunks[j]).header)
}

/// Every hunk is valid.
pub open spec fn all_valid(hunks: Seq<HunkView>) -> bool {
    forall|i: int| 0 <= i < hunks.len() ==> (#[trigger] hunks[i]).wf()
}

/// What a line that opens a hunk starts with.
pub open spec fn opens_hunk(line: Seq<char>) -> bool {
    seq!['@', '@'].is_prefix_of(line)
}

/// The hunks at the start of `lines` and the number of lines they take.
/// Blank lines before a hunk are passed over; the list ends before the
/// first line that is neither blank nor opens a hunk. `None` where a line
/// opens a hunk that cannot be read.
pub open spec fn hunks_of(lines: Seq<Seq<char>>) -> Option<(Seq<HunkView>, int)>
    decreases lines.len(),
{
    if lines.len() == 0 {
        Some((Seq::empty(), 0int))
    } else if is_blank(lines[0]) {
        match hunks_of(lines.drop_first()) {
            Some((hunks, n)) => Some((hunks, n + 1)),
            None => None,
        }
    } else if !opens_hunk(lines[0]) {
        Some((Seq::empty(), 0int))
    } else {
        match hunk_of(lines) {
            None => None,
            Some(hunk) => {
                if 1 <= hunk.lines.len() <= lines.len() {
                    match hunks_of(lines.subrange(hunk.lines.len() as int, lines.len() as int)) {
                        Some((hunks, n)) => Some((seq![hunk] + hunks, hunk.lines.len() + n)),
                        None => None,
                    }
                } else {
                    None
                }
            },
        }
    }
}

/// The block of one file at the start of `lines`, and the number of lines
/// it takes: a file header, then hunks of which no two overlap.
pub open spec fn file_of(lines: Seq<Seq<char>>) -> Option<(FileDiffView, int)> {
    match header_of(lines) {
        None => None,
        Some(header) => match hunks_of(lines.subrange(4, lines.len() as int)) {
            None => None,
            Some((hunks, n)) => if pairwise_disjoint(hunks) {
                Some((FileDiffView { header, hunks }, 4 + n))
            } else {
                None
            },
        },
    }
}

/// The fusion of the changes two diffs make to one file. `None` where the
/// two speak of different files, where their hunks cannot be fused, and
/// where the result has more lines than can be counted.
pub open spec fn file_fused(a: FileDiffView, b: FileDiffView) -> Option<FileDiffView> {
    if a.header.name != b.header.name {
        None
    } else {
        match fuse_hunks(a.hunks, b.hunks, 0, 0) {
            None => None,
            Some(hunks) => if 4 + hunk_lines(hunks) <= usize::MAX {
                Some(FileDiffView { header: a.header, hunks })
            } else {
                None
            },
        }
    }
}

impl FileDiffView {
    /// The name of the file.
    pub open spec fn name(self) -> Seq<char> {
        self.header.name
    }

    /// All lines of the block, in order.
    pub open spec fn lines(self) -> Seq<Seq<char>> {
        self.header.lines + all_lines(self.hunks)
    }

    /// The header and every hunk are valid, and the lines can be counted.
    pub open spec fn wf(self) -> bool {
        &&& self.header.wf()
        &&& all_valid(self.hunks)
        &&& 4 + hunk_lines(self.hunks) <= usize::MAX
    }

    /// No two hunks overlap.
    pub open spec fn disjoint(self) -> bool {
        pairwise_disjoint(self.hunks)
    }

    /// Net number of lines the block adds to its file.
    pub open spec fn delta(self) -> int {
        hunks_delta(self.hunks)
    }
}

/// Offset conservation: the fusion of two blocks adds as many lines to
/// the file as the two add together.
pub proof fn lemma_file_fused_delta(a: FileDiffView, b: FileDiffView)
    ensures
        match file_fused(a, b) {
            Some(f) => f.delta() == a.delta() + b.delta(),
            None => true,
        },
{
    lemma_fuse_hunks_delta(a.hunks, b.hunks, 0, 0);
}

impl View for FileDiff {
    type V = FileDiffView;

    closed spec fn view(&self) -> FileDiffView {
        FileDiffView { header: self._header@, hunks: hunk_views(self._hunks@) }
    }
}

/// `done`, then `more`, where there is a `more`.
pub open spec fn hunks_then(
    done: Seq<HunkView>,
    taken: int,
    more: Option<(Seq<HunkView>, int)>,
) -> Option<(Seq<HunkView>, int)> {
    match more {
        Some((hunks, n)) => Some((done + hunks, taken + n)),
        None => None,
    }
}

/// The lines of a list of hunks with one more hunk.
pub proof fn lemma_hunk_lines_push(hunks: Seq<HunkView>, hunk: HunkView)
    ensures
        hunk_lines(hunks.push(hunk)) == hunk_lines(hunks) + hunk.lines.len(),
        all_lines(hunks.push(hunk)) == all_lines(hunks) + hunk.lines,
{
    assert(hunks.push(hunk).drop_last() =~= hunks);
}

/// A cursor over the lines of a `FileDiff`.
pub struct LineIter<'a> {
    /// The lines still to come, the next one last.
    stack: Vec<&'a String>,
}

impl<'a> LineIter<'a> {
    /// The lines still to come, in order.
    pub closed spec fn rest(&self) -> Seq<Seq<char>> {
        Seq::new(self.stack.len() as nat, |i: int| self.stack[self.stack.len() - 1 - i]@)
    }

    /// A cursor with no line to give.
    pub fn default() -> (it: LineIter<'static>)
        ensures
            it.rest() == Seq::<Seq<char>>::empty(),
    {
        let it = LineIter { stack: Vec::new() };
        assert(it.rest() =~= Seq::<Seq<char>>::empty());
        it
    }

    /// A cursor over the given lines.
    pub fn over(lines: Vec<&'a String>) -> (it: LineIter<'a>)
        ensures
            it.rest() == ref_views(lines@),
    {
        let stack = crate::text::reversed(lines);
        let it = LineIter { stack };
        assert(it.rest() =~= ref_views(lines@));
        it
    }

    /// The next line.
    pub fn next(&mut self) -> (r: Option<&'a String>)
        ensures
            match r {
                Some(l) => old(self).rest().len() > 0 && l@ == old(self).rest()[0]
                    && final(self).rest() == old(self).rest().drop_first(),
                None => old(self).rest().len() == 0 && final(self).rest() == old(self).rest(),
            },
    {
        let r = self.stack.pop();
        assert(r is Some ==> self.rest() =~= old(self).rest().drop_first());
        assert(r is None ==> self.rest() =~= old(self).rest());
        r
    }
}

impl FileDiff {
    /// The block is valid and the number of lines kept with it is right.
    pub open spec fn wf(&self) -> bool {
        self@.wf() && self.counted()
    }

    /// The number of lines kept with the block is the number of its lines.
    pub closed spec fn counted(&self) -> bool {
        self._num_lines == 4 + hunk_lines(hunk_views(self._hunks@))
    }

    /// Reads the block of one file: the file header, then hunks with
    /// blank lines between them at will. Fails where the header or a hunk
    /// cannot be read and where two hunks overlap.
    pub fn from_lines(lines: &mut Lines) -> (r: Result<FileDiff, ParseErr>)
        ensures
            match file_of(old(lines).rest()) {
                Some((v, n)) => r is Ok && r->Ok_0@ == v && r->Ok_0.wf() && r->Ok_0@.disjoint()
                    && 4 <= n <= old(lines).rest().len()
                        && final(lines).rest() == old(lines).rest().subrange(n,
                            old(lines).rest().len() as int),
                None => r is Err,
            },
    {
        let ghost all = lines.rest();
        let total = lines.len();
        let _header = match Header::from_lines(lines) {
            Ok(h) => h,
            Err(e) => {
                return Err(e);
            },
        };
        let ghost tail = all.subrange(4, all.len() as int);
        let mut _num_lines: usize = 4;
        let mut _hunks: Vec<Hunk> = Vec::new();
        let ghost mut taken: int = 0;
        proof {
            assert(tail.subrange(0, tail.len() as int) =~= tail);
            assert(hunk_views(_hunks@) =~= Seq::<HunkView>::empty());
            let goal = hunks_of(tail);
            if goal is Some {
                assert(hunk_views(_hunks@) + goal.unwrap().0 =~= goal.unwrap().0);
            }
        }
        loop
            invariant_except_break
                hunks_of(tail) == hunks_then(hunk_views(_hunks@), taken, hunks_of(lines.rest())),
            invariant
                all == old(lines).rest(),
                all.len() == total,
                all.len() >= 4,
                header_of(all) == Some(_header@),
                _header.wf(),
                tail == all.subrange(4, all.len() as int),
                0 <= taken <= tail.len(),
                lines.rest() == tail.subrange(taken, tail.len() as int),
                all_wf(_hunks@),
                _num_lines == 4 + hunk_lines(hunk_views(_hunks@)),
                _num_lines <= 4 + taken,
            ensures
                hunks_of(tail) == Some((hunk_views(_hunks@), taken)),
            decreases tail.len() - taken,
        {
            let ghost rest = lines.rest();
            let ghost done = hunk_views(_hunks@);
            let skip = match lines.peek() {
                None => {
                    assert(done + Seq::<HunkView>::empty() =~= done);
                    break ;
                },
                Some(line) => {
                    if blank(line.as_str()) {
                        true
                    } else {
                        proof {
                            reveal_strlit("@@");
                            assert("@@"@ =~= seq!['@', '@']);
                        }
                        if !starts_with(line.as_str(), "@@") {
                            assert(done + Seq::<HunkView>::empty() =~= done);
                            break ;
                        }
                        false
                    }
                },
            };
            if skip {
                lines.next();
                proof {
                    assert(lines.rest() =~= tail.subrange(taken + 1, tail.len() as int));
                    taken = taken + 1;
                }
            } else {
                proof {
                    if hunk_of(rest) is Some {
                        lemma_body_len_bounds(rest.subrange(1, rest.len() as int));
                    }
                }
                let hunk = match Hunk::from_lines(lines) {
                    Ok(hunk) => hunk,
                    Err(e) => {
                        return Err(e);
                    },
                };
                let ghost n = hunk@.lines.len() as int;
                proof {
                    assert(lines.rest() =~= tail.subrange(taken + n, tail.len() as int));
                    lemma_hunk_lines_push(done, hunk@);
                    let more = hunks_of(lines.rest());
                    if more is Some {
                        assert(done.push(hunk@) + more.unwrap().0 =~= done + (seq![hunk@]
                            + more.unwrap().0));
                    }
                }
                _num_lines = _num_lines + hunk.lines().len();
                _hunks.push(hunk);
                proof {
                    assert(hunk_views(_hunks@) =~= done.push(hunk@));
                    taken = taken + n;
                }
            }
        }
        proof {
            lemma_views_wf(_hunks@);
        }
        let mut i: usize = 0;
        while i < _hunks.len()
            invariant
                i <= _hunks.len(),
                all == old(lines).rest(),
                header_of(all) == Some(_header@),
                tail == all.subrange(4, all.len() as int),
                hunks_of(tail) == Some((hunk_views(_hunks@), taken)),
                forall|x: int, y: int|
                    0 <= x < i && x < y < _hunks.len() ==> !overlap(
                        (#[trigger] _hunks[x])@.header,
                        (#[trigger] _hunks[y])@.header,
                    ),
            decreases _hunks.len() - i,
        {
            let mut j: usize = i + 1;
            while j < _hunks.len()
                invariant
                    i < j <= _hunks.len(),
                    all == old(lines).rest(),
                    header_of(all) == Some(_header@),
                    tail == all.subrange(4, all.len() as int),
                    hunks_of(tail) == Some((hunk_views(_hunks@), taken)),
                    forall|y: int|
                        i < y < j
                            ==> !overlap(_hunks[i as int]@.header, (#[trigger] _hunks[y])@.header),
                decreases _hunks.len() - j,
            {
                if _hunks[i].overlaps(&_hunks[j]) {
                    proof {
                        let hs = hunk_views(_hunks@);
                        assert(overlap(hs[i as int].header, hs[j as int].header));
                    }
                    return Err(
                        parse_err(
                            "Could not parse file ",
                            _header.file_name(),
                            ": two hunks overlap",
                        ),
                    );
                }
                j = j + 1;
            }
            i = i + 1;
        }
        let diff = FileDiff { _header, _hunks, _num_lines };
        proof {
            assert(pairwise_disjoint(diff@.hunks));
            assert(tail.subrange(taken, tail.len() as int) =~= all.subrange(4 + taken,
                all.len() as int));
        }
        Ok(diff)
    }

    /// Number of lines in the block.
    pub fn num_lines(&self) -> (n: usize)
        requires
            self.wf(),
        ensures
            n == 4 + hunk_lines(self@.hunks),
    {
        self._num_lines
    }

    /// The file header.
    pub fn header(&self) -> (h: &Header)
        ensures
            h@ == self@.header,
    {
        &self._header
    }

    /// The hunks, in order.
    pub fn hunks(&self) -> (h: &Vec<Hunk>)
        ensures
            hunk_views(h@) == self@.hunks,
    {
        &self._hunks
    }

    /// Adds to `out` all lines of the block.
    pub fn push_lines<'a>(&'a self, out: &mut Vec<&'a String>)
        ensures
            ref_views(final(out)@) == ref_views(old(out)@) + self@.lines(),
    {
        let ghost start = ref_views(out@);
        push_refs(out, self._header.lines());
        let mut i: usize = 0;
        assert(hunk_views(self._hunks@).subrange(0, 0) =~= Seq::<HunkView>::empty());
        assert(start + self@.header.lines + Seq::<Seq<char>>::empty() =~= start
            + self@.header.lines);
        while i < self._hunks.len()
            invariant
                i <= self._hunks.len(),
                ref_views(out@) == start + self@.header.lines + all_lines(
                    hunk_views(self._hunks@).subrange(0, i as int),
                ),
            decreases self._hunks.len() - i,
        {
            let ghost before = hunk_views(self._hunks@).subrange(0, i as int);
            push_refs(out, self._hunks[i].lines());
            proof {
                lemma_hunk_lines_push(before, self._hunks[i as int]@);
                assert(before.push(self._hunks[i as int]@) =~= hunk_views(self._hunks@).subrange(
                    0,
                    i + 1,
                ));
                assert(start + self@.header.lines + all_lines(before) + self._hunks[i as int]@.lines
                    =~= start + self@.header.lines + (all_lines(before)
                    + self._hunks[i as int]@.lines));
            }
            i = i + 1;
        }
        assert(hunk_views(self._hunks@).subrange(0, self._hunks.len() as int) =~= hunk_views(
            self._hunks@,
        ));
        assert(start + self@.header.lines + all_lines(self@.hunks) =~= start + self@.lines());
    }

    /// A cursor over all lines of the block.
    pub fn line_iter(&self) -> (it: LineIter<'_>)
        ensures
            it.rest() == self@.lines(),
    {
        let mut lines: Vec<&String> = Vec::new();
        self.push_lines(&mut lines);
        assert(ref_views(lines@) =~= self@.lines());
        LineIter::over(lines)
    }

    /// Fuses the changes of the first diff, `self`, with those the second
    /// diff, `other`, makes to the same file.
    pub fn fuse(self, other: FileDiff) -> (r: Result<FileDiff, MergeErr>)
        requires
            self.wf(),
            other.wf(),
        ensures
            match file_fused(self@, other@) {
                Some(v) => r is Ok && r->Ok_0@ == v && r->Ok_0.wf(),
                None => r is Err,
            },
            r is Ok ==> r->Ok_0@.delta() == self@.delta() + other@.delta(),
    {
        proof {
            lemma_file_fused_delta(self@, other@);
            lemma_views_wf(self._hunks@);
            lemma_views_wf(other._hunks@);
        }
        if !self._header.same_file(&other._header) {
            return Err(
                merge_err("Cannot fuse changes to different files: ", self._header.file_name(), ""),
            );
        }
        let hunks = match fuse_iter(self._hunks, other._hunks) {
            Ok(hunks) => hunks,
            Err(e) => {
                return Err(e);
            },
        };
        let mut _num_lines: usize = 4;
        let mut i: usize = 0;
        assert(hunk_views(hunks@).subrange(0, 0) =~= Seq::<HunkView>::empty());
        while i < hunks.len()
            invariant
                i <= hunks.len(),
                self@.header.name == other@.header.name,
                fuse_hunks(self@.hunks, other@.hunks, 0, 0) == Some(hunk_views(hunks@)),
                _num_lines == 4 + hunk_lines(hunk_views(hunks@).subrange(0, i as int)),
            decreases hunks.len() - i,
        {
            let ghost before = hunk_views(hunks@).subrange(0, i as int);
            let n = hunks[i].lines().len();
            proof {
                lemma_hunk_lines_push(before, hunks[i as int]@);
                assert(before.push(hunks[i as int]@) =~= hunk_views(hunks@).subrange(0, i + 1));
                lemma_hunk_lines_grow(hunk_views(hunks@), i + 1);
            }
            if n > usize::MAX - _num_lines {
                return Err(merge_err("Too many lines in ", self._header.file_name(), ""));
            }
            _num_lines = _num_lines + n;
            i = i + 1;
        }
        proof {
            assert(hunk_views(hunks@).subrange(0, hunks.len() as int) =~= hunk_views(hunks@));
            lemma_views_wf(hunks@);
        }
        Ok(FileDiff { _header: self._header, _hunks: hunks, _num_lines })
    }

    /// The block as text, a line feed after each line.
    pub fn to_string(&self) -> (s: String)
        ensures
            s@ == join(self@.lines()),
    {
        let mut it = self.line_iter();
        write_lines(&mut it)
    }
}

/// The lines a cursor still holds, as text.
pub fn write_lines<'a>(it: &mut LineIter<'a>) -> (s: String)
    ensures
        s@ == join(old(it).rest()),
{
    let ghost all = it.rest();
    let mut s = String::new();
    let ghost mut k: int = 0;
    assert(all.subrange(0, 0) =~= Seq::<Seq<char>>::empty());
    loop
        invariant
            all == old(it).rest(),
            0 <= k <= all.len(),
            it.rest() == all.subrange(k, all.len() as int),
            s@ == join(all.subrange(0, k)),
        ensures
            s@ == join(all),
        decreases all.len() - k,
    {
        match it.next() {
            None => {
                assert(all.subrange(0, k) =~= all);
                break ;
            },
            Some(line) => {
                proof {
                    reveal_strlit("\n");
                    assert("\n"@ =~= seq!['\n']);
                    assert(all.subrange(0, k + 1).drop_last() =~= all.subrange(0, k));
                    assert(it.rest() =~= all.subrange(k + 1, all.len() as int));
                }
                s.append(line.as_str());
                s.append("\n");
                proof {
                    k = k + 1;
                }
            },
        }
    }
    s
}

/// A list of hunks is valid if and only if its views are.
pub proof fn lemma_views_wf(hunks: Seq<Hunk>)
    ensures
        all_wf(hunks) <==> all_valid(hunk_views(hunks)),
{
    if all_wf(hunks) {
        assert forall|i: int| 0 <= i < hunks.len() implies (#[trigger] hunk_views(hunks)[i]).wf() by
            {
            assert(hunks[i].wf());
        }
    }
    if all_valid(hunk_views(hunks)) {
        assert forall|i: int| 0 <= i < hunks.len() implies (#[trigger] hunks[i]).wf() by {
            assert(hunk_views(hunks)[i].wf());
        }
    }
}

/// Whether a line can follow a hunk without being taken for part of it
/// or for the start of another, or passed over.
pub open spec fn ends_hunks(line: Seq<char>) -> bool {
    !is_body_tag(tag(line)) && !is_blank(line) && !opens_hunk(line)
}

/// The lines of a list of hunks are the lines of the first and then the
/// lines of the others.
pub proof fn lemma_all_lines_front(hunks: Seq<HunkView>)
    requires
        hunks.len() > 0,
    ensures
        all_lines(hunks) == hunks[0].lines + all_lines(hunks.drop_first()),
    decreases hunks.len(),
{
    if hunks.len() == 1 {
        assert(hunks.drop_last() =~= Seq::<HunkView>::empty());
        assert(hunks.drop_first() =~= Seq::<HunkView>::empty());
        assert(all_lines(hunks) =~= hunks[0].lines + all_lines(hunks.drop_first()));
    } else {
        lemma_all_lines_front(hunks.drop_last());
        assert(hunks.drop_last().drop_first() =~= hunks.drop_first().drop_last());
        assert(hunks.drop_last()[0] == hunks[0]);
        assert(hunks.drop_first().last() == hunks.last());
        assert(all_lines(hunks) =~= hunks[0].lines + all_lines(hunks.drop_first()));
    }
}

/// A line that a header can be read from opens a hunk and is not blank.
pub proof fn lemma_header_line(line: Seq<char>)
    requires
        crate::hunk::header::header_of(line) is Some,
    ensures
        opens_hunk(line),
        !is_blank(line),
        !is_body_tag(tag(line)),
{
    let p = line.subrange(0, 3);
    assert(p[0] == '@' && p[1] == '@');
    assert(line[0] == '@' && line[1] == '@');
    assert(line.subrange(0, 2) =~= seq!['@', '@']);
    assert(!crate::tags::is_space(line[0]));
}

/// Valid hunks are read back from their lines, whatever follows them, as
/// long as what follows starts with a line that ends the list.
pub proof fn lemma_hunks_round_trip(hunks: Seq<HunkView>, more: Seq<Seq<char>>)
    requires
        all_valid(hunks),
        more.len() == 0 || ends_hunks(more[0]),
    ensures
        hunks_of(all_lines(hunks) + more) == Some((hunks, all_lines(hunks).len() as int)),
    decreases hunks.len(),
{
    let lines = all_lines(hunks) + more;
    if hunks.len() == 0 {
        assert(lines =~= more);
        assert(hunks =~= Seq::<HunkView>::empty());
    } else {
        let h = hunks[0];
        let rest = hunks.drop_first();
        lemma_all_lines_front(hunks);
        assert(h.wf());
        assert forall|i: int| 0 <= i < rest.len() implies (#[trigger] rest[i]).wf() by {
            assert(rest[i] == hunks[i + 1]);
        }
        let after = all_lines(rest) + more;
        assert(lines =~= h.lines + after);
        assert(lines[0] == h.lines[0]);
        lemma_header_line(lines[0]);
        if rest.len() > 0 {
            lemma_all_lines_front(rest);
            assert(rest[0].wf());
            assert(after[0] == rest[0].lines[0]);
            lemma_header_line(after[0]);
        } else {
            assert(all_lines(rest) =~= Seq::<Seq<char>>::empty());
            assert(after =~= more);
        }
        crate::hunk::lemma_hunk_round_trip(h, after);
        assert(lines.subrange(h.lines.len() as int, lines.len() as int) =~= after);
        lemma_hunks_round_trip(rest, more);
        assert(seq![h] + rest =~= hunks);
    }
}

/// A valid block in which no two hunks overlap is read back from its
/// lines, whatever follows them, as long as what follows starts with a
/// line that ends the list of hunks.
pub proof fn lemma_file_round_trip(f: FileDiffView, more: Seq<Seq<char>>)
    requires
        f.wf(),
        f.disjoint(),
        more.len() == 0 || ends_hunks(more[0]),
    ensures
        file_of(f.lines() + more) == Some((f, f.lines().len() as int)),
{
    let lines = f.lines() + more;
    assert(lines =~= f.header.lines + (all_lines(f.hunks) + more));
    assert(lines[0] == f.header.lines[0]);
    assert(lines.subrange(0, 4) =~= f.header.lines);
    assert(lines.subrange(4, lines.len() as int) =~= all_lines(f.hunks) + more);
    lemma_hunks_round_trip(f.hunks, more);
}

/// Counting more hunks never counts fewer lines.
pub proof fn lemma_hunk_lines_grow(hunks: Seq<HunkView>, k: int)
    requires
        0 <= k <= hunks.len(),
    ensures
        hunk_lines(hunks.subrange(0, k)) <= hunk_lines(hunks),
    decreases hunks.len() - k,
{
    if k < hunks.len() {
        lemma_hunk_lines_grow(hunks, k + 1);
        assert(hunks.subrange(0, k + 1).drop_last() =~= hunks.subrange(0, k));
    } else {
        assert(hunks.subrange(0, k) =~= hunks);
    }
}

} // verus!
