//! A hunk: a range header and the body lines it describes.

pub mod handed;
pub mod header;
pub mod info_iter;
pub mod info_source;
pub mod iter_info;
pub mod line_iter;
pub mod merge;
pub mod merge_iter;

use crate::error::{MergeErr, ParseErr, merge_err, parse_err};
use crate::fuse::info_source::{Side, Streams, settle};
use crate::fuse::kernel::{emitted_by, fuse, fused, run};
use crate::fuse::line::LineView;
use crate::hand::Hand;
use crate::hunk::header::{
    Header, Quad, fused_start, header_of, header_text, lemma_header_round_trip, meets, moved,
    overlap, quad_wf,
};
use crate::hunk::info_source::{InfoSource, pair_streams};
use crate::info::{Info, handed_views, info_views, iter_info, ranked_infos};
use crate::lines::Lines;
use crate::tags::{
    all_body_tags, count_after, count_before, count_tag, is_body_tag, lemma_tagged_bounds, line_tag,
    payload, tag, tagged,
};
use crate::text::{ref_views, views};
use core::cmp::Ordering;
use vstd::prelude::*;

verus! {

/// A range header and the body lines it describes. The header is kept as
/// numbers and, as the first of the lines, as text.
#[derive(Clone, Debug)]
pub struct Hunk {
    _lines: Vec<String>,
    _header: Header,
}

/// A hunk as a mathematical value: its header and its lines, the first of
/// which is the header as text.
pub struct HunkView {
    pub header: Quad,
    pub lines: Seq<Seq<char>>,
}

/// Whether a body is made of tagged lines and spans as many lines on each
/// side as the header says.
pub open spec fn body_ok(q: Quad, body: Seq<Seq<char>>) -> bool {
    &&& all_body_tags(body)
    &&& count_before(body) == q.b
    &&& count_after(body) == q.d
}

/// Net number of lines a body adds.
pub open spec fn delta(body: Seq<Seq<char>>) -> int {
    count_tag(body, '+') - count_tag(body, '-')
}

/// How many lines at the start of `lines` carry a body tag.
pub open spec fn body_len(lines: Seq<Seq<char>>) -> int
    decreases lines.len(),
{
    if lines.len() > 0 && is_body_tag(tag(lines[0])) {
        1 + body_len(lines.drop_first())
    } else {
        0
    }
}

/// The hunk that stands at the start of `lines`: a header line, then body
/// lines up to the first line without a body tag. `None` where there is no
/// header line, where its ranges are out of reach, or where the body does
/// not span what the header says.
pub open spec fn hunk_of(lines: Seq<Seq<char>>) -> Option<HunkView> {
    if lines.len() == 0 {
        None
    } else {
        match header_of(lines[0]) {
            None => None,
            Some(q) => {
                let n = body_len(lines.subrange(1, lines.len() as int));
                if quad_wf(q) && body_ok(q, lines.subrange(1, 1 + n)) {
                    Some(HunkView { header: q, lines: lines.subrange(0, 1 + n) })
                } else {
                    None
                }
            },
        }
    }
}

/// The fusion of a left and a right hunk: `None` where the two do not
/// meet or do not fit together.
pub open spec fn hunk_fused(l: HunkView, r: HunkView) -> Option<HunkView> {
    if !meets(l.header, r.header) {
        None
    } else {
        match fused(fused_start(l.header, r.header), pair_streams(l, r)) {
            Some(pair) => Some(pair.0),
            None => None,
        }
    }
}

impl HunkView {
    /// The lines after the header line.
    pub open spec fn body(self) -> Seq<Seq<char>> {
        self.lines.subrange(1, self.lines.len() as int)
    }

    /// Net number of lines the hunk adds.
    pub open spec fn delta(self) -> int {
        delta(self.body())
    }

    /// The first line is the header, the header's ranges are in reach, and
    /// the body spans what the header says.
    pub open spec fn wf(self) -> bool {
        &&& self.lines.len() >= 1
        &&& header_of(self.lines[0]) == Some(self.header)
        &&& quad_wf(self.header)
        &&& body_ok(self.header, self.body())
    }

    /// The hunk with its header moved and written anew.
    pub open spec fn moved(self, left: int, right: int) -> HunkView {
        let q = moved(self.header, left, right);
        HunkView { header: q, lines: seq![header_text(q)] + self.body() }
    }
}

impl View for Hunk {
    type V = HunkView;

    closed spec fn view(&self) -> HunkView {
        HunkView { header: self._header.quad(), lines: views(self._lines@) }
    }
}

/// The body ends at the first line without a body tag.
pub proof fn lemma_body_len(lines: Seq<Seq<char>>, k: int)
    requires
        0 <= k <= lines.len(),
        forall|j: int| 0 <= j < k ==> is_body_tag(tag(#[trigger] lines[j])),
        k == lines.len() || !is_body_tag(tag(lines[k])),
    ensures
        body_len(lines) == k,
    decreases lines.len(),
{
    if k > 0 {
        let t = lines.drop_first();
        assert(is_body_tag(tag(lines[0])));
        assert forall|j: int| 0 <= j < k - 1 implies is_body_tag(tag(#[trigger] t[j])) by {
            assert(t[j] == lines[j + 1]);
        }
        lemma_body_len(t, k - 1);
    }
}

/// A valid header over a body that spans what it says makes a valid hunk.
pub proof fn lemma_built_wf(q: Quad, body: Seq<Seq<char>>)
    requires
        quad_wf(q),
        body_ok(q, body),
    ensures
        (HunkView { header: q, lines: seq![header_text(q)] + body }).wf(),
{
    lemma_header_round_trip(q);
    let v = HunkView { header: q, lines: seq![header_text(q)] + body };
    assert(v.body() =~= body);
}

impl Hunk {
    /// The hunk is valid as a mathematical value.
    pub open spec fn wf(&self) -> bool {
        self@.wf()
    }

    /// A hunk with the given header and body. The header is written as the
    /// first line.
    pub fn new(_header: Header, _lines: Vec<String>) -> (h: Hunk)
        ensures
            h@ == (HunkView {
                header: _header.quad(),
                lines: seq![header_text(_header.quad())] + views(_lines@),
            }),
            _header.wf() && body_ok(_header.quad(), views(_lines@)) ==> h.wf(),
    {
        let mut _lines = _lines;
        let ghost body = views(_lines@);
        _lines.insert(0, _header.to_string());
        assert(views(_lines@) =~= seq![header_text(_header.quad())] + body);
        proof {
            if _header.wf() && body_ok(_header.quad(), body) {
                lemma_built_wf(_header.quad(), body);
            }
        }
        Hunk { _header, _lines }
    }

    /// Orders hunks as their headers are ordered.
    pub fn cmp(&self, other: &Hunk) -> (o: Ordering)
        ensures
            o == Ordering::Less <==> self.key() < other.key(),
            o == Ordering::Greater <==> self.key() > other.key(),
            o == Ordering::Equal <==> self.key() == other.key(),
    {
        self._header.cmp(&other._header)
    }

    /// The key hunks are ordered by: the smaller of the two starts.
    pub closed spec fn key(&self) -> int {
        self._header.key()
    }

    /// The key is the smaller of the two starts.
    pub proof fn lemma_key(&self)
        ensures
            self.key() == crate::hunk::header::least(self@.header.a, self@.header.c),
    {
    }

    /// Reads one hunk: the header line, then body lines up to the first
    /// line that does not carry a body tag, which is left in place.
    pub fn from_lines(lines: &mut Lines) -> (r: Result<Hunk, ParseErr>)
        ensures
            match hunk_of(old(lines).rest()) {
                Some(v) => {
                    &&& r is Ok
                    &&& r->Ok_0@ == v
                    &&& r->Ok_0.wf()
                    &&& final(lines).rest() == old(lines).rest().subrange(
                        v.lines.len() as int,
                        old(lines).rest().len() as int,
                    )
                },
                None => r is Err,
            },
    {
        let ghost all = lines.rest();
        let _header = match lines.peek() {
            None => {
                return Err(parse_err("Cannot parse hunk: line iterator empty", "", ""));
            },
            Some(line) => match Header::parse(line.as_str()) {
                Ok(h) => h,
                Err(e) => {
                    return Err(e);
                },
            },
        };
        if !_header.valid() {
            return Err(parse_err("Hunk header out of range: ", _header.to_string().as_str(), ""));
        }
        let mut _lines: Vec<String> = Vec::new();
        match lines.next() {
            Some(line) => {
                _lines.push(line);
            },
            None => {},
        }
        let ghost tail = all.subrange(1, all.len() as int);
        assert(lines.rest() =~= tail);
        assert(views(_lines@) =~= all.subrange(0, 1));
        let mut minus: i64 = 0;
        let mut plus: i64 = 0;
        let ghost mut k: int = 0;
        loop
            invariant
                all == old(lines).rest(),
                all.len() >= 1,
                header_of(all[0]) == Some(_header.quad()),
                tail == all.subrange(1, all.len() as int),
                0 <= k <= tail.len(),
                lines.rest() == tail.subrange(k as int, tail.len() as int),
                views(_lines@) == all.subrange(0, 1 + k),
                forall|j: int| 0 <= j < k ==> is_body_tag(tag(#[trigger] tail[j])),
                minus == tagged(tail, '-', k as int) + tagged(tail, ' ', k as int),
                plus == tagged(tail, '+', k as int) + tagged(tail, ' ', k as int),
                0 <= minus <= _header.fields[1],
                0 <= plus <= _header.fields[3],
                _header.wf(),
            ensures
                0 <= k <= tail.len(),
                k == body_len(tail),
                lines.rest() == tail.subrange(k as int, tail.len() as int),
                views(_lines@) == all.subrange(0, 1 + k),
                minus == tagged(tail, '-', k as int) + tagged(tail, ' ', k as int),
                plus == tagged(tail, '+', k as int) + tagged(tail, ' ', k as int),
            decreases tail.len() - k,
        {
            let t = match lines.peek() {
                None => {
                    proof {
                        lemma_body_len(tail, k as int);
                    }
                    break ;
                },
                Some(line) => line_tag(line.as_str()),
            };
            assert(t == tag(tail[k as int]));
            if !(t == '-' || t == '+' || t == ' ') {
                proof {
                    lemma_body_len(tail, k as int);
                }
                break ;
            }
            if (t != '+' && minus == _header.fields[1]) || (t != '-' && plus == _header.fields[3]) {
                proof {
                    Self::lemma_too_long(_header.quad(), tail, k as int);
                    assert(all.subrange(1, 1 + body_len(tail)) =~= tail.subrange(0,
                        body_len(tail))) by {
                        lemma_body_len_bounds(tail);
                    }
                }
                return Err(parse_err("Hunk validation failed: too many lines under ",
                    _header.to_string().as_str(), ""));
            }
            if t != '+' {
                minus = minus + 1;
            }
            if t != '-' {
                plus = plus + 1;
            }
            let ghost before = views(_lines@);
            match lines.next() {
                Some(line) => {
                    _lines.push(line);
                },
                None => {},
            }
            assert(views(_lines@) =~= before.push(tail[k as int]));
            assert(before.push(tail[k as int]) =~= all.subrange(0, 1 + k + 1));
            assert(lines.rest() =~= tail.subrange(k + 1, tail.len() as int));
            proof {
                k = k + 1;
            }
        }
        let ghost body = all.subrange(1, 1 + k);
        proof {
            Self::lemma_prefix_counts(tail, k as int);
            assert(body =~= tail.subrange(0, k as int));
            assert(all_body_tags(body)) by {
                lemma_body_tags(tail, k as int);
            }
            assert(tail.subrange(k as int, tail.len() as int) =~= all.subrange(1 + k,
                all.len() as int));
        }
        if minus != _header.fields[1] || plus != _header.fields[3] {
            return Err(parse_err("Hunk validation failed: line count differs from ",
                _header.to_string().as_str(), ""));
        }
        let hunk = Hunk { _lines, _header };
        assert(hunk@.body() =~= body);
        Ok(hunk)
    }

    /// Once a side holds what the header allows, one more line on that side
    /// rules the hunk out.
    proof fn lemma_too_long(q: Quad, tail: Seq<Seq<char>>, k: int)
        requires
            0 <= k < tail.len(),
            is_body_tag(tag(tail[k])),
            (tag(tail[k]) != '+' && tagged(tail, '-', k) + tagged(tail, ' ', k) == q.b) || (tag(
                tail[k],
            ) != '-' && tagged(tail, '+', k) + tagged(tail, ' ', k) == q.d),
            forall|j: int| 0 <= j < k ==> is_body_tag(tag(#[trigger] tail[j])),
        ensures
            !body_ok(q, tail.subrange(0, body_len(tail))),
    {
        lemma_body_len_bounds(tail);
        let n = body_len(tail);
        lemma_body_len_reaches(tail, k);
        let body = tail.subrange(0, n);
        Self::lemma_prefix_counts(tail, n);
        lemma_tagged_monotone(tail, '-', k + 1, n);
        lemma_tagged_monotone(tail, ' ', k + 1, n);
        lemma_tagged_monotone(tail, '+', k + 1, n);
    }

    /// The counts of a prefix taken as a body.
    proof fn lemma_prefix_counts(tail: Seq<Seq<char>>, k: int)
        requires
            0 <= k <= tail.len(),
        ensures
            count_tag(tail.subrange(0, k), '-') == tagged(tail, '-', k),
            count_tag(tail.subrange(0, k), '+') == tagged(tail, '+', k),
            count_tag(tail.subrange(0, k), ' ') == tagged(tail, ' ', k),
    {
        crate::tags::lemma_tagged_prefix(tail.subrange(0, k), tail, '-', k);
        crate::tags::lemma_tagged_prefix(tail.subrange(0, k), tail, '+', k);
        crate::tags::lemma_tagged_prefix(tail.subrange(0, k), tail, ' ', k);
    }

    /// The range header.
    pub fn header(&self) -> (h: &Header)
        ensures
            h.quad() == self@.header,
    {
        &self._header
    }

    /// The body lines, in order.
    pub fn body_iter(&self) -> (b: Vec<&String>)
        requires
            self@.lines.len() >= 1,
        ensures
            ref_views(b@) == self@.body(),
    {
        let mut b: Vec<&String> = Vec::new();
        let mut i: usize = 1;
        assert(ref_views(b@) =~= self@.lines.subrange(1, 1));
        while i < self._lines.len()
            invariant
                1 <= i <= self._lines.len(),
                ref_views(b@) == self@.lines.subrange(1, i as int),
            decreases self._lines.len() - i,
        {
            let ghost seen = ref_views(b@);
            b.push(&self._lines[i]);
            assert(ref_views(b@) =~= seen.push(self._lines[i as int]@));
            i = i + 1;
            assert(ref_views(b@) =~= self@.lines.subrange(1, i as int));
        }
        b
    }

    /// All lines of the hunk, the header first.
    pub fn lines(&self) -> (l: &Vec<String>)
        ensures
            views(l@) == self@.lines,
    {
        &self._lines
    }

    /// The header and the body, parted.
    pub fn unpack(self) -> (r: (Header, Vec<String>))
        requires
            self@.lines.len() >= 1,
        ensures
            r.0.quad() == self@.header,
            views(r.1@) == self@.body(),
    {
        let mut lines = self._lines;
        lines.remove(0);
        assert(views(lines@) =~= self@.body());
        (self._header, lines)
    }

    /// The header as four numbers without sign, and the lines of the body
    /// with their ranks, all read as lines of `hand`. `None` where a
    /// number cannot be held.
    pub fn into_info(self, hand: Hand) -> (r: Option<([usize; 4], Vec<Info>)>)
        requires
            self.wf(),
        ensures
            match r {
                Some(found) => ranks_in_reach(self@) && found.0 == header_nums(self@.header)
                    && info_views(found.1@) == ranked_infos(found.0, of_hand(hand, self@.body())),
                None => !ranks_in_reach(self@),
            },
    {
        let n = self._lines.len() - 1;
        let ghost body = self@.body();
        proof {
            crate::tags::lemma_two_tags(body, '-', ' ', body.len() as int);
            crate::tags::lemma_two_tags(body, '+', ' ', body.len() as int);
        }
        let limit: u128 = usize::MAX as u128;
        if self._header.fields[0] as u128 + n as u128 > limit || self._header.fields[2] as u128
            + n as u128 > limit {
            return None;
        }
        let (header, lines) = self.into_data();
        assert(header =~= header_nums(self@.header));
        let mut stack = crate::text::reversed(lines);
        let mut handed: Vec<(Hand, String)> = Vec::new();
        while stack.len() > 0
            invariant
                body.len() == n,
                stack.len() <= n,
                forall|j: int| 0 <= j < stack.len() ==> (#[trigger] stack[j])@ == body[n - 1 - j],
                handed.len() == n - stack.len(),
                forall|j: int| 0 <= j < handed.len() ==> (#[trigger] handed[j]).0 == hand,
                forall|j: int| 0 <= j < handed.len() ==> (#[trigger] handed[j]).1@ == body[j],
            decreases stack.len(),
        {
            match stack.pop() {
                Some(line) => {
                    handed.push((hand, line));
                },
                None => {},
            }
        }
        assert(handed_views(handed@) =~= of_hand(hand, body));
        Some((header, iter_info(&header, handed)))
    }

    /// The header as four numbers without sign, and the body.
    pub fn into_data(self) -> (r: ([usize; 4], Vec<String>))
        requires
            self.wf(),
            self@.header.a <= usize::MAX,
            self@.header.b <= usize::MAX,
            self@.header.c <= usize::MAX,
            self@.header.d <= usize::MAX,
        ensures
            r.0[0] == self@.header.a,
            r.0[1] == self@.header.b,
            r.0[2] == self@.header.c,
            r.0[3] == self@.header.d,
            views(r.1@) == self@.body(),
    {
        let (header, lines) = self.unpack();
        (
            [
                header.fields[0] as usize,
                header.fields[1] as usize,
                header.fields[2] as usize,
                header.fields[3] as usize,
            ],
            lines,
        )
    }

    /// Whether the two hunks share a line before the change or after it.
    pub fn overlaps(&self, other: &Hunk) -> (r: bool)
        ensures
            r == overlap(self@.header, other@.header),
    {
        self._header.overlaps(&other._header)
    }

    /// The hunk with its two starts moved; the body stays. Fails where the
    /// moved header is not valid.
    pub fn with_offset(self, left: i64, right: i64) -> (r: Result<Hunk, MergeErr>)
        requires
            self.wf(),
        ensures
            r is Ok <==> quad_wf(moved(self@.header, left as int, right as int)),
            r is Ok ==> r->Ok_0@ == self@.moved(left as int, right as int) && r->Ok_0.wf(),
    {
        let _header = match self._header.with_offset(left, right) {
            Ok(h) => h,
            Err(e) => {
                return Err(e);
            },
        };
        if !_header.valid() {
            return Err(merge_err("Tried to offset header ", self._header.to_string().as_str(), ""));
        }
        let mut _lines = self._lines;
        _lines.set(0, _header.to_string());
        let moved = Hunk { _header, _lines };
        proof {
            assert(moved@.lines =~= seq![header_text(_header.quad())] + self@.body());
            lemma_built_wf(_header.quad(), self@.body());
        }
        Ok(moved)
    }

    /// Net number of lines the hunk adds.
    pub fn offset(&self) -> (r: i64)
        requires
            self.wf(),
        ensures
            r == self@.delta(),
    {
        let ghost body = self@.body();
        let mut num_added: i64 = 0;
        let mut num_removed: i64 = 0;
        let mut i: usize = 1;
        while i < self._lines.len()
            invariant
                1 <= i <= self._lines.len(),
                self.wf(),
                body == self@.body(),
                num_added == tagged(body, '+', i - 1),
                num_removed == tagged(body, '-', i - 1),
            decreases self._lines.len() - i,
        {
            let t = line_tag(self._lines[i].as_str());
            proof {
                assert(body[i - 1] == self._lines[i as int]@);
                lemma_tagged_monotone(body, '+', i as int, body.len() as int);
                lemma_tagged_monotone(body, '-', i as int, body.len() as int);
                lemma_tagged_bounds(body, ' ', body.len() as int);
            }
            if t == '-' {
                num_removed = num_removed + 1;
            }
            if t == '+' {
                num_added = num_added + 1;
            }
            i = i + 1;
        }
        proof {
            lemma_tagged_bounds(body, ' ', body.len() as int);
            lemma_tagged_bounds(body, '+', body.len() as int);
            lemma_tagged_bounds(body, '-', body.len() as int);
        }
        num_added - num_removed
    }

    /// Fuses `self`, a hunk of the first diff, with `other`, a hunk of the
    /// second. Fails where what `self` leaves behind does not meet what
    /// `other` starts from, and where the two do not fit together.
    pub fn fuse(self, other: Hunk) -> (r: Result<Hunk, MergeErr>)
        requires
            self.wf(),
            other.wf(),
        ensures
            match hunk_fused(self@, other@) {
                Some(v) => r is Ok && r->Ok_0@ == v && r->Ok_0.wf(),
                None => r is Err,
            },
            r is Ok ==> r->Ok_0@.delta() == self@.delta() + other@.delta(),
    {
        proof {
            lemma_hunk_fused_delta(self@, other@);
        }
        if !self._header.should_fuse(&other._header) {
            return Err(
                merge_err(
                    "Expected hunks to overlap, but they do not: ",
                    self._header.to_string().as_str(),
                    "",
                ),
            );
        }
        let start = self._header.fuse(&other._header);
        match fuse(start, InfoSource::new(self, other)) {
            Ok(pair) => Ok(pair.0),
            Err(e) => Err(e),
        }
    }

    /// A copy of the hunk.
    pub fn duplicate(&self) -> (h: Hunk)
        ensures
            h@ == self@,
    {
        let mut lines: Vec<String> = Vec::new();
        let mut i: usize = 0;
        while i < self._lines.len()
            invariant
                i <= self._lines.len(),
                lines.len() == i,
                forall|j: int| 0 <= j < i ==> lines[j]@ == self._lines[j]@,
            decreases self._lines.len() - i,
        {
            lines.push(self._lines[i].clone());
            i = i + 1;
        }
        let h = Hunk { _lines: lines, _header: self._header };
        assert(h@.lines =~= self@.lines);
        h
    }

    /// The header line.
    pub fn to_string(&self) -> (s: String)
        requires
            self@.lines.len() >= 1,
        ensures
            s@ == self@.lines[0],
    {
        self._lines[0].clone()
    }
}

/// Offset conservation: the fusion of two hunks adds as many lines as the
/// two add together.
pub proof fn lemma_hunk_fused_delta(l: HunkView, r: HunkView)
    ensures
        match hunk_fused(l, r) {
            Some(v) => v.delta() == l.delta() + r.delta(),
            None => true,
        },
{
    let from = pair_streams(l, r);
    let start = fused_start(l.header, r.header);
    crate::fuse::kernel::lemma_fused_delta(start, from);
    crate::fuse::kernel::lemma_run_rests(from);
    if hunk_fused(l, r) is Some {
        let end = fused(start, from).unwrap().1;
        assert(crate::fuse::kernel::stream_texts(from.left.cur) =~= l.body());
        assert(crate::fuse::kernel::stream_texts(from.right.cur) =~= r.body());
        assert(crate::fuse::kernel::stream_texts(end.left.cur) =~= Seq::<Seq<char>>::empty());
        assert(crate::fuse::kernel::stream_texts(end.right.cur) =~= Seq::<Seq<char>>::empty());
        assert(end.left.rest =~= Seq::<HunkView>::empty());
        assert(end.right.rest =~= Seq::<HunkView>::empty());
    }
}

/// The four numbers of a header, without sign.
pub open spec fn header_nums(q: Quad) -> [usize; 4] {
    [q.a as usize, q.b as usize, q.c as usize, q.d as usize]
}

/// Lines that all come from one hand.
pub open spec fn of_hand(hand: Hand, lines: Seq<Seq<char>>) -> Seq<(Hand, Seq<char>)> {
    Seq::new(lines.len(), |i: int| (hand, lines[i]))
}

/// Whether the numbers of a hunk's header and the ranks of its lines can
/// be held without sign.
pub open spec fn ranks_in_reach(h: HunkView) -> bool {
    h.header.a + h.body().len() <= usize::MAX && h.header.c + h.body().len() <= usize::MAX
}

/// A line with its tag turned round: added for removed and removed for
/// added. A context line stays as it is.
pub open spec fn flipped(line: Seq<char>) -> Seq<char> {
    if tag(line) == '+' {
        seq!['-'] + payload(line)
    } else if tag(line) == '-' {
        seq!['+'] + payload(line)
    } else {
        line
    }
}

/// The hunk that undoes `h`: the two sides of the header change places
/// and every line has its tag turned round.
pub open spec fn inverse(h: HunkView) -> HunkView {
    let q = Quad { a: h.header.c, b: h.header.d, c: h.header.a, d: h.header.b };
    HunkView {
        header: q,
        lines: seq![header_text(q)] + Seq::new(h.body().len(), |i: int| flipped(h.body()[i])),
    }
}

/// Whether every line of a body is an added line.
pub open spec fn only_added(body: Seq<Seq<char>>) -> bool {
    forall|i: int| 0 <= i < body.len() ==> tag(#[trigger] body[i]) == '+'
}

/// The hunk that changes nothing: no line on either side, no body.
pub open spec fn no_op() -> HunkView {
    let q = Quad { a: 0, b: 0, c: 0, d: 0 };
    HunkView { header: q, lines: seq![header_text(q)] }
}

/// Whether `l` adds the line that `r` removes, at the same rank.
pub open spec fn cancel(l: LineView, r: LineView) -> bool {
    &&& tag(l.text) == '+'
    &&& tag(r.text) == '-'
    &&& payload(l.text) == payload(r.text)
    &&& l.rank == r.rank
}

/// Two streams of equal length in which each added line of the left meets
/// the same line, removed, on the right: nothing is emitted.
proof fn lemma_cancel(l: Side, r: Side)
    requires
        l.rest.len() == 0,
        r.rest.len() == 0,
        l.cur.len() == r.cur.len(),
        forall|i: int| 0 <= i < l.cur.len() ==> cancel(#[trigger] l.cur[i], r.cur[i]),
    ensures
        run(Streams { left: l, right: r }) is Some,
        emitted_by(run(Streams { left: l, right: r })) == Seq::<Seq<char>>::empty(),
    decreases l.cur.len(),
{
    let s = Streams { left: l, right: r };
    assert(settle(s) == s);
    if l.cur.len() > 0 {
        let next = crate::fuse::kernel::pop_right(crate::fuse::kernel::pop_left(s));
        assert(tag(l.cur[0].text) == '+');
        assert forall|i: int| 0 <= i < next.left.cur.len() implies cancel(
            #[trigger] next.left.cur[i],
            next.right.cur[i],
        ) by {
            assert(next.left.cur[i] == l.cur[i + 1]);
            assert(next.right.cur[i] == r.cur[i + 1]);
        }
        lemma_cancel(next.left, next.right);
        assert(Seq::<Seq<char>>::empty() + emitted_by(run(next)) =~= Seq::<Seq<char>>::empty());
    }
}

/// In a body of added lines each line moves the rank of the next.
proof fn lemma_advanced_all(body: Seq<Seq<char>>, kind: char, k: int)
    requires
        0 <= k <= body.len(),
        forall|i: int| 0 <= i < body.len() ==> tag(#[trigger] body[i]) == kind,
    ensures
        crate::fuse::line::advanced(body, kind, k) == k,
    decreases k,
{
    if k > 0 {
        lemma_advanced_all(body, kind, k - 1);
    }
}

/// Revert collapse: a hunk that only adds lines, fused with the hunk that
/// undoes it, gives the hunk that changes nothing.
pub proof fn lemma_revert_collapse(h: HunkView)
    requires
        h.wf(),
        h.body().len() > 0,
        only_added(h.body()),
    ensures
        hunk_fused(h, inverse(h)) == Some(no_op()),
{
    let inv = inverse(h);
    let body = h.body();
    let back = inv.body();
    let n = body.len() as int;
    assert(back =~= Seq::new(body.len(), |i: int| flipped(body[i])));
    assert forall|i: int| 0 <= i < n implies tag(#[trigger] back[i]) == '-' && payload(back[i])
        == payload(body[i]) by {
        assert(tag(body[i]) == '+');
        assert(back[i] == seq!['-'] + payload(body[i]));
        assert(payload(back[i]) =~= payload(body[i]));
    }
    lemma_tagged_bounds(body, ' ', n);
    assert(tagged(body, '+', n) >= 1) by {
        assert(tag(body[n - 1]) == '+');
        lemma_tagged_bounds(body, '+', n - 1);
    }
    assert(meets(h.header, inv.header));
    let from = pair_streams(h, inv);
    assert forall|i: int| 0 <= i < from.left.cur.len() implies cancel(
        #[trigger] from.left.cur[i],
        from.right.cur[i],
    ) by {
        lemma_advanced_all(body, '+', i);
        lemma_advanced_all(back, '-', i);
        assert(tag(back[i]) == '-');
    }
    lemma_cancel(from.left, from.right);
    let q = Quad { a: 0, b: 0, c: 0, d: 0 };
    let emitted = Seq::<Seq<char>>::empty();
    assert(crate::fuse::kernel::arrange(emitted) =~= emitted);
    assert(seq![header_text(q)] + emitted =~= seq![header_text(q)]);
}

/// A valid hunk is read back from its lines, whatever follows them, as
/// long as what follows does not start with a body line.
pub proof fn lemma_hunk_round_trip(h: HunkView, more: Seq<Seq<char>>)
    requires
        h.wf(),
        more.len() == 0 || !is_body_tag(tag(more[0])),
    ensures
        hunk_of(h.lines + more) == Some(h),
{
    let lines = h.lines + more;
    let body = h.body();
    let n = body.len() as int;
    let tail = lines.subrange(1, lines.len() as int);
    assert(lines[0] == h.lines[0]);
    assert(tail =~= body + more);
    assert forall|j: int| 0 <= j < n implies is_body_tag(tag(#[trigger] tail[j])) by {
        assert(tail[j] == body[j]);
    }
    if n < tail.len() {
        assert(tail[n] == more[0]);
    }
    lemma_body_len(tail, n);
    assert(lines.subrange(1, 1 + n) =~= body);
    assert(lines.subrange(0, 1 + n) =~= h.lines);
}

/// The body is no longer than the lines.
pub proof fn lemma_body_len_bounds(lines: Seq<Seq<char>>)
    ensures
        0 <= body_len(lines) <= lines.len(),
    decreases lines.len(),
{
    if lines.len() > 0 && is_body_tag(tag(lines[0])) {
        lemma_body_len_bounds(lines.drop_first());
    }
}

/// Lines before the end of the body carry body tags.
pub proof fn lemma_body_tags(lines: Seq<Seq<char>>, k: int)
    requires
        0 <= k <= body_len(lines),
    ensures
        k <= lines.len(),
        all_body_tags(lines.subrange(0, k)),
    decreases lines.len(),
{
    lemma_body_len_bounds(lines);
    if k > 0 {
        let t = lines.drop_first();
        lemma_body_tags(t, k - 1);
        assert forall|i: int| 0 <= i < k implies is_body_tag(tag(#[trigger] lines.subrange(0,
            k)[i])) by {
            if i > 0 {
                assert(lines.subrange(0, k)[i] == t.subrange(0, k - 1)[i - 1]);
            }
        }
    }
}

/// A run of tagged lines that reaches past `k` makes the body longer than `k`.
pub proof fn lemma_body_len_reaches(lines: Seq<Seq<char>>, k: int)
    requires
        0 <= k < lines.len(),
        forall|j: int| 0 <= j <= k ==> is_body_tag(tag(#[trigger] lines[j])),
    ensures
        body_len(lines) > k,
    decreases lines.len(),
{
    lemma_body_len_bounds(lines.drop_first());
    if k > 0 {
        let t = lines.drop_first();
        assert forall|j: int| 0 <= j <= k - 1 implies is_body_tag(tag(#[trigger] t[j])) by {
            assert(t[j] == lines[j + 1]);
        }
        lemma_body_len_reaches(t, k - 1);
    } else {
        assert(is_body_tag(tag(lines[0])));
    }
}

/// More lines carry a tag no less often.
pub proof fn lemma_tagged_monotone(lines: Seq<Seq<char>>, t: char, i: int, j: int)
    requires
        0 <= i <= j,
    ensures
        tagged(lines, t, i) <= tagged(lines, t, j),
    decreases j - i,
{
    if i < j {
        lemma_tagged_monotone(lines, t, i, j - 1);
    }
}

} // verus!
