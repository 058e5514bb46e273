//! The range header of a hunk: `@@ -a,b +c,d @@`.
//!
//! `a` and `c` are the first lines the hunk touches before and after the
//! change, `b` and `d` the number of lines it spans on each side.

use crate::decimal::{
    decimal, int_text, is_digit, lemma_decimal_digits, lemma_number_of_decimal, number,
    parse_number, push_int,
};
use crate::error::{MergeErr, ParseErr, merge_err, parse_err};
use crate::text::{find, from_chars, index_of, lemma_index_of, to_chars};
use core::cmp::Ordering;
use vstd::prelude::*;

verus! {

/// The four numbers of a range header: start and count before the change,
/// start and count after it.
#[derive(Clone, Copy, Debug, PartialEq, Eq)]
pub struct Header {
    pub fields: [i64; 4],
}

/// The four numbers of a header as mathematical integers.
pub struct Quad {
    pub a: int,
    pub b: int,
    pub c: int,
    pub d: int,
}

/// A group without its leading `-` or `+`, if it has one.
pub open spec fn unsigned(group: Seq<char>) -> Seq<char> {
    if group.len() > 0 && (group[0] == '-' || group[0] == '+') {
        group.drop_first()
    } else {
        group
    }
}

/// Start and count written in one group `[-|+]start[,count]`; a missing
/// count is 1.
pub open spec fn range_of(group: Seq<char>) -> Option<(int, int)> {
    let t = unsigned(group);
    let k = index_of(t, ',');
    if k == t.len() {
        match number(t) {
            Some(start) => Some((start, 1int)),
            None => None,
        }
    } else {
        match (number(t.subrange(0, k)), number(t.subrange(k + 1, t.len() as int))) {
            (Some(start), Some(count)) => Some((start, count)),
            _ => None,
        }
    }
}

/// The header a line denotes: `@@ `, two groups parted by one space, ` @@`.
pub open spec fn header_of(line: Seq<char>) -> Option<Quad> {
    let n = line.len() as int;
    let opening = seq!['@', '@', ' '];
    let closing = seq![' ', '@', '@'];
    if n >= 6 && line.subrange(0, 3) == opening && line.subrange(n - 3, n) == closing {
        let inner = line.subrange(3, n - 3);
        let k = index_of(inner, ' ');
        if k < inner.len() {
            match (range_of(inner.subrange(0, k)), range_of(inner.subrange(k + 1,
                inner.len() as int))) {
                (Some(minus), Some(plus)) => Some(
                    Quad { a: minus.0, b: minus.1, c: plus.0, d: plus.1 },
                ),
                _ => None,
            }
        } else {
            None
        }
    } else {
        None
    }
}

/// One side of a header as text: the start, then the count unless it is 1.
pub open spec fn range_text(start: int, count: int) -> Seq<char> {
    if count == 1 {
        int_text(start)
    } else {
        int_text(start) + seq![','] + int_text(count)
    }
}

/// The canonical text of a header.
pub open spec fn header_text(q: Quad) -> Seq<char> {
    let before = seq!['@', '@', ' ', '-'] + range_text(q.a, q.b);
    let after = seq![' ', '+'] + range_text(q.c, q.d);
    before + after + seq![' ', '@', '@']
}

/// Whether `[s1, s1 + n1)` and `[s2, s2 + n2)` share a line. An empty range
/// shares nothing.
pub open spec fn ranges_meet(s1: int, n1: int, s2: int, n2: int) -> bool {
    n1 > 0 && n2 > 0 && s1 < s2 + n2 && s2 < s1 + n1
}

/// Whether two headers share a line before the change or after it.
pub open spec fn overlap(l: Quad, r: Quad) -> bool {
    ranges_meet(l.a, l.b, r.a, r.b) || ranges_meet(l.c, l.d, r.c, r.d)
}

/// Whether the lines a left header leaves behind meet the lines a right
/// header starts from.
pub open spec fn meets(l: Quad, r: Quad) -> bool {
    ranges_meet(l.c, l.d, r.a, r.b)
}

/// No field is negative, and the line after each range has a number.
pub open spec fn quad_wf(q: Quad) -> bool {
    &&& q.a >= 0
    &&& q.b >= 0
    &&& q.c >= 0
    &&& q.d >= 0
    &&& q.a + q.b <= i64::MAX
    &&& q.c + q.d <= i64::MAX
}

/// The header moved by `left` lines before the change and `right` after.
pub open spec fn moved(q: Quad, left: int, right: int) -> Quad {
    Quad { a: q.a + left, b: q.b, c: q.c + right, d: q.d }
}

/// How far the first line of a hunk has moved: where the hunk starts
/// after the change minus where it starts before. A side that spans no
/// line names the line before the hunk, so the hunk starts one line on.
pub open spec fn shift(q: Quad) -> int {
    (q.c + (if q.d == 0 { 1int } else { 0int })) - (q.a + (if q.b == 0 { 1int } else { 0int }))
}

/// The smaller of two numbers.
pub open spec fn least(x: int, y: int) -> int {
    if x <= y {
        x
    } else {
        y
    }
}

/// Header under which the fusion of a left and a right hunk starts. The
/// counts are zero. Where one of the two spans no line before the change,
/// the pre-image starts where the other starts; else it starts at the
/// left start or at the right start moved back by the shift of the left
/// hunk, whichever is less. The post-image likewise: the left start
/// moved on by the shift of the right hunk, or the right start.
pub open spec fn fused_start(l: Quad, r: Quad) -> Quad {
    Quad {
        a: if l.b != 0 && r.b == 0 {
            l.a
        } else if l.b == 0 && r.b != 0 {
            r.a
        } else {
            least(l.a, r.a - shift(l))
        },
        b: 0,
        c: if l.d != 0 && r.d == 0 {
            l.c
        } else if l.d == 0 && r.d != 0 {
            r.c
        } else {
            least(l.c + shift(r), r.c)
        },
        d: 0,
    }
}

impl From<[i64; 4]> for Header {
    fn from(fields: [i64; 4]) -> (h: Header) {
        Header { fields }
    }
}

impl vstd::std_specs::convert::FromSpecImpl<[i64; 4]> for Header {
    open spec fn obeys_from_spec() -> bool {
        true
    }

    open spec fn from_spec(fields: [i64; 4]) -> Header {
        Header { fields }
    }
}

impl Default for Header {
    /// The header that spans nothing and starts at zero.
    fn default() -> (h: Header)
        ensures
            h.quad() == (Quad { a: 0, b: 0, c: 0, d: 0 }),
    {
        Header { fields: [0, 0, 0, 0] }
    }
}

impl Header {
    /// The four numbers as mathematical integers.
    pub open spec fn quad(&self) -> Quad {
        Quad {
            a: self.fields[0] as int,
            b: self.fields[1] as int,
            c: self.fields[2] as int,
            d: self.fields[3] as int,
        }
    }

    /// No field is negative.
    pub open spec fn nonneg(&self) -> bool {
        self.fields[0] >= 0 && self.fields[1] >= 0 && self.fields[2] >= 0 && self.fields[3] >= 0
    }

    /// No field is negative, and the line after each range has a number.
    pub open spec fn wf(&self) -> bool {
        quad_wf(self.quad())
    }

    /// The key hunks are ordered by: the smaller of the two starts.
    pub open spec fn key(&self) -> int {
        least(self.fields[0] as int, self.fields[2] as int)
    }

    /// Reads a header line.
    pub fn parse(header: &str) -> (r: Result<Header, ParseErr>)
        ensures
            match header_of(header@) {
                Some(q) => r is Ok && r->Ok_0.quad() == q && r->Ok_0.nonneg(),
                None => r is Err,
            },
    {
        let v = to_chars(header);
        let n = v.len();
        if n < 6 || v[0] != '@' || v[1] != '@' || v[2] != ' ' || v[n - 3] != ' ' || v[n - 2] != '@'
            || v[n - 1] != '@' {
            proof {
                if n >= 6 {
                    let p = header@.subrange(0, 3);
                    let s = header@.subrange(n - 3, n as int);
                    assert(p[0] == v@[0] && p[1] == v@[1] && p[2] == v@[2]);
                    assert(s[0] == v@[n - 3] && s[1] == v@[n - 2] && s[2] == v@[n - 1]);
                }
            }
            return Err(parse_err("Unexpected header format in '", header, "'"));
        }
        assert(header@.subrange(0, 3) =~= seq!['@', '@', ' ']);
        assert(header@.subrange(n - 3, n as int) =~= seq![' ', '@', '@']);
        let ghost inner = header@.subrange(3, n - 3);
        let end: usize = n - 3;
        let k = find(&v, 3, end, ' ');
        if k == end {
            return Err(parse_err("Too few header fields in '", header, "'"));
        }
        assert(inner.subrange(0, k - 3) =~= v@.subrange(3, k as int));
        assert(inner.subrange(k - 3 + 1, inner.len() as int) =~= v@.subrange(k + 1, end as int));
        let minus = parse_range(&v, 3, k);
        let plus = parse_range(&v, k + 1, end);
        match (minus, plus) {
            (Some(m), Some(p)) => Ok(Header { fields: [m.0, m.1, p.0, p.1] }),
            _ => Err(parse_err("Invalid header field in '", header, "'")),
        }
    }

    /// Orders headers by the smaller of their two starts.
    pub fn cmp(&self, other: &Header) -> (o: Ordering)
        ensures
            o == Ordering::Less <==> self.key() < other.key(),
            o == Ordering::Greater <==> self.key() > other.key(),
            o == Ordering::Equal <==> self.key() == other.key(),
    {
        let l = if self.fields[0] <= self.fields[2] {
            self.fields[0]
        } else {
            self.fields[2]
        };
        let r = if other.fields[0] <= other.fields[2] {
            other.fields[0]
        } else {
            other.fields[2]
        };
        if l < r {
            Ordering::Less
        } else if l > r {
            Ordering::Greater
        } else {
            Ordering::Equal
        }
    }

    /// The header under which fusing `self` (left) with `other` (right)
    /// starts; the counts are filled in once the body is known.
    pub fn fuse(&self, other: &Header) -> (h: Header)
        requires
            self.nonneg(),
            other.nonneg(),
        ensures
            h.quad() == fused_start(self.quad(), other.quad()),
    {
        let lshift = self.offset();
        let rshift = other.offset();
        let left: i128 = if self.fields[1] != 0 && other.fields[1] == 0 {
            self.fields[0] as i128
        } else if self.fields[1] == 0 && other.fields[1] != 0 {
            other.fields[0] as i128
        } else {
            let moved = other.fields[0] as i128 - lshift;
            if self.fields[0] as i128 <= moved {
                self.fields[0] as i128
            } else {
                moved
            }
        };
        let right: i128 = if self.fields[3] != 0 && other.fields[3] == 0 {
            self.fields[2] as i128
        } else if self.fields[3] == 0 && other.fields[3] != 0 {
            other.fields[2] as i128
        } else {
            let moved = self.fields[2] as i128 + rshift;
            if moved <= other.fields[2] as i128 {
                moved
            } else {
                other.fields[2] as i128
            }
        };
        Header { fields: [left as i64, 0, right as i64, 0] }
    }

    /// Whether the two headers share a line before the change or after it.
    pub fn overlaps(&self, other: &Header) -> (r: bool)
        ensures
            r == overlap(self.quad(), other.quad()),
    {
        let before = share(self.minus_range(), other.minus_range());
        let after = share(self.plus_range(), other.plus_range());
        before || after
    }

    /// Whether what `self` (left) leaves behind meets what `other` (right)
    /// starts from.
    pub fn should_fuse(&self, other: &Header) -> (r: bool)
        ensures
            r == meets(self.quad(), other.quad()),
    {
        share(self.plus_range(), other.minus_range())
    }

    /// The canonical text of the header.
    pub fn to_string(&self) -> (s: String)
        ensures
            s@ == header_text(self.quad()),
    {
        let mut out: Vec<char> = Vec::new();
        out.push('@');
        out.push('@');
        out.push(' ');
        out.push('-');
        push_range(&mut out, self.fields[0], self.fields[1]);
        out.push(' ');
        out.push('+');
        push_range(&mut out, self.fields[2], self.fields[3]);
        out.push(' ');
        out.push('@');
        out.push('@');
        assert(out@ =~= header_text(self.quad()));
        let s = from_chars(&out, 0, out.len());
        assert(out@.subrange(0, out.len() as int) =~= out@);
        s
    }

    /// Moves the two starts. Fails where a start would leave the range of
    /// line numbers.
    pub fn with_offset(self, left: i64, right: i64) -> (r: Result<Header, MergeErr>)
        ensures
            r is Ok ==> r->Ok_0.quad() == moved(self.quad(), left as int, right as int),
            r is Ok <==> {
                &&& 0 <= self.quad().a + left <= i64::MAX
                &&& 0 <= self.quad().c + right <= i64::MAX
            },
    {
        let a: i128 = self.fields[0] as i128 + left as i128;
        let c: i128 = self.fields[2] as i128 + right as i128;
        if a < 0 || c < 0 || a > i64::MAX as i128 || c > i64::MAX as i128 {
            return Err(merge_err("Tried to offset header ", self.to_string().as_str(), ""));
        }
        Ok(Header { fields: [a as i64, self.fields[1], c as i64, self.fields[3]] })
    }

    /// Exec form of `wf`.
    pub fn valid(&self) -> (r: bool)
        ensures
            r == self.wf(),
    {
        self.fields[0] >= 0 && self.fields[1] >= 0 && self.fields[2] >= 0 && self.fields[3] >= 0
            && self.fields[0] as i128 + self.fields[1] as i128 <= i64::MAX as i128
            && self.fields[2] as i128 + self.fields[3] as i128 <= i64::MAX as i128
    }

    /// Whether the header spans no line on either side.
    pub fn is_empty(&self) -> (r: bool)
        ensures
            r == (self.quad().b == 0 && self.quad().d == 0),
    {
        self.fields[1] == 0 && self.fields[3] == 0
    }

    /// See `shift`.
    pub fn offset(&self) -> (r: i128)
        ensures
            r == shift(self.quad()),
    {
        let post: i128 = self.fields[2] as i128 + if self.fields[3] == 0 {
            1i128
        } else {
            0i128
        };
        let pre: i128 = self.fields[0] as i128 + if self.fields[1] == 0 {
            1i128
        } else {
            0i128
        };
        post - pre
    }

    /// The lines spanned before the change: first, and one past the last.
    pub fn minus_range(&self) -> (r: (i128, i128))
        ensures
            r.0 == self.quad().a,
            r.1 == self.quad().a + self.quad().b,
    {
        (self.fields[0] as i128, self.fields[0] as i128 + self.fields[1] as i128)
    }

    /// The lines spanned after the change: first, and one past the last.
    pub fn plus_range(&self) -> (r: (i128, i128))
        ensures
            r.0 == self.quad().c,
            r.1 == self.quad().c + self.quad().d,
    {
        (self.fields[2] as i128, self.fields[2] as i128 + self.fields[3] as i128)
    }
}

/// A signed group reads back as the start and count it was written from,
/// and holds no space.
pub proof fn lemma_range_round_trip(sign: char, start: int, count: int)
    requires
        sign == '-' || sign == '+',
        0 <= start <= i64::MAX,
        0 <= count <= i64::MAX,
    ensures
        range_of(seq![sign] + range_text(start, count)) == Some((start, count)),
        ({
            let group = seq![sign] + range_text(start, count);
            forall|j: int| 0 <= j < group.len() ==> group[j] != ' '
        }),
{
    let first = decimal(start as nat);
    let second = decimal(count as nat);
    lemma_decimal_digits(start as nat);
    lemma_decimal_digits(count as nat);
    lemma_number_of_decimal(start as nat);
    lemma_number_of_decimal(count as nat);
    let body = range_text(start, count);
    let group = seq![sign] + body;
    assert(unsigned(group) =~= body);
    assert forall|j: int| 0 <= j < first.len() implies first[j] != ',' by {
        assert(is_digit(first[j]));
    }
    if count == 1 {
        assert(body =~= first);
        lemma_index_of(body, ',', body.len() as int);
    } else {
        assert(body =~= first + seq![','] + second);
        assert forall|j: int| 0 <= j < first.len() implies body[j] != ',' by {
            assert(body[j] == first[j]);
        }
        lemma_index_of(body, ',', first.len() as int);
        assert(body.subrange(0, first.len() as int) =~= first);
        assert(body.subrange(first.len() as int + 1, body.len() as int) =~= second);
    }
    assert forall|j: int| 0 <= j < group.len() implies group[j] != ' ' by {
        if j >= 1 {
            if j - 1 < first.len() {
                assert(group[j] == first[j - 1]);
                assert(is_digit(first[j - 1]));
            } else if j - 1 > first.len() {
                assert(group[j] == second[j - 2 - first.len()]);
                assert(is_digit(second[j - 2 - first.len()]));
            }
        }
    }
}

/// The text of a header reads back as that header.
pub proof fn lemma_header_round_trip(q: Quad)
    requires
        0 <= q.a <= i64::MAX,
        0 <= q.b <= i64::MAX,
        0 <= q.c <= i64::MAX,
        0 <= q.d <= i64::MAX,
    ensures
        header_of(header_text(q)) == Some(q),
{
    let minus = seq!['-'] + range_text(q.a, q.b);
    let plus = seq!['+'] + range_text(q.c, q.d);
    lemma_range_round_trip('-', q.a, q.b);
    lemma_range_round_trip('+', q.c, q.d);
    let line = header_text(q);
    let n = line.len() as int;
    assert(line =~= seq!['@', '@', ' '] + minus + seq![' '] + plus + seq![' ', '@', '@']);
    assert(line.subrange(0, 3) =~= seq!['@', '@', ' ']);
    assert(line.subrange(n - 3, n) =~= seq![' ', '@', '@']);
    let inner = line.subrange(3, n - 3);
    assert(inner =~= minus + seq![' '] + plus);
    assert forall|j: int| 0 <= j < minus.len() implies inner[j] != ' ' by {
        assert(inner[j] == minus[j]);
    }
    lemma_index_of(inner, ' ', minus.len() as int);
    assert(inner.subrange(0, minus.len() as int) =~= minus);
    assert(inner.subrange(minus.len() as int + 1, inner.len() as int) =~= plus);
}

/// Whether two ranges, each given by its first line and the line after its
/// last, share a line.
pub fn share(x: (i128, i128), y: (i128, i128)) -> (r: bool)
    ensures
        r == ranges_meet(x.0 as int, x.1 - x.0, y.0 as int, y.1 - y.0),
{
    x.0 < x.1 && y.0 < y.1 && x.0 < y.1 && y.0 < x.1
}

/// Reads one group `[-|+]start[,count]` from `v[from..to]`.
fn parse_range(v: &Vec<char>, from: usize, to: usize) -> (r: Option<(i64, i64)>)
    requires
        from <= to <= v.len(),
    ensures
        match range_of(v@.subrange(from as int, to as int)) {
            Some(p) => {
                &&& r == Some((p.0 as i64, p.1 as i64))
                &&& 0 <= p.0 <= i64::MAX
                &&& 0 <= p.1 <= i64::MAX
            },
            None => r is None,
        },
{
    let ghost group = v@.subrange(from as int, to as int);
    let start: usize = if from < to && (v[from] == '-' || v[from] == '+') {
        from + 1
    } else {
        from
    };
    let ghost t = unsigned(group);
    assert(t =~= v@.subrange(start as int, to as int));
    let k = find(v, start, to, ',');
    if k == to {
        match parse_number(v, start, to) {
            Some(n) => Some((n, 1)),
            None => None,
        }
    } else {
        assert(t.subrange(0, k - start) =~= v@.subrange(start as int, k as int));
        assert(t.subrange(k - start + 1, t.len() as int) =~= v@.subrange(k + 1, to as int));
        match (parse_number(v, start, k), parse_number(v, k + 1, to)) {
            (Some(n), Some(m)) => Some((n, m)),
            _ => None,
        }
    }
}

/// Writes one side of a header at the end of `out`.
fn push_range(out: &mut Vec<char>, start: i64, count: i64)
    ensures
        final(out)@ == old(out)@ + range_text(start as int, count as int),
{
    push_int(out, start);
    if count != 1 {
        out.push(',');
        push_int(out, count);
    }
    assert(out@ =~= old(out)@ + range_text(start as int, count as int));
}

} // verus!
