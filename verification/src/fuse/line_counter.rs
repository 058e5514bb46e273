//! Counts the lines a fusion emits, by tag, and closes the fused header.

use crate::error::{MergeErr, merge_err};
use crate::fuse::line::Line;
use crate::hunk::header::{Header, Quad};
use crate::tags::is_body_tag;
use vstd::prelude::*;

verus! {

/// Counts of the lines emitted so far, by tag.
pub struct LineCounter {
    num_added: i64,
    num_removed: i64,
    total_added: i64,
    total_removed: i64,
    total_unchanged: i64,
}

/// The counts as mathematical integers. `run_added` and `run_removed` count
/// since the last context line; the other three count from the start.
pub struct Counts {
    pub run_added: int,
    pub run_removed: int,
    pub added: int,
    pub removed: int,
    pub unchanged: int,
}

/// The counts after one more line with tag `t`.
pub open spec fn counted(c: Counts, t: char) -> Counts {
    if t == '-' {
        Counts { run_removed: c.run_removed + 1, removed: c.removed + 1, ..c }
    } else if t == '+' {
        Counts { run_added: c.run_added + 1, added: c.added + 1, ..c }
    } else if t == ' ' {
        Counts { run_added: 0, run_removed: 0, unchanged: c.unchanged + 1, ..c }
    } else {
        c
    }
}

/// Group and place of the line just counted: the group is the number of
/// context lines so far, the place counts within the lines of one tag.
pub open spec fn sort_key(c: Counts, t: char) -> (int, int) {
    if t == '-' {
        (c.unchanged, c.run_removed)
    } else if t == '+' {
        (c.unchanged, c.run_added)
    } else {
        (c.unchanged, 1)
    }
}

/// Whether the counters that a line with tag `t` moves can still grow.
pub open spec fn has_room(c: Counts, t: char) -> bool {
    if t == '-' {
        c.run_removed < i64::MAX && c.removed < i64::MAX
    } else if t == '+' {
        c.run_added < i64::MAX && c.added < i64::MAX
    } else {
        c.unchanged < i64::MAX
    }
}

/// The header of a fused hunk, given the header it started under and the
/// two counts. An empty side starts one line before the other; a hunk with
/// nothing on either side starts at zero.
pub open spec fn closed_header(start: Quad, b: int, d: int) -> Quad {
    if b == 0 && d == 0 {
        Quad { a: 0, b: 0, c: 0, d: 0 }
    } else if d == 0 {
        Quad { a: start.a, b: b, c: start.a - 1, d: 0 }
    } else if b == 0 {
        Quad { a: start.c - 1, b: 0, c: start.c, d: d }
    } else {
        Quad { a: start.a, b: b, c: start.c, d: d }
    }
}

impl View for LineCounter {
    type V = Counts;

    closed spec fn view(&self) -> Counts {
        Counts {
            run_added: self.num_added as int,
            run_removed: self.num_removed as int,
            added: self.total_added as int,
            removed: self.total_removed as int,
            unchanged: self.total_unchanged as int,
        }
    }
}

impl Default for LineCounter {
    fn default() -> (c: LineCounter)
        ensures
            c@ == (Counts { run_added: 0, run_removed: 0, added: 0, removed: 0, unchanged: 0 }),
    {
        LineCounter {
            num_added: 0,
            num_removed: 0,
            total_added: 0,
            total_removed: 0,
            total_unchanged: 0,
        }
    }
}

impl LineCounter {
    /// Counts one emitted line and says where it sorts. Fails on a line
    /// without a body tag, and where a counter is at its limit.
    pub fn update(&mut self, info: &Line) -> (r: Result<(i64, i64), MergeErr>)
        ensures
            r is Ok <==> is_body_tag(info.prefix_spec())
                && has_room(old(self)@, info.prefix_spec()),
            match r {
                Ok(key) => {
                    &&& final(self)@ == counted(old(self)@, info.prefix_spec())
                    &&& (key.0 as int, key.1 as int) == sort_key(final(self)@, info.prefix_spec())
                },
                Err(_) => final(self)@ == old(self)@,
            },
    {
        let prefix = info.prefix();
        if prefix == '-' {
            if self.num_removed == i64::MAX || self.total_removed == i64::MAX {
                return Err(merge_err("LineCounter: too many lines", "", ""));
            }
            self.num_removed = self.num_removed + 1;
            self.total_removed = self.total_removed + 1;
            Ok((self.total_unchanged, self.num_removed))
        } else if prefix == '+' {
            if self.num_added == i64::MAX || self.total_added == i64::MAX {
                return Err(merge_err("LineCounter: too many lines", "", ""));
            }
            self.num_added = self.num_added + 1;
            self.total_added = self.total_added + 1;
            Ok((self.total_unchanged, self.num_added))
        } else if prefix == ' ' {
            if self.total_unchanged == i64::MAX {
                return Err(merge_err("LineCounter: too many lines", "", ""));
            }
            self.num_added = 0;
            self.num_removed = 0;
            self.total_unchanged = self.total_unchanged + 1;
            Ok((self.total_unchanged, 1))
        } else {
            Err(merge_err("LineCounter: Unexpected line prefix in '", info.line.as_str(), "'"))
        }
    }

    /// Whether `update_header` can write the counts into `header`.
    pub open spec fn closes(&self, header: &Header) -> bool {
        let b = self@.removed + self@.unchanged;
        let d = self@.added + self@.unchanged;
        &&& i64::MIN <= b <= i64::MAX
        &&& i64::MIN <= d <= i64::MAX
        &&& b != 0 && d == 0 ==> header.fields[0] > i64::MIN
        &&& b == 0 && d != 0 ==> header.fields[2] > i64::MIN
    }

    /// Exec form of `closes`.
    pub fn fits(&self, header: &Header) -> (r: bool)
        ensures
            r == self.closes(header),
    {
        let b: i128 = self.total_removed as i128 + self.total_unchanged as i128;
        let d: i128 = self.total_added as i128 + self.total_unchanged as i128;
        let low: i128 = i64::MIN as i128;
        let high: i128 = i64::MAX as i128;
        let in_range = low <= b && b <= high && low <= d && d <= high;
        let left_alone = b != 0 && d == 0 && header.fields[0] == i64::MIN;
        let right_alone = b == 0 && d != 0 && header.fields[2] == i64::MIN;
        in_range && !left_alone && !right_alone
    }

    /// Writes the counts into the header and settles the start of an empty
    /// side.
    pub fn update_header(&self, header: &mut Header)
        requires
            self.closes(old(header)),
        ensures
            final(header).quad() == closed_header(
                old(header).quad(),
                self@.removed + self@.unchanged,
                self@.added + self@.unchanged,
            ),
    {
        let b = self.total_removed + self.total_unchanged;
        let d = self.total_added + self.total_unchanged;
        header.fields[1] = b;
        header.fields[3] = d;
        if b == 0 && d == 0 {
            header.fields[0] = 0;
            header.fields[2] = 0;
        } else if d == 0 {
            header.fields[2] = header.fields[0] - 1;
        } else if b == 0 {
            header.fields[0] = header.fields[2] - 1;
        }
    }
}

} // verus!
