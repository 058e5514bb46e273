//! A pair of line numbers: one before a change, one after.

use vstd::prelude::*;

verus! {

/// The number of a line before a change and its number after.
#[derive(Clone, Debug, PartialEq)]
pub struct LineNo {
    pub nums: [usize; 2],
}

/// The pair after a line with the given tag: a removed line moves the
/// number before the change, an added line the number after, a context
/// line both, any other line none.
pub open spec fn bumped(nums: (int, int), line_prefix: char) -> (int, int) {
    if line_prefix == '-' {
        (nums.0 + 1, nums.1)
    } else if line_prefix == '+' {
        (nums.0, nums.1 + 1)
    } else if line_prefix == ' ' {
        (nums.0 + 1, nums.1 + 1)
    } else {
        nums
    }
}

impl LineNo {
    /// The two numbers as mathematical integers.
    pub open spec fn pair(&self) -> (int, int) {
        (self.nums[0] as int, self.nums[1] as int)
    }

    /// The pair of the two numbers.
    pub fn new(left: usize, right: usize) -> (n: LineNo)
        ensures
            n.pair() == (left as int, right as int),
    {
        LineNo { nums: [left, right] }
    }

    /// Moves the numbers past a line with the given tag.
    pub fn bump(&mut self, line_prefix: char)
        requires
            bumped(old(self).pair(), line_prefix).0 <= usize::MAX,
            bumped(old(self).pair(), line_prefix).1 <= usize::MAX,
        ensures
            final(self).pair() == bumped(old(self).pair(), line_prefix),
    {
        if line_prefix == '-' {
            self.nums[0] = self.nums[0] + 1;
        } else if line_prefix == '+' {
            self.nums[1] = self.nums[1] + 1;
        } else if line_prefix == ' ' {
            self.nums[0] = self.nums[0] + 1;
            self.nums[1] = self.nums[1] + 1;
        }
    }
}

impl<'a> From<&'a [usize; 4]> for LineNo {
    /// The two starts of a header.
    fn from(header: &'a [usize; 4]) -> (n: LineNo) {
        LineNo { nums: [header[0], header[2]] }
    }
}

impl<'a> vstd::std_specs::convert::FromSpecImpl<&'a [usize; 4]> for LineNo {
    open spec fn obeys_from_spec() -> bool {
        true
    }

    open spec fn from_spec(header: &'a [usize; 4]) -> LineNo {
        LineNo { nums: [header[0], header[2]] }
    }
}

impl From<[usize; 2]> for LineNo {
    fn from(nums: [usize; 2]) -> (n: LineNo) {
        LineNo { nums }
    }
}

impl vstd::std_specs::convert::FromSpecImpl<[usize; 2]> for LineNo {
    open spec fn obeys_from_spec() -> bool {
        true
    }

    open spec fn from_spec(nums: [usize; 2]) -> LineNo {
        LineNo { nums }
    }
}

impl Default for LineNo {
    fn default() -> (n: LineNo)
        ensures
            n.pair() == (0int, 0int),
    {
        LineNo::new(0, 0)
    }
}

} // verus!
