//! A body line with the number of the line it speaks of.

use crate::fuse::line::LineView;
use crate::tags::{line_tag, tag};
use vstd::prelude::*;
use vstd::string::*;

verus! {

/// A body line and its rank.
#[derive(Debug, PartialEq)]
pub struct Info {
    pub line: String,
    pub rank: i64,
}

impl View for Info {
    type V = LineView;

    open spec fn view(&self) -> LineView {
        LineView { text: self.line@, rank: self.rank as int }
    }
}

impl Info {
    /// The tag of the line, `!` where the line is empty.
    pub fn prefix(&self) -> (c: char)
        ensures
            c == tag(self.line@),
    {
        line_tag(self.line.as_str())
    }
}

impl From<(String, i64)> for Info {
    fn from(tuple: (String, i64)) -> (r: Info) {
        let (line, rank) = tuple;
        Info { line, rank }
    }
}

impl vstd::std_specs::convert::FromSpecImpl<(String, i64)> for Info {
    open spec fn obeys_from_spec() -> bool {
        true
    }

    open spec fn from_spec(tuple: (String, i64)) -> Info {
        Info { line: tuple.0, rank: tuple.1 }
    }
}

impl<'a> From<(&'a str, i64)> for Info {
    fn from(tuple: (&'a str, i64)) -> (r: Info) {
        let (line, rank) = tuple;
        Info { line: String::from_str(line), rank }
    }
}

impl<'a> vstd::std_specs::convert::FromSpecImpl<(&'a str, i64)> for Info {
    open spec fn obeys_from_spec() -> bool {
        false
    }

    open spec fn from_spec(tuple: (&'a str, i64)) -> Info {
        arbitrary()
    }
}

} // verus!
