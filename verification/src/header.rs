//! The four lines that open the block of one file:
//!
//! ```text
//! Index: <path>
//! ===================================================================
//! --- <path>
//! +++ <path>
//! ```
//!
//! Only the first is read; the other three are kept as they are.

use crate::error::{ParseErr, parse_err};
use crate::lines::Lines;
use crate::text::{from_chars, has_prefix_at, to_chars, views};
use vstd::prelude::*;
use vstd::string::*;

verus! {

/// The four lines that open a block, and the file name the first gives.
#[derive(Debug, Clone)]
pub struct Header {
    _lines: Vec<String>,
    _file_name: String,
}

/// A file header as a mathematical value.
pub struct HeaderView {
    pub lines: Seq<Seq<char>>,
    pub name: Seq<char>,
}

/// What the first line of a file header starts with.
pub open spec fn index_prefix() -> Seq<char> {
    seq!['I', 'n', 'd', 'e', 'x', ':', ' ']
}

/// The file name an `Index:` line gives.
pub open spec fn file_name_of(line: Seq<char>) -> Option<Seq<char>> {
    if index_prefix().is_prefix_of(line) {
        Some(line.subrange(7, line.len() as int))
    } else {
        None
    }
}

/// The file header at the start of `lines`: four lines, the first of which
/// names the file.
pub open spec fn header_of(lines: Seq<Seq<char>>) -> Option<HeaderView> {
    if lines.len() >= 4 {
        match file_name_of(lines[0]) {
            Some(name) => Some(HeaderView { lines: lines.subrange(0, 4), name }),
            None => None,
        }
    } else {
        None
    }
}

impl HeaderView {
    /// There are four lines, and the first gives the name.
    pub open spec fn wf(self) -> bool {
        self.lines.len() == 4 && file_name_of(self.lines[0]) == Some(self.name)
    }
}

impl View for Header {
    type V = HeaderView;

    closed spec fn view(&self) -> HeaderView {
        HeaderView { lines: views(self._lines@), name: self._file_name@ }
    }
}

/// Takes one line; fails at the end of the input.
pub fn get_line(lines: &mut Lines) -> (r: Result<String, ParseErr>)
    ensures
        match r {
            Ok(line) => old(lines).rest().len() > 0 && line@ == old(lines).rest()[0]
                && final(lines).rest() == old(lines).rest().drop_first(),
            Err(_) => old(lines).rest().len() == 0,
        },
{
    match lines.next() {
        Some(line) => Ok(line),
        None => Err(parse_err("Header: Could not get line", "", "")),
    }
}

/// The file name on an `Index:` line; fails on any other line.
pub fn get_file_name(line: &String) -> (r: Result<String, ParseErr>)
    ensures
        match file_name_of(line@) {
            Some(name) => r is Ok && r->Ok_0@ == name,
            None => r is Err,
        },
{
    let v = to_chars(line.as_str());
    proof {
        reveal_strlit("Index: ");
        assert("Index: "@ =~= index_prefix());
        assert(v@.subrange(0, v.len() as int) =~= v@);
    }
    if has_prefix_at(&v, 0, "Index: ") {
        Ok(from_chars(&v, 7, v.len()))
    } else {
        Err(parse_err("Header: Unexpected prefix in '", line.as_str(), "'"))
    }
}

impl Header {
    /// There are four lines, and the first gives the name.
    pub open spec fn wf(&self) -> bool {
        self@.wf()
    }

    /// Reads the four lines of a file header.
    pub fn from_lines(lines: &mut Lines) -> (r: Result<Header, ParseErr>)
        ensures
            match header_of(old(lines).rest()) {
                Some(v) => {
                    &&& r is Ok
                    &&& r->Ok_0@ == v
                    &&& r->Ok_0.wf()
                    &&& final(lines).rest() == old(lines).rest().subrange(
                        4,
                        old(lines).rest().len() as int,
                    )
                },
                None => r is Err,
            },
    {
        let ghost all = lines.rest();
        let mut _lines: Vec<String> = Vec::new();
        let mut i: usize = 0;
        while i < 4
            invariant
                i <= 4,
                all == old(lines).rest(),
                i <= all.len(),
                views(_lines@) == all.subrange(0, i as int),
                lines.rest() == all.subrange(i as int, all.len() as int),
            decreases 4 - i,
        {
            let ghost before = views(_lines@);
            match get_line(lines) {
                Ok(line) => {
                    _lines.push(line);
                },
                Err(e) => {
                    return Err(e);
                },
            }
            assert(views(_lines@) =~= before.push(all[i as int]));
            assert(before.push(all[i as int]) =~= all.subrange(0, i + 1));
            assert(lines.rest() =~= all.subrange(i + 1, all.len() as int));
            i = i + 1;
        }
        assert(views(_lines@)[0] == all[0]);
        let _file_name = match get_file_name(&_lines[0]) {
            Ok(name) => name,
            Err(e) => {
                return Err(e);
            },
        };
        Ok(Header { _lines, _file_name })
    }

    /// The four lines.
    pub fn lines(&self) -> (l: &Vec<String>)
        ensures
            views(l@) == self@.lines,
    {
        &self._lines
    }

    /// Whether the two headers name the same file.
    pub fn same_file(&self, other: &Header) -> (r: bool)
        ensures
            r == (self@.name == other@.name),
    {
        self._file_name == other._file_name
    }

    /// The name of the file.
    pub fn file_name(&self) -> (name: &str)
        ensures
            name@ == self@.name,
    {
        self._file_name.as_str()
    }
}

} // verus!
