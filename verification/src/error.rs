//! The two error kinds: a text could not be parsed, or two diffs could not
//! be fused. Each carries a message for the user and nothing else.

use vstd::prelude::*;
use vstd::string::*;

verus! {

/// A diff text is malformed.
#[derive(Debug)]
pub struct ParseErr {
    msg: String,
}

impl ParseErr {
    /// The message the error carries.
    pub closed spec fn message(&self) -> Seq<char> {
        self.msg@
    }

    /// A parse error with the given message.
    pub fn from(msg: String) -> (e: ParseErr)
        ensures
            e.message() == msg@,
    {
        ParseErr { msg }
    }

    /// The message as shown to the user.
    pub fn to_string(&self) -> (s: String)
        ensures
            s@ == "ParseError: "@ + self.message(),
    {
        String::from_str("ParseError: ").concat(self.msg.as_str())
    }
}

/// Two diffs, hunks or headers could not be fused.
#[derive(Debug)]
pub struct MergeErr {
    msg: String,
}

impl MergeErr {
    /// The message the error carries.
    pub closed spec fn message(&self) -> Seq<char> {
        self.msg@
    }

    /// A fusion error with the given message.
    pub fn from(msg: String) -> (e: MergeErr)
        ensures
            e.message() == msg@,
    {
        MergeErr { msg }
    }

    /// The message as shown to the user.
    pub fn to_string(&self) -> (s: String)
        ensures
            s@ == "MergeError: "@ + self.message(),
    {
        String::from_str("MergeError: ").concat(self.msg.as_str())
    }
}

/// `before`, then `subject`, then `after`.
pub fn describe(before: &str, subject: &str, after: &str) -> (s: String)
    ensures
        s@ == before@ + subject@ + after@,
{
    String::from_str(before).concat(subject).concat(after)
}

/// A parse error about one piece of text.
pub fn parse_err(before: &str, subject: &str, after: &str) -> (e: ParseErr)
    ensures
        e.message() == before@ + subject@ + after@,
{
    ParseErr::from(describe(before, subject, after))
}

/// A fusion error about one piece of text.
pub fn merge_err(before: &str, subject: &str, after: &str) -> (e: MergeErr)
    ensures
        e.message() == before@ + subject@ + after@,
{
    MergeErr::from(describe(before, subject, after))
}

} // verus!
