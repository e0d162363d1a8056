//! The ways building the matcher's inputs can fail. Every failure is
//! detected eagerly while the roster or nickname table is read, and aborts
//! the whole matching run: a silently incomplete index would be worse than
//! no index.

use vstd::prelude::*;
use vstd::string::StringExecFns;

verus! {

#[derive(Debug)]
pub enum MatchError {
    /// A field whose canonical form (uppercased, `.` and `'` removed) is
    /// empty or not purely alphabetic; holds that canonical form.
    InvalidToken(String),
    /// A roster line without exactly three tab- or comma-separated fields;
    /// holds the line.
    MalformedRosterLine(String),
    /// A nickname-table line without exactly two tab- or comma-separated
    /// sides; holds the line.
    MalformedNicknameLine(String),
}

/// The description each error carries, around the offending text.
pub open spec fn message_spec(e: MatchError) -> Seq<char> {
    match e {
        MatchError::InvalidToken(s) => "String must be alphabetic with (ignored . and ') and then not empty, not \""@
            + s@ + "\"."@,
        MatchError::MalformedRosterLine(l) => "Line should be First,Last,City separated by tab or comma, not '"@
            + l@ + "'"@,
        MatchError::MalformedNicknameLine(l) => "Expect two tab or comma separated sides in nickname line, not '"@
            + l@ + "'"@,
    }
}

impl MatchError {
    /// The human-readable description of the error.
    pub fn message(&self) -> (r: String)
        ensures
            r@ == message_spec(*self),
    {
        match self {
            MatchError::InvalidToken(s) => String::from_str(
                "String must be alphabetic with (ignored . and ') and then not empty, not \"",
            ).concat(s.as_str()).concat("\"."),
            MatchError::MalformedRosterLine(l) => String::from_str(
                "Line should be First,Last,City separated by tab or comma, not '",
            ).concat(l.as_str()).concat("'"),
            MatchError::MalformedNicknameLine(l) => String::from_str(
                "Expect two tab or comma separated sides in nickname line, not '",
            ).concat(l.as_str()).concat("'"),
        }
    }
}

} // verus!
