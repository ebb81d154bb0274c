//! The one error type: a message for the user.

use vstd::prelude::*;
use vstd::string::*;

use crate::text;

verus! {

/// What went wrong, in the words that reach the user.
#[derive(Debug, PartialEq, Eq)]
pub struct Error {
    message: String,
}

impl View for Error {
    type V = Seq<char>;

    closed spec fn view(&self) -> Seq<char> {
        self.message@
    }
}

pub open spec fn at_text(doing: Seq<char>, path: Seq<u8>, reason: Seq<char>) -> Seq<char> {
    doing + text::lossy_text(path) + ": "@ + reason
}

impl Error {
    pub fn new(message: String) -> (r: Error)
        ensures
            r@ == message@,
    {
        Error { message }
    }

    pub fn of(message: &str) -> (r: Error)
        ensures
            r@ == message@,
    {
        Error { message: message.to_owned() }
    }

    /// What was being done, to which path, and what came in the way.
    pub fn at(doing: &str, path: &[u8], reason: &str) -> (r: Error)
        ensures
            r@ == at_text(doing@, path@, reason@),
    {
        let mut message: String = doing.to_owned();
        message.append(text::decode_lossy(path).as_str());
        message.append(": ");
        message.append(reason);
        Error { message }
    }

    /// The same with what was being done put before it.
    pub fn during(doing: &str, reason: &str) -> (r: Error)
        ensures
            r@ == doing@ + reason@,
    {
        let mut message: String = doing.to_owned();
        message.append(reason);
        Error { message }
    }

    pub fn message(&self) -> (r: &str)
        ensures
            r@ == self@,
    {
        self.message.as_str()
    }
}

} // verus!
