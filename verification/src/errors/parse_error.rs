use vstd::prelude::*;

verus! {

/// A syntax error in an access-policy string, with the position of
/// the offending token.
#[derive(Clone, Debug, PartialEq, Eq)]
pub struct ParseError {
    pub message: String,
    pub position: usize,
}

impl ParseError {
    pub fn new(message: &str, position: usize) -> (r: ParseError)
        ensures
            r.message@ == message@,
            r.position == position,
    {
        ParseError { message: message.to_owned(), position }
    }
}

} // verus!
