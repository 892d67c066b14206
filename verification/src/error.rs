//! The library's error: a message for the person at the terminal.

use vstd::prelude::*;

verus! {

/// A failed operation, with what to tell the user about it.
#[derive(Debug, PartialEq, Eq)]
pub struct Error {
    pub message: String,
}

impl View for Error {
    type V = Seq<char>;

    open spec fn view(&self) -> Seq<char> {
        self.message@
    }
}

impl Clone for Error {
    fn clone(&self) -> (r: Error)
        ensures
            r@ == self@,
    {
        Error { message: self.message.clone() }
    }
}

/// A result with the error's message in place of the error.
pub open spec fn told<T>(r: Result<T, Error>) -> Result<T, Seq<char>> {
    match r {
        Ok(x) => Ok(x),
        Err(e) => Err(e@),
    }
}

impl Error {
    /// An error with the given message.
    pub fn new(message: String) -> (r: Error)
        ensures
            r@ == message@,
    {
        Error { message }
    }

    /// The message.
    pub fn to_string(&self) -> (r: String)
        ensures
            r@ == self@,
    {
        self.message.clone()
    }
}

} // verus!
