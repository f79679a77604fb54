//! A message-carrying error for the windowing edge of the interface.

use vstd::prelude::*;

verus! {

/// An error described by a message.
pub struct Error {
    message: String,
}

impl Error {
    /// The message as a mathematical sequence of characters.
    pub closed spec fn text(&self) -> Seq<char> {
        self.message@
    }

    /// Wrap a message in an error.
    pub fn new(message: &str) -> (r: Error)
        ensures
            r.text() == message@,
    {
        Error {
            message: message.to_owned(),
        }
    }

    /// The message the error was created with.
    pub fn message(&self) -> (r: &str)
        ensures
            r@ == self.text(),
    {
        self.message.as_str()
    }
}

}
