//! The error of the library: a message for the user.

use vstd::prelude::*;

verus! {

/// What went wrong, in words.
#[derive(Debug)]
pub struct Error {
    pub message: String,
}

impl View for Error {
    type V = Seq<char>;

    open spec fn view(&self) -> Seq<char> {
        self.message@
    }
}

impl Error {
    pub fn new(message: String) -> (error: Error)
        ensures
            error@ == message@,
    {
        Error { message }
    }

    pub fn of(message: &str) -> (error: Error)
        ensures
            error@ == message@,
    {
        Error { message: message.to_owned() }
    }

    pub fn message(&self) -> (message: &str)
        ensures
            message@ == self@,
    {
        self.message.as_str()
    }
}

/// Whether a result is the one that a specification names: the same value by
/// its view, or the same message.
pub open spec fn agrees<T: View>(result: Result<T, Error>, expected: Result<T::V, Seq<char>>) -> bool {
    match result {
        Ok(value) => expected == Ok::<T::V, Seq<char>>(value@),
        Err(error) => expected == Err::<T::V, Seq<char>>(error@),
    }
}

} // verus!
