//! The failures that looking up an argument or a task can end in.

use vstd::prelude::*;

verus! {

/// Why an operation of this library failed.
#[derive(Debug, PartialEq, Eq)]
pub enum Error {
    /// An argument was asked for under a key that was never supplied.
    MissingArgument(String),
    /// A task was asked for under a name that nothing is registered under.
    TaskNotFound(String),
    /// A failure of a task's own, with its message.
    Message(String),
}

/// An [`Error`] with its strings as sequences of characters.
pub enum ErrorView {
    MissingArgument(Seq<char>),
    TaskNotFound(Seq<char>),
    Message(Seq<char>),
}

impl View for Error {
    type V = ErrorView;

    open spec fn view(&self) -> ErrorView {
        match self {
            Error::MissingArgument(key) => ErrorView::MissingArgument(key@),
            Error::TaskNotFound(name) => ErrorView::TaskNotFound(name@),
            Error::Message(text) => ErrorView::Message(text@),
        }
    }
}

impl Clone for Error {
    fn clone(&self) -> (copy: Self)
        ensures
            copy == *self,
    {
        match self {
            Error::MissingArgument(key) => Error::MissingArgument(key.clone()),
            Error::TaskNotFound(name) => Error::TaskNotFound(name.clone()),
            Error::Message(text) => Error::Message(text.clone()),
        }
    }
}

} // verus!
