//! Errors of the installation steps.

use vstd::prelude::*;

verus! {

/// What stops an installation step.
#[derive(Debug, PartialEq, Eq)]
pub enum Error {
    /// A failure described by its message.
    Custom(String),
    /// A value could not be written as JSON.
    Json,
}

/// An error, over the characters of its message.
pub enum ErrorView {
    Custom(Seq<char>),
    Json,
}

impl View for Error {
    type V = ErrorView;

    open spec fn view(&self) -> ErrorView {
        match self {
            Error::Custom(message) => ErrorView::Custom(message@),
            Error::Json => ErrorView::Json,
        }
    }
}

/// The result of a step that gives a text.
pub open spec fn text_result(r: Result<String, Error>) -> Result<Seq<char>, ErrorView> {
    match r {
        Ok(text) => Ok(text@),
        Err(error) => Err(error@),
    }
}

/// The message that puts a text between two others.
pub open spec fn around(before: Seq<char>, text: Seq<char>, after: Seq<char>) -> ErrorView {
    ErrorView::Custom(before + text + after)
}

/// Builds the error whose message puts `text` between `before` and `after`.
pub fn message_around(before: &str, text: &str, after: &str) -> (r: Error)
    ensures
        r@ == around(before@, text@, after@),
{
    let mut message = before.to_owned();
    message.append(text);
    message.append(after);
    Error::Custom(message)
}

} // verus!
