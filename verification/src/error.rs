//! Errors of the content parser.

use vstd::prelude::*;

verus! {

/// Errors that can occur when parsing a content document.
#[derive(Debug)]
pub enum ContentError {
    /// The input could not be parsed as a valid content document.
    ParseError(String),
}

impl View for ContentError {
    type V = Seq<char>;

    open spec fn view(&self) -> Seq<char> {
        match self {
            ContentError::ParseError(message) => message@,
        }
    }
}

impl ContentError {
    /// The error as a line of text.
    pub fn message(&self) -> (r: String)
        ensures
            r@ == "content parse error: "@ + self@,
    {
        match self {
            ContentError::ParseError(message) => {
                let mut out = "content parse error: ".to_owned();
                out.append(message.as_str());
                out
            },
        }
    }
}

} // verus!
