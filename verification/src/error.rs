//! The error a command frame can be rejected with.

use vstd::prelude::*;

verus! {

/// Why a frame could not be turned into a command.
#[derive(Debug, PartialEq, Eq)]
pub enum CommandParseError {
    /// The first word is not the command's name.
    WrongCommand,
    /// Fewer words than the command needs.
    TooLessArg,
    /// More words than the command accepts.
    TooMuchArg,
    /// An option was repeated or is missing its argument.
    SyntaxError(String),
    /// An option's argument is not an unsigned integer.
    TypeParse(String),
}

/// The mathematical value of a [`CommandParseError`]: its messages as
/// character sequences.
pub enum ParseErrorView {
    WrongCommand,
    TooLessArg,
    TooMuchArg,
    SyntaxError(Seq<char>),
    TypeParse(Seq<char>),
}

impl View for CommandParseError {
    type V = ParseErrorView;

    open spec fn view(&self) -> ParseErrorView {
        match self {
            CommandParseError::WrongCommand => ParseErrorView::WrongCommand,
            CommandParseError::TooLessArg => ParseErrorView::TooLessArg,
            CommandParseError::TooMuchArg => ParseErrorView::TooMuchArg,
            CommandParseError::SyntaxError(m) => ParseErrorView::SyntaxError(m@),
            CommandParseError::TypeParse(m) => ParseErrorView::TypeParse(m@),
        }
    }
}

/// A result whose error is taken by its view.
pub open spec fn err_view<T>(r: Result<T, CommandParseError>) -> Result<T, ParseErrorView> {
    match r {
        Ok(v) => Ok(v),
        Err(e) => Err(e@),
    }
}

} // verus!
