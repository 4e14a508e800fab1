use vstd::prelude::*;

verus! {

/// The kinds of error a decode can end with.
#[derive(Clone, Copy, Debug, PartialEq, Eq, Structural)]
pub enum ErrorType {
    /// The document does not follow the grammar.
    Syntax,
    /// A header or value appeared where the enclosing structure does not allow it.
    NoStructure,
    /// A header promised array or tabular content that is missing.
    ExpectedArrayContent,
    /// A block array item does not start with `-`.
    ExpectedArray,
    /// An indentation width of zero was requested.
    InvalidIndentSize,
    /// The input is not valid UTF-8.
    InvalidUtf8,
    /// The document ends inside a quoted string.
    UnterminatedString,
    /// A quoted token is not closed where it ends, or holds an unescaped quote
    /// or an escape that is not allowed.
    InvalidString,
    /// The input is too long to be indexed with 32 bit offsets.
    InputTooLarge,
    /// The tape under construction is inconsistent.
    TapeError,
}

/// An error together with the byte offset and the byte at which it was found.
#[derive(Clone, Copy, Debug, PartialEq, Eq, Structural)]
pub struct Error {
    pub index: usize,
    pub character: u8,
    pub error: ErrorType,
}

impl Error {
    /// An error at a given byte.
    pub fn new_c(index: usize, character: u8, error: ErrorType) -> (e: Error)
        ensures
            e == (Error { index, character, error }),
    {
        Error { index, character, error }
    }

    /// An error that is not tied to a position.
    pub fn generic(error: ErrorType) -> (e: Error)
        ensures
            e == (Error { index: 0, character: 0, error }),
    {
        Error { index: 0, character: 0, error }
    }

    /// The kind of this error.
    pub fn error(&self) -> (t: &ErrorType)
        ensures
            *t == self.error,
    {
        &self.error
    }
}

} // verus!
