//! What can go wrong while reading tokens.
use vstd::prelude::*;
use crate::grammar::Outcome;
use crate::position::Cursor;
use crate::position::Pos;
use crate::source::SourceError;

verus! {

/// A failed attempt to read a token. Every failure holds the place that the
/// lexer had reached.
#[derive(Clone, Debug, PartialEq, Eq)]
pub enum Error {
    /// The source has no more bytes. This ends a run over the tokens; it is
    /// no fault of the text.
    Eof { pos: Pos },
    /// The byte `actual` stands where only `expected` can.
    UnexpectedChar { actual: u8, expected: u8, pos: Pos },
    /// A word was to begin at `actual`, which no word can hold.
    InvalidWordStart { actual: u8, pos: Pos },
    /// The source could not be read.
    Source { failure: SourceError, pos: Pos },
}

impl Error {
    /// The place at which the failure came up.
    pub open spec fn place(self) -> Cursor {
        match self {
            Error::Eof { pos } => pos@,
            Error::UnexpectedChar { pos, .. } => pos@,
            Error::InvalidWordStart { pos, .. } => pos@,
            Error::Source { pos, .. } => pos@,
        }
    }

    /// How the read that failed ended. That the source could not be read is
    /// no outcome of reading: it says nothing of the text.
    pub open spec fn outcome(self) -> Option<Outcome> {
        match self {
            Error::Eof { .. } => Some(Outcome::Eof),
            Error::UnexpectedChar { actual, expected, .. } => Some(
                Outcome::UnexpectedChar { actual, expected },
            ),
            Error::InvalidWordStart { actual, .. } => Some(Outcome::InvalidWordStart { actual }),
            Error::Source { .. } => None,
        }
    }

    /// The place at which the failure came up.
    pub fn pos(&self) -> (pos: Pos)
        ensures
            pos@ == self.place(),
    {
        match self {
            Error::Eof { pos } => *pos,
            Error::UnexpectedChar { pos, .. } => *pos,
            Error::InvalidWordStart { pos, .. } => *pos,
            Error::Source { pos, .. } => *pos,
        }
    }

    /// Whether the failure is the end of the source.
    pub fn is_eof(&self) -> (eof: bool)
        ensures
            eof == (self is Eof),
    {
        match self {
            Error::Eof { .. } => true,
            _ => false,
        }
    }
}

} // verus!
