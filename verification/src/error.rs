//! The errors of the lexer and of the parser.

use vstd::prelude::*;

verus! {

/// Why a message is not lexed.
#[derive(Debug, Clone, Copy, PartialEq, Eq, Structural)]
pub enum LexError {
    /// No alphanumeric character stands where the commit type is expected.
    InvalidType,
    /// A scope was asked for where no `(` stands.
    ExpectedScopeOpen,
    /// The message ends before the `)` that closes the scope.
    UnclosedScope,
    /// No `!` stands at the cursor.
    NoBreakingMarker,
    /// No `:` follows the type, the scope and the marker.
    ExpectedColon,
    /// Nothing but whitespace follows the colon.
    MissingDescription,
}

impl LexError {
    /// The text of [`LexError::message`].
    pub open spec fn message_text(self) -> Seq<char> {
        match self {
            LexError::InvalidType => "Invalid commit type"@,
            LexError::ExpectedScopeOpen => "Expected '(' for scope"@,
            LexError::UnclosedScope => "Unclosed scope"@,
            LexError::NoBreakingMarker => "No breaking change marker"@,
            LexError::ExpectedColon => "Expected ':' after commit type or scope"@,
            LexError::MissingDescription => "Missing description"@,
        }
    }

    /// A sentence for the reader of an error report.
    pub fn message(&self) -> (s: String)
        ensures
            s@ == self.message_text(),
    {
        match self {
            LexError::InvalidType => "Invalid commit type".to_string(),
            LexError::ExpectedScopeOpen => "Expected '(' for scope".to_string(),
            LexError::UnclosedScope => "Unclosed scope".to_string(),
            LexError::NoBreakingMarker => "No breaking change marker".to_string(),
            LexError::ExpectedColon => "Expected ':' after commit type or scope".to_string(),
            LexError::MissingDescription => "Missing description".to_string(),
        }
    }
}

/// Why a sequence of tokens is not a commit.
#[derive(Debug, Clone, Copy, PartialEq, Eq, Structural)]
pub enum ParseError {
    /// No token carries the commit type.
    MissingCommitType,
    /// No token carries the description.
    MissingDescription,
}

impl ParseError {
    /// The text of [`ParseError::message`].
    pub open spec fn message_text(self) -> Seq<char> {
        match self {
            ParseError::MissingCommitType => "Missing commit type"@,
            ParseError::MissingDescription => "Missing description"@,
        }
    }

    /// A sentence for the reader of an error report.
    pub fn message(&self) -> (s: String)
        ensures
            s@ == self.message_text(),
    {
        match self {
            ParseError::MissingCommitType => "Missing commit type".to_string(),
            ParseError::MissingDescription => "Missing description".to_string(),
        }
    }
}

} // verus!
