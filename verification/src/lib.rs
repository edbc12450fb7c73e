//! Lexer and parser for Conventional Commits messages.
//!
//! A message is cut into [`Token`]s by a [`Lexer`], and the tokens are folded
//! into a [`ConventionalCommit`] by [`parse_commit`]. Contracts speak of
//! sequences of characters: the grammar is the spec function
//! [`grammar::tokenize_from`], the fold is [`commit::parse_tokens`].

pub mod chars;
pub mod commit;
pub mod error;
pub mod grammar;
pub mod lexer;
pub mod text;
pub mod theorems;
pub mod token;

pub use commit::{parse_commit, CommitView, ConventionalCommit};
pub use error::{LexError, ParseError};
pub use lexer::Lexer;
pub use token::{Token, TokenView};
