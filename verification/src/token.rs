//! The tokens a commit message is cut into.

use vstd::prelude::*;

verus! {

/// One part of a commit message.
#[derive(Debug, PartialEq, Eq)]
pub enum Token {
    /// The type of the commit, such as `feat` or `fix`.
    CommitType(String),
    /// The scope, the text between the parentheses after the type.
    Scope(String),
    /// The `!` that marks a breaking change.
    BreakingChangeMarker,
    /// The one-line description after the colon.
    Description(String),
    /// The free text below the description.
    Body(String),
    /// The trailing block that starts at a footer marker.
    Footer(String),
}

/// A token as contracts see it: the same variants over sequences of
/// characters.
pub enum TokenView {
    CommitType(Seq<char>),
    Scope(Seq<char>),
    BreakingChangeMarker,
    Description(Seq<char>),
    Body(Seq<char>),
    Footer(Seq<char>),
}

impl View for Token {
    type V = TokenView;

    open spec fn view(&self) -> TokenView {
        match self {
            Token::CommitType(s) => TokenView::CommitType(s@),
            Token::Scope(s) => TokenView::Scope(s@),
            Token::BreakingChangeMarker => TokenView::BreakingChangeMarker,
            Token::Description(s) => TokenView::Description(s@),
            Token::Body(s) => TokenView::Body(s@),
            Token::Footer(s) => TokenView::Footer(s@),
        }
    }
}

impl DeepView for Token {
    type V = TokenView;

    open spec fn deep_view(&self) -> TokenView {
        self@
    }
}

/// No token or one token, as a sequence.
pub open spec fn optional(token: Option<TokenView>) -> Seq<TokenView> {
    match token {
        Some(t) => seq![t],
        None => Seq::empty(),
    }
}

impl TokenView {
    /// The text of a `CommitType` token.
    pub open spec fn commit_type(self) -> Option<Seq<char>> {
        match self {
            TokenView::CommitType(s) => Some(s),
            _ => None,
        }
    }

    /// The text of a `Scope` token.
    pub open spec fn scope(self) -> Option<Seq<char>> {
        match self {
            TokenView::Scope(s) => Some(s),
            _ => None,
        }
    }

    /// The text of a `Description` token.
    pub open spec fn description(self) -> Option<Seq<char>> {
        match self {
            TokenView::Description(s) => Some(s),
            _ => None,
        }
    }

    /// The text of a `Body` token.
    pub open spec fn body(self) -> Option<Seq<char>> {
        match self {
            TokenView::Body(s) => Some(s),
            _ => None,
        }
    }

    /// The text of a `Footer` token.
    pub open spec fn footer(self) -> Option<Seq<char>> {
        match self {
            TokenView::Footer(s) => Some(s),
            _ => None,
        }
    }
}

} // verus!
