//! The parsed commit and the parser that folds tokens into it.

use vstd::prelude::*;
use crate::error::ParseError;
use crate::token::{optional, Token, TokenView};

verus! {

/// A parsed commit message.
#[derive(Debug, PartialEq, Eq)]
pub struct ConventionalCommit {
    /// The type of the commit, such as `feat` or `fix`.
    pub commit_type: String,
    /// The scope, if the header names one.
    pub scope: Option<String>,
    /// Whether the header marks a breaking change.
    pub breaking_change: bool,
    /// The one-line description.
    pub description: String,
    /// The body, if there is one.
    pub body: Option<String>,
    /// The footer, if there is one.
    pub footer: Option<String>,
}

/// A commit as contracts see it.
pub struct CommitView {
    pub commit_type: Seq<char>,
    pub scope: Option<Seq<char>>,
    pub breaking_change: bool,
    pub description: Seq<char>,
    pub body: Option<Seq<char>>,
    pub footer: Option<Seq<char>>,
}

impl View for ConventionalCommit {
    type V = CommitView;

    open spec fn view(&self) -> CommitView {
        CommitView {
            commit_type: self.commit_type@,
            scope: self.scope.deep_view(),
            breaking_change: self.breaking_change,
            description: self.description@,
            body: self.body.deep_view(),
            footer: self.footer.deep_view(),
        }
    }
}

impl ConventionalCommit {
    /// A commit with the given fields.
    pub fn new(
        commit_type: String,
        scope: Option<String>,
        breaking_change: bool,
        description: String,
        body: Option<String>,
        footer: Option<String>,
    ) -> (commit: Self)
        ensures
            commit@ == (CommitView {
                commit_type: commit_type@,
                scope: scope.deep_view(),
                breaking_change,
                description: description@,
                body: body.deep_view(),
                footer: footer.deep_view(),
            }),
    {
        ConventionalCommit { commit_type, scope, breaking_change, description, body, footer }
    }
}

/// What the last token of `tokens` that `pick` selects carries; `None` where
/// it selects none.
pub open spec fn last_picked(
    tokens: Seq<TokenView>,
    pick: spec_fn(TokenView) -> Option<Seq<char>>,
) -> Option<Seq<char>>
    decreases tokens.len(),
{
    if tokens.len() == 0 {
        None
    } else if pick(tokens.last()) is Some {
        pick(tokens.last())
    } else {
        last_picked(tokens.drop_last(), pick)
    }
}

/// Whether a `BreakingChangeMarker` occurs among `tokens`.
pub open spec fn has_breaking_marker(tokens: Seq<TokenView>) -> bool {
    exists|i: int| 0 <= i < tokens.len() && tokens[i] is BreakingChangeMarker
}

/// What the parser reads from a sequence of tokens, before it asks for the
/// type and the description.
pub struct Fields {
    pub commit_type: Option<Seq<char>>,
    pub scope: Option<Seq<char>>,
    pub breaking_change: bool,
    pub description: Option<Seq<char>>,
    pub body: Option<Seq<char>>,
    pub footer: Option<Seq<char>>,
}

impl Fields {
    /// The fields of no token at all.
    pub open spec fn empty() -> Fields {
        Fields {
            commit_type: None,
            scope: None,
            breaking_change: false,
            description: None,
            body: None,
            footer: None,
        }
    }

    /// The fields once `token` has overwritten its own.
    pub open spec fn with(self, token: TokenView) -> Fields {
        match token {
            TokenView::CommitType(t) => Fields { commit_type: Some(t), ..self },
            TokenView::Scope(t) => Fields { scope: Some(t), ..self },
            TokenView::BreakingChangeMarker => Fields { breaking_change: true, ..self },
            TokenView::Description(t) => Fields { description: Some(t), ..self },
            TokenView::Body(t) => Fields { body: Some(t), ..self },
            TokenView::Footer(t) => Fields { footer: Some(t), ..self },
        }
    }
}

/// The fields of `tokens`: each text is that of the last token of its kind,
/// wherever it stands, and the change is breaking if a marker occurs.
pub open spec fn fields(tokens: Seq<TokenView>) -> Fields {
    Fields {
        commit_type: last_picked(tokens, |t: TokenView| t.commit_type()),
        scope: last_picked(tokens, |t: TokenView| t.scope()),
        breaking_change: has_breaking_marker(tokens),
        description: last_picked(tokens, |t: TokenView| t.description()),
        body: last_picked(tokens, |t: TokenView| t.body()),
        footer: last_picked(tokens, |t: TokenView| t.footer()),
    }
}

/// The commit that `tokens` stand for: their fields, where a type and a
/// description are among them. The type is asked for first.
pub open spec fn parse_tokens(tokens: Seq<TokenView>) -> Result<CommitView, ParseError> {
    let found = fields(tokens);
    match (found.commit_type, found.description) {
        (None, _) => Err(ParseError::MissingCommitType),
        (Some(_), None) => Err(ParseError::MissingDescription),
        (Some(commit_type), Some(description)) => Ok(
            CommitView {
                commit_type,
                scope: found.scope,
                breaking_change: found.breaking_change,
                description,
                body: found.body,
                footer: found.footer,
            },
        ),
    }
}

/// The tokens of a commit, in the order of the grammar.
pub open spec fn tokens_of(commit: CommitView) -> Seq<TokenView> {
    seq![TokenView::CommitType(commit.commit_type)] + optional(
        match commit.scope {
            Some(scope) => Some(TokenView::Scope(scope)),
            None => None,
        },
    ) + optional(
        if commit.breaking_change {
            Some(TokenView::BreakingChangeMarker)
        } else {
            None
        },
    ) + seq![TokenView::Description(commit.description)] + optional(
        match commit.body {
            Some(body) => Some(TokenView::Body(body)),
            None => None,
        },
    ) + optional(
        match commit.footer {
            Some(footer) => Some(TokenView::Footer(footer)),
            None => None,
        },
    )
}

/// Appending a token replaces what `pick` finds if `pick` selects the token,
/// and changes nothing otherwise.
pub proof fn lemma_last_picked_push(
    tokens: Seq<TokenView>,
    token: TokenView,
    pick: spec_fn(TokenView) -> Option<Seq<char>>,
)
    ensures
        last_picked(tokens.push(token), pick) == if pick(token) is Some {
            pick(token)
        } else {
            last_picked(tokens, pick)
        },
{
    assert(tokens.push(token).drop_last() == tokens);
}

/// Nothing is found exactly where `pick` selects no token.
pub proof fn lemma_last_picked_none(
    tokens: Seq<TokenView>,
    pick: spec_fn(TokenView) -> Option<Seq<char>>,
)
    ensures
        last_picked(tokens, pick) is None <==> forall|i: int|
            0 <= i < tokens.len() ==> pick(#[trigger] tokens[i]) is None,
    decreases tokens.len(),
{
    if tokens.len() > 0 {
        let front = tokens.drop_last();
        lemma_last_picked_none(front, pick);
        if pick(tokens.last()) is None {
            if last_picked(front, pick) is None {
                assert forall|i: int| 0 <= i < tokens.len() implies pick(
                    #[trigger] tokens[i],
                ) is None by {
                    if i < front.len() {
                        assert(tokens[i] == front[i]);
                    }
                }
            } else {
                let i = choose|i: int| 0 <= i < front.len() && !(pick(#[trigger] front[i]) is None);
                assert(tokens[i] == front[i]);
            }
        }
    }
}

/// What is found is what the token at `i` carries, where `pick` selects it
/// and none behind it.
pub proof fn lemma_last_picked_at(
    tokens: Seq<TokenView>,
    pick: spec_fn(TokenView) -> Option<Seq<char>>,
    i: int,
)
    requires
        0 <= i < tokens.len(),
        pick(tokens[i]) is Some,
        forall|j: int| i < j < tokens.len() ==> pick(#[trigger] tokens[j]) is None,
    ensures
        last_picked(tokens, pick) == pick(tokens[i]),
    decreases tokens.len(),
{
    if i < tokens.len() - 1 {
        let front = tokens.drop_last();
        assert(pick(tokens[tokens.len() - 1]) is None);
        assert(front[i] == tokens[i]);
        assert forall|j: int| i < j < front.len() implies pick(#[trigger] front[j]) is None by {
            assert(front[j] == tokens[j]);
        }
        lemma_last_picked_at(front, pick, i);
    }
}

/// No token, no field.
pub proof fn lemma_fields_empty()
    ensures
        fields(Seq::<TokenView>::empty()) == Fields::empty(),
{
}

/// The parser is a fold: a token appended overwrites its own field and
/// leaves the others.
pub proof fn lemma_fields_push(tokens: Seq<TokenView>, token: TokenView)
    ensures
        fields(tokens.push(token)) == fields(tokens).with(token),
{
    let next = tokens.push(token);
    lemma_last_picked_push(tokens, token, |t: TokenView| t.commit_type());
    lemma_last_picked_push(tokens, token, |t: TokenView| t.scope());
    lemma_last_picked_push(tokens, token, |t: TokenView| t.description());
    lemma_last_picked_push(tokens, token, |t: TokenView| t.body());
    lemma_last_picked_push(tokens, token, |t: TokenView| t.footer());
    if has_breaking_marker(tokens) {
        let i = choose|i: int| 0 <= i < tokens.len() && tokens[i] is BreakingChangeMarker;
        assert(next[i] is BreakingChangeMarker);
    }
    if token is BreakingChangeMarker {
        assert(next[tokens.len() as int] is BreakingChangeMarker);
    }
    if has_breaking_marker(next) {
        let i = choose|i: int| 0 <= i < next.len() && next[i] is BreakingChangeMarker;
        if i < tokens.len() {
            assert(tokens[i] is BreakingChangeMarker);
        }
    }
}

/// Folds `tokens` into a commit.
pub fn parse_commit(tokens: Vec<Token>) -> (r: Result<ConventionalCommit, ParseError>)
    ensures
        match r {
            Ok(commit) => parse_tokens(tokens.deep_view()) == Ok::<CommitView, ParseError>(commit@),
            Err(e) => parse_tokens(tokens.deep_view()) == Err::<CommitView, ParseError>(e),
        },
{
    let ghost all = tokens.deep_view();
    let mut commit_type: Option<String> = None;
    let mut scope: Option<String> = None;
    let mut breaking_change: bool = false;
    let mut description: Option<String> = None;
    let mut body: Option<String> = None;
    let mut footer: Option<String> = None;
    proof {
        lemma_fields_empty();
        assert(all.take(0) == Seq::<TokenView>::empty());
    }

    for token in it: tokens
        invariant
            it.seq().len() == all.len(),
            forall|i: int| 0 <= i < all.len() ==> all[i] == #[trigger] it.seq()[i]@,
            fields(all.take(it.index())) == (Fields {
                commit_type: commit_type.deep_view(),
                scope: scope.deep_view(),
                breaking_change,
                description: description.deep_view(),
                body: body.deep_view(),
                footer: footer.deep_view(),
            }),
    {
        proof {
            assert(all.take(it.index() + 1) == all.take(it.index()).push(token@));
            lemma_fields_push(all.take(it.index()), token@);
        }
        match token {
            Token::CommitType(t) => commit_type = Some(t),
            Token::Scope(s) => scope = Some(s),
            Token::BreakingChangeMarker => breaking_change = true,
            Token::Description(d) => description = Some(d),
            Token::Body(b) => body = Some(b),
            Token::Footer(f) => footer = Some(f),
        }
    }
    proof {
        assert(all.take(all.len() as int) == all);
    }

    if let Some(commit_type) = commit_type {
        if let Some(description) = description {
            Ok(ConventionalCommit::new(commit_type, scope, breaking_change, description, body, footer))
        } else {
            Err(ParseError::MissingDescription)
        }
    } else {
        Err(ParseError::MissingCommitType)
    }
}

} // verus!
