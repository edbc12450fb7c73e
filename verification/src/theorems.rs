//! What holds of the lexer and the parser together, proved from the grammar
//! and the fold.

use vstd::prelude::*;
use crate::chars::{is_alphanumeric, is_whitespace};
use crate::commit::{
    fields, lemma_fields_empty, lemma_fields_push, lemma_last_picked_at, lemma_last_picked_none,
    parse_tokens, tokens_of, CommitView, Fields,
};
use crate::error::{LexError, ParseError};
use crate::grammar::{
    body_text, colon_index, footer_text, has_marker, has_scope, lemma_scan_commit_type_reads,
    lemma_scan_description_reads, lemma_scan_scope_reads, marker_index, rest_index,
    scan_body_and_footer, scan_commit_type, scan_description, scan_scope, scope_index, tokenize,
    tokenize_from,
};
use crate::text::{
    char_at, footer_index, index_of, is_footer_start, lemma_alphanumeric_end, lemma_footer_index,
    lemma_footer_marker, lemma_index_of, lemma_trim, lemma_trim_of_trimmed, lemma_whitespace_end,
    lemma_whitespace_end_is, trim, whitespace_end, BREAKING_CHANGE, REFS, REVIEWED_BY,
};
use crate::token::{optional, TokenView};

verus! {

/// Appending no token changes nothing, appending one token is a push.
proof fn lemma_fields_optional(tokens: Seq<TokenView>, token: Option<TokenView>)
    ensures
        fields(tokens + optional(token)) == match token {
            Some(t) => fields(tokens).with(t),
            None => fields(tokens),
        },
{
    match token {
        Some(t) => {
            assert(tokens + optional(token) == tokens.push(t));
            lemma_fields_push(tokens, t);
        },
        None => {
            assert(tokens + optional(token) == tokens);
        },
    }
}

/// The parser undoes the listing of a commit's tokens: the tokens of a
/// commit, in the order of the grammar, parse to that commit.
pub proof fn theorem_parse_tokens_of(commit: CommitView)
    ensures
        parse_tokens(tokens_of(commit)) == Ok::<CommitView, ParseError>(commit),
{
    let commit_type = TokenView::CommitType(commit.commit_type);
    let scope = match commit.scope {
        Some(scope) => Some(TokenView::Scope(scope)),
        None => None,
    };
    let marker = if commit.breaking_change {
        Some(TokenView::BreakingChangeMarker)
    } else {
        None
    };
    let description = TokenView::Description(commit.description);
    let body = match commit.body {
        Some(body) => Some(TokenView::Body(body)),
        None => None,
    };
    let footer = match commit.footer {
        Some(footer) => Some(TokenView::Footer(footer)),
        None => None,
    };
    let t1 = seq![commit_type];
    let t2 = t1 + optional(scope);
    let t3 = t2 + optional(marker);
    let t4 = t3 + seq![description];
    let t5 = t4 + optional(body);
    let t6 = t5 + optional(footer);
    lemma_fields_empty();
    assert(t1 == Seq::<TokenView>::empty().push(commit_type));
    lemma_fields_push(Seq::<TokenView>::empty(), commit_type);
    lemma_fields_optional(t1, scope);
    lemma_fields_optional(t2, marker);
    assert(t4 == t3.push(description));
    lemma_fields_push(t3, description);
    lemma_fields_optional(t4, body);
    lemma_fields_optional(t5, footer);
    assert(fields(t6) == (Fields {
        commit_type: Some(commit.commit_type),
        scope: commit.scope,
        breaking_change: commit.breaking_change,
        description: Some(commit.description),
        body: commit.body,
        footer: commit.footer,
    }));
}

/// Tokens that are all commit types and descriptions give a commit without
/// scope, breaking change, body and footer. They give a commit if and only
/// if both kinds occur.
pub proof fn theorem_type_and_description_tokens(tokens: Seq<TokenView>)
    requires
        forall|i: int|
            0 <= i < tokens.len() ==> (#[trigger] tokens[i]) is CommitType
                || tokens[i] is Description,
    ensures
        parse_tokens(tokens) matches Ok(commit) ==> commit.scope is None
            && !commit.breaking_change && commit.body is None && commit.footer is None,
        parse_tokens(tokens) is Ok <==> (exists|i: int|
            0 <= i < tokens.len() && (#[trigger] tokens[i]) is CommitType) && (exists|i: int|
            0 <= i < tokens.len() && (#[trigger] tokens[i]) is Description),
{
    lemma_last_picked_none(tokens, |t: TokenView| t.scope());
    lemma_last_picked_none(tokens, |t: TokenView| t.body());
    lemma_last_picked_none(tokens, |t: TokenView| t.footer());
    lemma_last_picked_none(tokens, |t: TokenView| t.commit_type());
    lemma_last_picked_none(tokens, |t: TokenView| t.description());
    if fields(tokens).commit_type is Some {
        let i = choose|i: int|
            0 <= i < tokens.len() && !((|t: TokenView| t.commit_type())(
                #[trigger] tokens[i],
            ) is None);
        assert(tokens[i] is CommitType);
    }
    if fields(tokens).description is Some {
        let i = choose|i: int|
            0 <= i < tokens.len() && !((|t: TokenView| t.description())(
                #[trigger] tokens[i],
            ) is None);
        assert(tokens[i] is Description);
    }
}

/// The last token of a kind wins: where the description at `last` has no
/// description behind it, the commit holds its text, whatever descriptions
/// stand before it.
pub proof fn theorem_last_description_wins(tokens: Seq<TokenView>, last: int, text: Seq<char>)
    requires
        0 <= last < tokens.len(),
        tokens[last] == TokenView::Description(text),
        forall|j: int| last < j < tokens.len() ==> !((#[trigger] tokens[j]) is Description),
    ensures
        fields(tokens).description == Some(text),
        parse_tokens(tokens) matches Ok(commit) ==> commit.description == text,
        fields(tokens).commit_type is Some ==> parse_tokens(tokens) is Ok,
{
    lemma_last_picked_at(tokens, |t: TokenView| t.description(), last);
}

/// The commit whose tokens the grammar reads from `s`, with the place of
/// each part of the header.
proof fn lemma_lexed_commit(s: Seq<char>, from: int) -> (commit: CommitView)
    requires
        0 <= from <= s.len(),
        tokenize_from(s, from).0 is Ok,
    ensures
        tokenize_from(s, from).0 == Ok::<Seq<TokenView>, LexError>(tokens_of(commit)),
        parse_tokens(tokens_of(commit)) == Ok::<CommitView, ParseError>(commit),
        from <= whitespace_end(s, from) <= scope_index(s, from) <= marker_index(s, from)
            <= colon_index(s, from) < s.len(),
        commit.commit_type == s.subrange(whitespace_end(s, from), scope_index(s, from)),
        forall|i: int|
            whitespace_end(s, from) <= i < scope_index(s, from) ==> is_alphanumeric(
                #[trigger] s[i],
            ),
        has_scope(s, from) ==> {
            &&& commit.scope == Some(
                s.subrange(scope_index(s, from) + 1, marker_index(s, from) - 1),
            )
            &&& scope_index(s, from) < marker_index(s, from) - 1
            &&& s[marker_index(s, from) - 1] == ')'
            &&& forall|i: int|
                scope_index(s, from) < i < marker_index(s, from) - 1 ==> #[trigger] s[i] != ')'
        },
        !has_scope(s, from) ==> commit.scope is None,
        commit.commit_type.len() > 0,
        commit.breaking_change == has_marker(s, from),
        s[colon_index(s, from)] == ':',
        commit.description.len() > 0,
{
    reveal(tokenize_from);
    let start = whitespace_end(s, from);
    lemma_whitespace_end(s, from);
    lemma_alphanumeric_end(s, start);
    let open = scope_index(s, from);
    if has_scope(s, from) {
        lemma_index_of(s, open + 1, ')');
    }
    let colon = colon_index(s, from);
    lemma_whitespace_end(s, colon + 1);
    lemma_index_of(s, whitespace_end(s, colon + 1), '\n');
    let rest = scan_body_and_footer(s, rest_index(s, from)).0;
    let commit = CommitView {
        commit_type: scan_commit_type(s, from).0->Ok_0->CommitType_0,
        scope: if has_scope(s, from) {
            Some(scan_scope(s, open).0->Ok_0->Scope_0)
        } else {
            None
        },
        breaking_change: has_marker(s, from),
        description: scan_description(s, colon + 1).0->Ok_0->Description_0,
        body: match rest.0 {
            Some(body) => Some(body->Body_0),
            None => None,
        },
        footer: match rest.1 {
            Some(footer) => Some(footer->Footer_0),
            None => None,
        },
    };
    theorem_parse_tokens_of(commit);
    commit
}

/// Whatever the lexer accepts, the parser accepts: the tokens of a lexed
/// message stand in the order of the grammar and parse to a commit whose
/// type and description are not empty.
pub proof fn theorem_lexed_tokens_parse(s: Seq<char>, from: int)
    requires
        0 <= from <= s.len(),
        tokenize_from(s, from).0 is Ok,
    ensures
        parse_tokens(tokenize_from(s, from).0->Ok_0) matches Ok(commit) && {
            &&& tokenize_from(s, from).0->Ok_0 == tokens_of(commit)
            &&& commit.commit_type.len() > 0
            &&& commit.description.len() > 0
        },
{
    let commit = lemma_lexed_commit(s, from);
}

/// The commit of a lexed message is a breaking change exactly where a `!`
/// stands immediately before the colon that separates header and
/// description, with or without a scope.
pub proof fn theorem_breaking_change_marker(s: Seq<char>, from: int)
    requires
        0 <= from <= s.len(),
        tokenize_from(s, from).0 is Ok,
    ensures
        char_at(s, colon_index(s, from)) == Some(':'),
        parse_tokens(tokenize_from(s, from).0->Ok_0) matches Ok(commit)
            && commit.breaking_change == (char_at(s, colon_index(s, from) - 1) == Some('!')),
{
    let commit = lemma_lexed_commit(s, from);
    let colon = colon_index(s, from);
    if !has_marker(s, from) && !has_scope(s, from) {
        assert(is_alphanumeric(s[colon - 1]));
    }
}

/// The scope of a lexed message is the exact text between the `(` that
/// follows the commit type and the first `)` behind it, be it empty; without
/// that `(` the commit has no scope.
pub proof fn theorem_scope_between_parentheses(s: Seq<char>, from: int)
    requires
        0 <= from <= s.len(),
        tokenize_from(s, from).0 is Ok,
    ensures
        parse_tokens(tokenize_from(s, from).0->Ok_0) matches Ok(commit) && {
            let open = scope_index(s, from);
            let close = index_of(s, open + 1, ')');
            if char_at(s, open) == Some('(') {
                &&& open < close < s.len()
                &&& s[close] == ')'
                &&& forall|i: int| open < i < close ==> #[trigger] s[i] != ')'
                &&& commit.scope == Some(s.subrange(open + 1, close))
            } else {
                commit.scope is None
            }
        },
{
    let commit = lemma_lexed_commit(s, from);
}

/// The text of a header: the commit type, the scope in parentheses if there
/// is one, and a `!` for a breaking change.
pub open spec fn header_text(
    commit_type: Seq<char>,
    scope: Option<Seq<char>>,
    breaking_change: bool,
) -> Seq<char> {
    commit_type + match scope {
        Some(text) => seq!['('] + text + seq![')'],
        None => Seq::empty(),
    } + if breaking_change {
        seq!['!']
    } else {
        Seq::empty()
    }
}

/// Whether the parts can stand in a header line: the type is not empty and
/// all alphanumeric, the scope holds no `)`, the gap behind the colon is all
/// whitespace, and the description is not empty, does not begin with
/// whitespace and holds no line feed.
pub open spec fn is_header_line(
    commit_type: Seq<char>,
    scope: Option<Seq<char>>,
    gap: Seq<char>,
    description: Seq<char>,
) -> bool {
    &&& commit_type.len() > 0
    &&& forall|i: int| 0 <= i < commit_type.len() ==> is_alphanumeric(#[trigger] commit_type[i])
    &&& scope matches Some(text) ==> forall|i: int|
        0 <= i < text.len() ==> #[trigger] text[i] != ')'
    &&& forall|i: int| 0 <= i < gap.len() ==> is_whitespace(#[trigger] gap[i])
    &&& description.len() > 0
    &&& !is_whitespace(description[0])
    &&& forall|i: int| 0 <= i < description.len() ==> #[trigger] description[i] != '\n'
}

/// The text of a header line: the header, a colon, the gap and the
/// description.
pub open spec fn header_line(
    commit_type: Seq<char>,
    scope: Option<Seq<char>>,
    breaking_change: bool,
    gap: Seq<char>,
    description: Seq<char>,
) -> Seq<char> {
    header_text(commit_type, scope, breaking_change) + seq![':'] + gap + description
}

/// Where the breaking change marker of a header stands, if it has one.
spec fn marker_place(commit_type: Seq<char>, scope: Option<Seq<char>>) -> int {
    commit_type.len() as int + match scope {
        Some(text) => text.len() as int + 2,
        None => 0int,
    }
}

/// Where the colon of a header line stands.
spec fn colon_place(commit_type: Seq<char>, scope: Option<Seq<char>>, breaking_change: bool) -> int {
    marker_place(commit_type, scope) + if breaking_change {
        1int
    } else {
        0int
    }
}

/// The parts of a header line stand in it one behind the other.
proof fn lemma_header_line_parts(
    commit_type: Seq<char>,
    scope: Option<Seq<char>>,
    breaking_change: bool,
    gap: Seq<char>,
    description: Seq<char>,
)
    ensures
        ({
            let line = header_line(commit_type, scope, breaking_change, gap, description);
            let open = commit_type.len() as int;
            let bang = marker_place(commit_type, scope);
            let colon = colon_place(commit_type, scope, breaking_change);
            let start = colon + 1 + gap.len();
            &&& line.len() == start + description.len()
            &&& line.subrange(0, open) == commit_type
            &&& scope matches Some(text) ==> line[open] == '(' && line.subrange(open + 1, bang - 1)
                == text && line[bang - 1] == ')'
            &&& breaking_change ==> line[bang] == '!'
            &&& line[colon] == ':'
            &&& line.subrange(colon + 1, start) == gap
            &&& line.subrange(start, start + description.len()) == description
        }),
{
    let header = header_text(commit_type, scope, breaking_change);
    assert(header.len() == colon_place(commit_type, scope, breaking_change));
}

/// A prefix of a sequence holds the same characters at the same places.
proof fn lemma_prefix_parts(prefix: Seq<char>, s: Seq<char>)
    requires
        prefix.is_prefix_of(s),
    ensures
        forall|i: int| 0 <= i < prefix.len() ==> #[trigger] s[i] == prefix[i],
        forall|from: int, to: int|
            0 <= from <= to <= prefix.len() ==> #[trigger] s.subrange(from, to)
                == prefix.subrange(from, to),
{
    assert forall|i: int| 0 <= i < prefix.len() implies #[trigger] s[i] == prefix[i] by {
        assert(s.subrange(0, prefix.len() as int)[i] == prefix[i]);
    }
    assert forall|from: int, to: int| 0 <= from <= to <= prefix.len() implies #[trigger] s.subrange(
        from,
        to,
    ) == prefix.subrange(from, to) by {
        assert forall|i: int| 0 <= i < to - from implies s.subrange(from, to)[i]
            == prefix.subrange(from, to)[i] by {
            assert(s[from + i] == prefix[from + i]);
        }
    }
}

/// What the grammar reads from a message that begins with a header line,
/// where the message ends behind the line or goes on with a line feed.
proof fn lemma_header_line(
    s: Seq<char>,
    commit_type: Seq<char>,
    scope: Option<Seq<char>>,
    breaking_change: bool,
    gap: Seq<char>,
    description: Seq<char>,
)
    requires
        is_header_line(commit_type, scope, gap, description),
        header_line(commit_type, scope, breaking_change, gap, description).is_prefix_of(s),
        char_at(s, header_line(commit_type, scope, breaking_change, gap, description).len() as int)
            matches Some(c) ==> c == '\n',
    ensures
        scan_commit_type(s, 0).0 == Ok::<TokenView, LexError>(TokenView::CommitType(commit_type)),
        has_scope(s, 0) == scope is Some,
        scope matches Some(text) ==> scan_scope(s, scope_index(s, 0)).0 == Ok::<
            TokenView,
            LexError,
        >(TokenView::Scope(text)),
        has_marker(s, 0) == breaking_change,
        char_at(s, colon_index(s, 0)) == Some(':'),
        scan_description(s, colon_index(s, 0) + 1).0 == Ok::<TokenView, LexError>(
            TokenView::Description(description),
        ),
        header_line(commit_type, scope, breaking_change, gap, description).len() < s.len()
            ==> rest_index(s, 0) == header_line(
            commit_type,
            scope,
            breaking_change,
            gap,
            description,
        ).len() + 1,
        header_line(commit_type, scope, breaking_change, gap, description).len() == s.len()
            ==> rest_index(s, 0) == s.len(),
{
    let line = header_line(commit_type, scope, breaking_change, gap, description);
    let open = commit_type.len() as int;
    let bang = marker_place(commit_type, scope);
    let colon = colon_place(commit_type, scope, breaking_change);
    let start = colon + 1 + gap.len();
    lemma_header_line_parts(commit_type, scope, breaking_change, gap, description);
    lemma_prefix_parts(line, s);
    assert(s.subrange(0, open) == commit_type);
    assert(s[colon] == ':');
    assert(s.subrange(colon + 1, start) == gap);
    assert(s.subrange(start, start + description.len()) == description);
    if scope is Some {
        let text = scope->Some_0;
        assert(s[open] == '(');
        assert(s.subrange(open + 1, open + 1 + text.len()) == text);
        assert(s[bang - 1] == ')');
        lemma_scan_scope_reads(s, open, text);
    }
    if breaking_change {
        assert(s[bang] == '!');
    }
    assert(s[open] == '(' || s[open] == '!' || s[open] == ':');
    lemma_scan_commit_type_reads(s, 0, commit_type);
    assert(scope_index(s, 0) == open);
    assert(marker_index(s, 0) == bang);
    assert(colon_index(s, 0) == colon);
    lemma_scan_description_reads(s, colon + 1, gap, description);
}

/// A header, a colon, any whitespace and a one-line description are lexed
/// and parsed to the commit with exactly that type, scope, marker and
/// description, and with neither body nor footer.
pub proof fn theorem_header_and_description(
    commit_type: Seq<char>,
    scope: Option<Seq<char>>,
    breaking_change: bool,
    gap: Seq<char>,
    description: Seq<char>,
)
    requires
        is_header_line(commit_type, scope, gap, description),
    ensures
        ({
            let message = header_line(commit_type, scope, breaking_change, gap, description);
            let commit = CommitView {
                commit_type,
                scope,
                breaking_change,
                description,
                body: None,
                footer: None,
            };
            &&& tokenize(message) == Ok::<Seq<TokenView>, LexError>(tokens_of(commit))
            &&& parse_tokens(tokens_of(commit)) == Ok::<CommitView, ParseError>(commit)
        }),
{
    let s = header_line(commit_type, scope, breaking_change, gap, description);
    let commit = CommitView {
        commit_type,
        scope,
        breaking_change,
        description,
        body: None,
        footer: None,
    };
    theorem_parse_tokens_of(commit);
    assert(s.subrange(0, s.len() as int) == s);
    lemma_header_line(s, commit_type, scope, breaking_change, gap, description);
    lemma_whitespace_end_is(s, s.len() as int, s.len() as int);
    reveal(tokenize_from);
    assert(tokenize(s) == Ok::<Seq<TokenView>, LexError>(tokens_of(commit)));
}

/// A message of the shape `type: description` is lexed and parsed to a
/// commit with that type and that description, without scope, breaking
/// change, body and footer.
pub proof fn theorem_type_and_description(
    commit_type: Seq<char>,
    gap: Seq<char>,
    description: Seq<char>,
)
    requires
        is_header_line(commit_type, None, gap, description),
    ensures
        tokenize(commit_type + seq![':'] + gap + description) matches Ok(tokens) && parse_tokens(
            tokens,
        ) == Ok::<CommitView, ParseError>(
            CommitView {
                commit_type,
                scope: None,
                breaking_change: false,
                description,
                body: None,
                footer: None,
            },
        ),
{
    theorem_header_and_description(commit_type, None, false, gap, description);
    assert(header_text(commit_type, None, false) == commit_type);
    assert(header_line(commit_type, None, false, gap, description) == commit_type + seq![':']
        + gap + description);
}

/// The two ways to write down a header with a scope and what follows it.
proof fn lemma_scoped_message_text(
    commit_type: Seq<char>,
    scope: Seq<char>,
    gap: Seq<char>,
    description: Seq<char>,
)
    ensures
        header_line(commit_type, Some(scope), false, gap, description) == commit_type + seq!['(']
            + scope + seq![')', ':'] + gap + description,
{
}

/// A message of the shape `type(scope): description` is lexed and parsed to
/// a commit whose scope is the exact text between the parentheses, be it
/// empty.
pub proof fn theorem_type_scope_and_description(
    commit_type: Seq<char>,
    scope: Seq<char>,
    gap: Seq<char>,
    description: Seq<char>,
)
    requires
        is_header_line(commit_type, Some(scope), gap, description),
    ensures
        tokenize(commit_type + seq!['('] + scope + seq![')', ':'] + gap + description) matches Ok(
            tokens,
        ) && parse_tokens(tokens) == Ok::<CommitView, ParseError>(
            CommitView {
                commit_type,
                scope: Some(scope),
                breaking_change: false,
                description,
                body: None,
                footer: None,
            },
        ),
{
    theorem_header_and_description(commit_type, Some(scope), false, gap, description);
    lemma_scoped_message_text(commit_type, scope, gap, description);
}

/// A header that ends in `!` gives one breaking change marker, directly
/// before the description, and a commit that is a breaking change, with or
/// without a scope.
pub proof fn theorem_marked_header(
    commit_type: Seq<char>,
    scope: Option<Seq<char>>,
    gap: Seq<char>,
    description: Seq<char>,
)
    requires
        is_header_line(commit_type, scope, gap, description),
    ensures
        tokenize(header_line(commit_type, scope, true, gap, description)) matches Ok(tokens) && {
            &&& tokens == seq![TokenView::CommitType(commit_type)] + optional(
                match scope {
                    Some(text) => Some(TokenView::Scope(text)),
                    None => None,
                },
            ) + seq![TokenView::BreakingChangeMarker, TokenView::Description(description)]
            &&& parse_tokens(tokens) matches Ok(commit) && commit.breaking_change
        },
{
    theorem_header_and_description(commit_type, scope, true, gap, description);
    let commit = CommitView {
        commit_type,
        scope,
        breaking_change: true,
        description,
        body: None,
        footer: None,
    };
    assert(tokens_of(commit) == seq![TokenView::CommitType(commit_type)] + optional(
        match scope {
            Some(text) => Some(TokenView::Scope(text)),
            None => None,
        },
    ) + seq![TokenView::BreakingChangeMarker, TokenView::Description(description)]);
}

/// A marker that starts inside a range of `s` starts at that place of `s`.
proof fn lemma_footer_start_in_range(s: Seq<char>, from: int, to: int, i: int)
    requires
        0 <= from <= to <= s.len(),
        is_footer_start(s.subrange(from, to), i),
    ensures
        is_footer_start(s, from + i),
        from + i < to,
{
    let part = s.subrange(from, to);
    let marker = if BREAKING_CHANGE@.is_prefix_of(part.skip(i)) {
        BREAKING_CHANGE@
    } else if REVIEWED_BY@.is_prefix_of(part.skip(i)) {
        REVIEWED_BY@
    } else {
        REFS@
    };
    lemma_footer_marker(marker);
    assert(marker == part.skip(i).subrange(0, marker.len() as int));
    assert(marker == s.skip(from + i).subrange(0, marker.len() as int));
}

/// A range of `s` in which no footer marker starts, trimmed, holds no place
/// where one starts.
proof fn lemma_no_footer_start_in_trim(s: Seq<char>, from: int, to: int)
    requires
        0 <= from <= to <= s.len(),
        forall|i: int| from <= i < to ==> !is_footer_start(s, i),
    ensures
        forall|i: int| !is_footer_start(trim(s.subrange(from, to)), i),
{
    let part = s.subrange(from, to);
    let text = trim(part);
    lemma_trim(part);
    let offset = from + whitespace_end(part, 0);
    assert(text == s.subrange(offset, offset + text.len()));
    assert forall|i: int| !is_footer_start(text, i) by {
        if is_footer_start(text, i) {
            lemma_footer_start_in_range(s, offset, offset + text.len(), i);
        }
    }
}

/// What begins with a footer marker still begins with it once trimmed.
proof fn lemma_footer_start_of_trim(s: Seq<char>)
    requires
        is_footer_start(s, 0),
    ensures
        is_footer_start(trim(s), 0),
{
    assert(s.skip(0) == s);
    let marker = if BREAKING_CHANGE@.is_prefix_of(s) {
        BREAKING_CHANGE@
    } else if REVIEWED_BY@.is_prefix_of(s) {
        REVIEWED_BY@
    } else {
        REFS@
    };
    lemma_footer_marker(marker);
    assert(s[0] == marker[0]);
    assert(s[marker.len() - 1] == marker.last());
    lemma_whitespace_end_is(s, 0, 0);
    lemma_trim(s);
    let text = trim(s);
    assert(text.len() >= marker.len());
    assert(text.skip(0) == text);
    assert(marker == text.subrange(0, marker.len() as int));
}

/// What has been trimmed is its own trim.
proof fn lemma_trim_twice(s: Seq<char>)
    ensures
        trim(trim(s)) == trim(s),
{
    lemma_trim(s);
    if trim(s).len() > 0 {
        assert(trim(s)[0] == s[whitespace_end(s, 0)]);
    }
    lemma_trim_of_trimmed(trim(s));
}

/// What body and footer are like. A footer begins with a footer marker. A
/// body is not empty and no marker starts in it. Both are trimmed. Neither
/// is there exactly where nothing but whitespace is left, and there is no
/// footer exactly where no marker starts in what is left.
pub proof fn theorem_body_and_footer(s: Seq<char>, from: int)
    requires
        0 <= from <= s.len(),
    ensures
        footer_text(s, from) matches Some(text) ==> is_footer_start(text, 0) && trim(text) == text,
        body_text(s, from) matches Some(text) ==> text.len() > 0 && trim(text) == text
            && forall|i: int| !is_footer_start(text, i),
        body_text(s, from) is None && footer_text(s, from) is None <==> whitespace_end(s, from)
            == s.len(),
        footer_text(s, from) is None <==> forall|i: int|
            whitespace_end(s, from) <= i < s.len() ==> !is_footer_start(s, i),
{
    let start = whitespace_end(s, from);
    lemma_whitespace_end(s, from);
    let cut = footer_index(s, start);
    lemma_footer_index(s, start);
    let end = s.len() as int;
    let before = s.subrange(start, cut);
    lemma_trim(before);
    lemma_trim_twice(before);
    lemma_no_footer_start_in_trim(s, start, cut);
    if start < cut {
        assert(before[0] == s[start]);
    }
    if cut < end {
        let raw = s.subrange(cut, end);
        assert(raw == s.skip(cut));
        assert(raw.skip(0) == raw);
        lemma_footer_start_of_trim(raw);
        lemma_trim_twice(raw);
    }
}

/// Whitespace is found in a suffix where it is found in the whole.
proof fn lemma_whitespace_end_suffix(before: Seq<char>, rest: Seq<char>, from: int)
    requires
        0 <= from <= rest.len(),
    ensures
        whitespace_end(before + rest, before.len() + from) == before.len() + whitespace_end(
            rest,
            from,
        ),
{
    let s = before + rest;
    let end = whitespace_end(rest, from);
    lemma_whitespace_end(rest, from);
    assert forall|i: int| before.len() + from <= i < before.len() + end implies is_whitespace(
        #[trigger] s[i],
    ) by {
        assert(s[i] == rest[i - before.len()]);
    }
    if end < rest.len() {
        assert(s[before.len() + end] == rest[end]);
    }
    lemma_whitespace_end_is(s, before.len() + from, before.len() + end);
}

/// Footer markers are found in a suffix where they are found in the whole.
proof fn lemma_footer_index_suffix(before: Seq<char>, rest: Seq<char>, from: int)
    requires
        0 <= from <= rest.len(),
    ensures
        footer_index(before + rest, before.len() + from) == before.len() + footer_index(
            rest,
            from,
        ),
    decreases rest.len() - from,
{
    let s = before + rest;
    if from < rest.len() {
        assert(s.skip(before.len() + from) == rest.skip(from));
        if !is_footer_start(rest, from) {
            lemma_footer_index_suffix(before, rest, from + 1);
        }
    }
}

/// Body and footer of a message depend on nothing that stands before the
/// place where they are looked for.
proof fn lemma_body_and_footer_suffix(before: Seq<char>, rest: Seq<char>)
    ensures
        body_text(before + rest, before.len() as int) == body_text(rest, 0),
        footer_text(before + rest, before.len() as int) == footer_text(rest, 0),
        footer_text(rest, 0) is None ==> scan_body_and_footer(
            before + rest,
            before.len() as int,
        ).1 == (before + rest).len(),
{
    let s = before + rest;
    let shift = before.len() as int;
    lemma_whitespace_end_suffix(before, rest, 0);
    let start = whitespace_end(rest, 0);
    lemma_whitespace_end(rest, 0);
    lemma_footer_index_suffix(before, rest, start);
    let cut = footer_index(rest, start);
    lemma_footer_index(rest, start);
    assert(s.subrange(shift + start, shift + cut) == rest.subrange(start, cut));
    assert(s.subrange(shift + cut, s.len() as int) == rest.subrange(cut, rest.len() as int));
}

/// A header line, a line feed and any text are lexed and parsed to the
/// commit with exactly the type, scope, marker and description of the line,
/// and with the body and the footer of the text behind the line feed.
pub proof fn theorem_message(
    commit_type: Seq<char>,
    scope: Option<Seq<char>>,
    breaking_change: bool,
    gap: Seq<char>,
    description: Seq<char>,
    rest: Seq<char>,
)
    requires
        is_header_line(commit_type, scope, gap, description),
    ensures
        ({
            let message = header_line(commit_type, scope, breaking_change, gap, description)
                + seq!['\n'] + rest;
            let commit = CommitView {
                commit_type,
                scope,
                breaking_change,
                description,
                body: body_text(rest, 0),
                footer: footer_text(rest, 0),
            };
            &&& tokenize(message) == Ok::<Seq<TokenView>, LexError>(tokens_of(commit))
            &&& parse_tokens(tokens_of(commit)) == Ok::<CommitView, ParseError>(commit)
        }),
{
    let first = header_line(commit_type, scope, breaking_change, gap, description);
    let before = first + seq!['\n'];
    let s = before + rest;
    let commit = CommitView {
        commit_type,
        scope,
        breaking_change,
        description,
        body: body_text(rest, 0),
        footer: footer_text(rest, 0),
    };
    theorem_parse_tokens_of(commit);
    assert(s.subrange(0, first.len() as int) == first);
    assert(s[first.len() as int] == '\n');
    lemma_header_line(s, commit_type, scope, breaking_change, gap, description);
    lemma_body_and_footer_suffix(before, rest);
    reveal(tokenize_from);
    assert(tokenize(s) == Ok::<Seq<TokenView>, LexError>(tokens_of(commit)));
}

} // verus!
