//! The grammar of a commit message: what each scanning step reads from a
//! sequence of characters, and where it leaves the cursor.

use vstd::prelude::*;
use crate::chars::{is_alphanumeric, is_whitespace, lemma_alphanumeric_is_no_whitespace};
use crate::error::LexError;
use crate::text::{
    alphanumeric_end, char_at, footer_index, index_of, lemma_alphanumeric_end,
    lemma_alphanumeric_end_is, lemma_index_of, lemma_index_of_is, lemma_whitespace_end,
    lemma_whitespace_end_is, trim, whitespace_end,
};
use crate::token::{optional, TokenView};

verus! {

/// What scanning one token yields, and where the cursor stands afterwards.
pub type Scanned = (Result<TokenView, LexError>, int);

/// The commit type: after any whitespace, the longest run of alphanumeric
/// characters. An empty run is no type, whatever follows it.
pub open spec fn scan_commit_type(s: Seq<char>, from: int) -> Scanned {
    let start = whitespace_end(s, from);
    let end = alphanumeric_end(s, start);
    if end > start {
        (Ok(TokenView::CommitType(s.subrange(start, end))), end)
    } else {
        (Err(LexError::InvalidType), end)
    }
}

/// The scope: a `(`, then everything up to the first `)`, which is consumed
/// too. A character that is not `(` is consumed by the failed attempt.
pub open spec fn scan_scope(s: Seq<char>, from: int) -> Scanned {
    if char_at(s, from) == Some('(') {
        let close = index_of(s, from + 1, ')');
        if close < s.len() {
            (Ok(TokenView::Scope(s.subrange(from + 1, close))), close + 1)
        } else {
            (Err(LexError::UnclosedScope), s.len() as int)
        }
    } else if from < s.len() {
        (Err(LexError::ExpectedScopeOpen), from + 1)
    } else {
        (Err(LexError::ExpectedScopeOpen), from)
    }
}

/// The breaking change marker: a `!` at the cursor.
pub open spec fn scan_breaking_change_marker(s: Seq<char>, from: int) -> Scanned {
    if char_at(s, from) == Some('!') {
        (Ok(TokenView::BreakingChangeMarker), from + 1)
    } else {
        (Err(LexError::NoBreakingMarker), from)
    }
}

/// The description: after any whitespace, everything up to the end of the
/// line. The line feed is consumed and is no part of the description.
pub open spec fn scan_description(s: Seq<char>, from: int) -> Scanned {
    let start = whitespace_end(s, from);
    let stop = index_of(s, start, '\n');
    let end = if stop < s.len() {
        stop + 1
    } else {
        stop
    };
    if stop > start {
        (Ok(TokenView::Description(s.subrange(start, stop))), end)
    } else {
        (Err(LexError::MissingDescription), end)
    }
}

/// Where what is left of the message at `from` is cut into body and footer:
/// at the first footer marker behind any whitespace, or at the end where
/// there is no marker.
pub open spec fn footer_cut(s: Seq<char>, from: int) -> int {
    footer_index(s, whitespace_end(s, from))
}

/// The body: what stands between `from` and the cut, trimmed, unless that is
/// empty.
pub open spec fn body_text(s: Seq<char>, from: int) -> Option<Seq<char>> {
    let body = trim(s.subrange(whitespace_end(s, from), footer_cut(s, from)));
    if body.len() > 0 {
        Some(body)
    } else {
        None
    }
}

/// The footer: what stands from the cut on, trimmed, where the cut is at a
/// marker.
pub open spec fn footer_text(s: Seq<char>, from: int) -> Option<Seq<char>> {
    if footer_cut(s, from) < s.len() {
        Some(trim(s.subrange(footer_cut(s, from), s.len() as int)))
    } else {
        None
    }
}

/// Body and footer, each as a token if it is there. The cursor moves to the
/// end of the message where there is no footer; where there is one, it
/// stays behind the whitespace that it skipped.
pub open spec fn scan_body_and_footer(s: Seq<char>, from: int) -> (
    (Option<TokenView>, Option<TokenView>),
    int,
) {
    (
        (
            match body_text(s, from) {
                Some(text) => Some(TokenView::Body(text)),
                None => None,
            },
            match footer_text(s, from) {
                Some(text) => Some(TokenView::Footer(text)),
                None => None,
            },
        ),
        if footer_text(s, from) is Some {
            whitespace_end(s, from)
        } else {
            s.len() as int
        },
    )
}

/// What lexing a message yields, and where the cursor stands afterwards.
pub type Lexed = (Result<Seq<TokenView>, LexError>, int);

/// Where the scope begins if there is one: the end of the commit type.
pub open spec fn scope_index(s: Seq<char>, from: int) -> int {
    scan_commit_type(s, from).1
}

/// Whether a scope follows the commit type: whether a `(` stands there.
pub open spec fn has_scope(s: Seq<char>, from: int) -> bool {
    char_at(s, scope_index(s, from)) == Some('(')
}

/// Where the breaking change marker stands if there is one: behind the
/// scope, or behind the commit type where there is no scope.
pub open spec fn marker_index(s: Seq<char>, from: int) -> int {
    if has_scope(s, from) {
        scan_scope(s, scope_index(s, from)).1
    } else {
        scope_index(s, from)
    }
}

/// Whether the header marks a breaking change: whether a `!` stands there.
pub open spec fn has_marker(s: Seq<char>, from: int) -> bool {
    char_at(s, marker_index(s, from)) == Some('!')
}

/// Where the colon must stand: behind type, scope and marker.
pub open spec fn colon_index(s: Seq<char>, from: int) -> int {
    if has_marker(s, from) {
        marker_index(s, from) + 1
    } else {
        marker_index(s, from)
    }
}

/// Where body and footer are looked for: behind the description.
pub open spec fn rest_index(s: Seq<char>, from: int) -> int {
    scan_description(s, colon_index(s, from) + 1).1
}

/// The grammar of a message, read from `from`: the commit type, a scope if a
/// `(` follows, a breaking change marker if a `!` follows, a `:`, the
/// description, and what body and footer there are. The first part that
/// fails gives the error; a character that stands in place of the colon is
/// consumed.
#[verifier::opaque]
pub open spec fn tokenize_from(s: Seq<char>, from: int) -> Lexed {
    let commit_type = scan_commit_type(s, from);
    let scope = scan_scope(s, scope_index(s, from));
    let colon = colon_index(s, from);
    let description = scan_description(s, colon + 1);
    let rest = scan_body_and_footer(s, rest_index(s, from));
    if commit_type.0 is Err {
        (Err(commit_type.0->Err_0), commit_type.1)
    } else if has_scope(s, from) && scope.0 is Err {
        (Err(scope.0->Err_0), scope.1)
    } else if char_at(s, colon) != Some(':') {
        (
            Err(LexError::ExpectedColon),
            if colon < s.len() {
                colon + 1
            } else {
                colon
            },
        )
    } else if description.0 is Err {
        (Err(description.0->Err_0), description.1)
    } else {
        (
            Ok(
                seq![commit_type.0->Ok_0] + optional(
                    if has_scope(s, from) {
                        Some(scope.0->Ok_0)
                    } else {
                        None
                    },
                ) + optional(
                    if has_marker(s, from) {
                        Some(TokenView::BreakingChangeMarker)
                    } else {
                        None
                    },
                ) + seq![description.0->Ok_0] + optional(rest.0.0) + optional(rest.0.1),
            ),
            rest.1,
        )
    }
}

/// The tokens of the message `s`, or why it has none.
pub open spec fn tokenize(s: Seq<char>) -> Result<Seq<TokenView>, LexError> {
    tokenize_from(s, 0).0
}

/// The cursor only moves forward and never leaves the message, whatever is
/// scanned and whether the scan succeeds or fails.
pub proof fn lemma_cursor_moves_forward(s: Seq<char>, from: int)
    requires
        0 <= from <= s.len(),
    ensures
        from <= whitespace_end(s, from) <= s.len(),
        from <= scan_commit_type(s, from).1 <= s.len(),
        from <= scan_scope(s, from).1 <= s.len(),
        from <= scan_breaking_change_marker(s, from).1 <= s.len(),
        from <= scan_description(s, from).1 <= s.len(),
        from <= scan_body_and_footer(s, from).1 <= s.len(),
        from <= tokenize_from(s, from).1 <= s.len(),
{
    reveal(tokenize_from);
    lemma_whitespace_end(s, from);
    lemma_alphanumeric_end(s, whitespace_end(s, from));
    if from < s.len() {
        lemma_index_of(s, from + 1, ')');
    }
    lemma_index_of(s, whitespace_end(s, from), '\n');
    let open = scope_index(s, from);
    if has_scope(s, from) {
        lemma_index_of(s, open + 1, ')');
    }
    let colon = colon_index(s, from);
    if char_at(s, colon) == Some(':') {
        lemma_whitespace_end(s, colon + 1);
        lemma_index_of(s, whitespace_end(s, colon + 1), '\n');
        lemma_whitespace_end(s, rest_index(s, from));
    }
}

/// A commit type is read back: where `text` stands at `from`, is not empty
/// and all alphanumeric, and no alphanumeric character follows it, the scan
/// yields `text` and stops behind it.
pub proof fn lemma_scan_commit_type_reads(s: Seq<char>, from: int, text: Seq<char>)
    requires
        0 <= from,
        from + text.len() <= s.len(),
        s.subrange(from, from + text.len()) == text,
        text.len() > 0,
        forall|i: int| 0 <= i < text.len() ==> is_alphanumeric(#[trigger] text[i]),
        char_at(s, from + text.len()) matches Some(c) ==> !is_alphanumeric(c),
    ensures
        scan_commit_type(s, from) == (
            Ok::<TokenView, LexError>(TokenView::CommitType(text)),
            from + text.len(),
        ),
{
    let end = from + text.len();
    assert forall|i: int| from <= i < end implies is_alphanumeric(#[trigger] s[i]) by {
        assert(s[i] == s.subrange(from, end)[i - from]);
    }
    assert(s[from] == s.subrange(from, end)[0]);
    lemma_alphanumeric_is_no_whitespace(text[0]);
    lemma_whitespace_end_is(s, from, from);
    lemma_alphanumeric_end_is(s, from, end);
}

/// A scope is read back: where a `(`, a `text` without `)` and a `)` stand
/// at `from`, the scan yields `text` and stops behind the `)`.
pub proof fn lemma_scan_scope_reads(s: Seq<char>, from: int, text: Seq<char>)
    requires
        0 <= from,
        from + text.len() + 2 <= s.len(),
        s[from] == '(',
        s.subrange(from + 1, from + 1 + text.len()) == text,
        s[from + 1 + text.len()] == ')',
        forall|i: int| 0 <= i < text.len() ==> #[trigger] text[i] != ')',
    ensures
        scan_scope(s, from) == (
            Ok::<TokenView, LexError>(TokenView::Scope(text)),
            from + text.len() + 2,
        ),
{
    let close = from + 1 + text.len();
    assert forall|i: int| from + 1 <= i < close implies #[trigger] s[i] != ')' by {
        assert(s[i] == s.subrange(from + 1, close)[i - from - 1]);
    }
    lemma_index_of_is(s, from + 1, ')', close);
}

/// A description is read back: where whitespace, then a `text` that is not
/// empty, does not begin with whitespace and holds no line feed stand at
/// `from`, and the message ends or a line feed follows, the scan yields
/// `text` and stops behind the line feed.
pub proof fn lemma_scan_description_reads(s: Seq<char>, from: int, gap: Seq<char>, text: Seq<char>)
    requires
        0 <= from,
        from + gap.len() + text.len() <= s.len(),
        s.subrange(from, from + gap.len()) == gap,
        s.subrange(from + gap.len(), from + gap.len() + text.len()) == text,
        forall|i: int| 0 <= i < gap.len() ==> is_whitespace(#[trigger] gap[i]),
        text.len() > 0,
        !is_whitespace(text[0]),
        forall|i: int| 0 <= i < text.len() ==> #[trigger] text[i] != '\n',
        char_at(s, from + gap.len() + text.len()) matches Some(c) ==> c == '\n',
    ensures
        scan_description(s, from).0 == Ok::<TokenView, LexError>(TokenView::Description(text)),
        scan_description(s, from).1 == if from + gap.len() + text.len() < s.len() {
            from + gap.len() + text.len() + 1
        } else {
            from + gap.len() + text.len()
        },
{
    let start = from + gap.len();
    let stop = start + text.len();
    assert forall|i: int| from <= i < start implies is_whitespace(#[trigger] s[i]) by {
        assert(s[i] == s.subrange(from, start)[i - from]);
    }
    assert forall|i: int| start <= i < stop implies #[trigger] s[i] != '\n' by {
        assert(s[i] == s.subrange(start, stop)[i - start]);
    }
    assert(s[start] == s.subrange(start, stop)[0]);
    lemma_whitespace_end_is(s, from, start);
    lemma_index_of_is(s, start, '\n', stop);
}

} // verus!
