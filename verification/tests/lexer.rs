use conventional_commit::{LexError, Lexer, Token};

fn lexer(input: &str) -> Lexer {
    Lexer::new(input.to_string())
}

#[test]
fn lexes_all_six_tokens_in_header_order() {
    let tokens = lexer("feat(api)!: drop v1\n\nThe old endpoints are gone.\n\nRefs: #12")
        .lex()
        .unwrap();
    assert_eq!(
        tokens,
        vec![
            Token::CommitType("feat".to_string()),
            Token::Scope("api".to_string()),
            Token::BreakingChangeMarker,
            Token::Description("drop v1".to_string()),
            Token::Body("The old endpoints are gone.".to_string()),
            Token::Footer("Refs: #12".to_string()),
        ]
    );
}

#[test]
fn commit_type_skips_leading_whitespace_and_stops_at_parenthesis() {
    let mut l = lexer(" \t\n fix(core): x");
    assert_eq!(l.lex_commit_type(), Ok(Token::CommitType("fix".to_string())));
    assert_eq!(l.lex_scope(), Ok(Token::Scope("core".to_string())));
}

#[test]
fn commit_type_may_hold_digits_and_capitals() {
    let mut l = lexer("Fix2: x");
    assert_eq!(l.lex_commit_type(), Ok(Token::CommitType("Fix2".to_string())));
}

#[test]
fn commit_type_is_never_empty() {
    let mut l = lexer("(core): x");
    assert_eq!(l.lex_commit_type(), Err(LexError::InvalidType));
    assert_eq!(l.lex_scope(), Ok(Token::Scope("core".to_string())));
    assert_eq!(lexer("(core): x").lex(), Err(LexError::InvalidType));
    assert_eq!(lexer("  (): x").lex(), Err(LexError::InvalidType));
    assert_eq!(lexer("!: x").lex(), Err(LexError::InvalidType));
}

#[test]
fn commit_type_fails_without_alphanumeric_characters() {
    assert_eq!(lexer(": x").lex_commit_type(), Err(LexError::InvalidType));
    assert_eq!(lexer("").lex_commit_type(), Err(LexError::InvalidType));
    assert_eq!(lexer("   ").lex_commit_type(), Err(LexError::InvalidType));
    assert_eq!(lexer("-feat: x").lex_commit_type(), Err(LexError::InvalidType));
    assert_eq!(lexer("").lex(), Err(LexError::InvalidType));
}

#[test]
fn commit_type_stops_at_underscore_and_hyphen() {
    let mut l = lexer("bug-fix: x");
    assert_eq!(l.lex_commit_type(), Ok(Token::CommitType("bug".to_string())));
    assert_eq!(lexer("bug-fix: x").lex(), Err(LexError::ExpectedColon));
    assert_eq!(lexer("bug_fix: x").lex(), Err(LexError::ExpectedColon));
}

#[test]
fn scope_is_the_text_up_to_the_first_closing_parenthesis() {
    assert_eq!(lexer("(a b/c!:)").lex_scope(), Ok(Token::Scope("a b/c!:".to_string())));
    assert_eq!(lexer("(a(b)c)").lex_scope(), Ok(Token::Scope("a(b".to_string())));
    assert_eq!(lexer("(line\nbreak)").lex_scope(), Ok(Token::Scope("line\nbreak".to_string())));
}

#[test]
fn scope_may_be_empty() {
    assert_eq!(lexer("()").lex_scope(), Ok(Token::Scope(String::new())));
    assert_eq!(
        lexer("feat(): x").lex(),
        Ok(vec![
            Token::CommitType("feat".to_string()),
            Token::Scope(String::new()),
            Token::Description("x".to_string()),
        ])
    );
}

#[test]
fn scope_fails_without_opening_parenthesis() {
    assert_eq!(lexer("core)").lex_scope(), Err(LexError::ExpectedScopeOpen));
    assert_eq!(lexer("").lex_scope(), Err(LexError::ExpectedScopeOpen));
    assert_eq!(lexer(" (core)").lex_scope(), Err(LexError::ExpectedScopeOpen));
}

#[test]
fn failed_scope_consumes_the_character_it_read() {
    let mut l = lexer("x(core)");
    assert_eq!(l.lex_scope(), Err(LexError::ExpectedScopeOpen));
    assert_eq!(l.lex_scope(), Ok(Token::Scope("core".to_string())));
}

#[test]
fn scope_fails_when_unclosed() {
    assert_eq!(lexer("(core").lex_scope(), Err(LexError::UnclosedScope));
    assert_eq!(lexer("(").lex_scope(), Err(LexError::UnclosedScope));
    assert_eq!(lexer("feat(core: x").lex(), Err(LexError::UnclosedScope));
}

#[test]
fn unclosed_scope_consumes_the_rest() {
    let mut l = lexer("(core: x");
    assert_eq!(l.lex_scope(), Err(LexError::UnclosedScope));
    assert_eq!(l.lex_body_and_footer(), (None, None));
}

#[test]
fn breaking_change_marker_is_an_exclamation_mark_at_the_cursor() {
    let mut l = lexer("!!x");
    assert_eq!(l.lex_breaking_change_marker(), Ok(Token::BreakingChangeMarker));
    assert_eq!(l.lex_breaking_change_marker(), Ok(Token::BreakingChangeMarker));
    assert_eq!(l.lex_breaking_change_marker(), Err(LexError::NoBreakingMarker));
}

#[test]
fn missing_breaking_change_marker_consumes_nothing() {
    let mut l = lexer("(a)");
    assert_eq!(l.lex_breaking_change_marker(), Err(LexError::NoBreakingMarker));
    assert_eq!(l.lex_scope(), Ok(Token::Scope("a".to_string())));
    assert_eq!(lexer("").lex_breaking_change_marker(), Err(LexError::NoBreakingMarker));
    assert_eq!(lexer(" !").lex_breaking_change_marker(), Err(LexError::NoBreakingMarker));
}

#[test]
fn skip_whitespace_stops_at_the_first_other_character() {
    let mut l = lexer(" \t\r\n\u{b}\u{c}!");
    l.skip_whitespace();
    assert_eq!(l.lex_breaking_change_marker(), Ok(Token::BreakingChangeMarker));
    let mut l = lexer("! ");
    l.skip_whitespace();
    assert_eq!(l.lex_breaking_change_marker(), Ok(Token::BreakingChangeMarker));
    l.skip_whitespace();
    l.skip_whitespace();
    assert_eq!(l.lex_breaking_change_marker(), Err(LexError::NoBreakingMarker));
}

#[test]
fn description_runs_to_the_end_of_the_line() {
    let mut l = lexer("  add a thing  \nbody");
    assert_eq!(l.lex_description(), Ok(Token::Description("add a thing  ".to_string())));
    assert_eq!(l.lex_body_and_footer(), (Some(Token::Body("body".to_string())), None));
}

#[test]
fn description_may_follow_blank_lines() {
    assert_eq!(
        lexer("feat:\n\n  later").lex(),
        Ok(vec![
            Token::CommitType("feat".to_string()),
            Token::Description("later".to_string()),
        ])
    );
}

#[test]
fn description_fails_when_nothing_but_whitespace_follows() {
    assert_eq!(lexer("").lex_description(), Err(LexError::MissingDescription));
    assert_eq!(lexer(" \n\t ").lex_description(), Err(LexError::MissingDescription));
    assert_eq!(lexer("feat:").lex(), Err(LexError::MissingDescription));
    assert_eq!(lexer("feat:\n").lex(), Err(LexError::MissingDescription));
}

#[test]
fn description_keeps_a_footer_marker_on_the_first_line() {
    assert_eq!(
        lexer("fix: Refs: #3").lex(),
        Ok(vec![
            Token::CommitType("fix".to_string()),
            Token::Description("Refs: #3".to_string()),
        ])
    );
}

#[test]
fn colon_is_required_after_the_header() {
    assert_eq!(lexer("feat").lex(), Err(LexError::ExpectedColon));
    assert_eq!(lexer("feat x").lex(), Err(LexError::ExpectedColon));
    assert_eq!(lexer("feat(a) : x").lex(), Err(LexError::ExpectedColon));
    assert_eq!(lexer("feat!!: x").lex(), Err(LexError::ExpectedColon));
    assert_eq!(lexer("feat!(a): x").lex(), Err(LexError::ExpectedColon));
    assert_eq!(lexer("feat(a)(b): x").lex(), Err(LexError::ExpectedColon));
}

#[test]
fn missing_colon_consumes_the_character_in_its_place() {
    let mut l = lexer("feat?!");
    assert_eq!(l.lex(), Err(LexError::ExpectedColon));
    assert_eq!(l.lex_breaking_change_marker(), Ok(Token::BreakingChangeMarker));
}

#[test]
fn body_without_marker_is_the_trimmed_rest() {
    let mut l = lexer("\n\n  first line\n\nsecond line \n\n");
    assert_eq!(
        l.lex_body_and_footer(),
        (Some(Token::Body("first line\n\nsecond line".to_string())), None)
    );
    assert_eq!(l.lex_body_and_footer(), (None, None));
}

#[test]
fn nothing_left_gives_neither_body_nor_footer() {
    assert_eq!(lexer("").lex_body_and_footer(), (None, None));
    assert_eq!(lexer(" \n \t").lex_body_and_footer(), (None, None));
}

#[test]
fn each_marker_starts_a_footer() {
    assert_eq!(
        lexer("BREAKING CHANGE: gone").lex_body_and_footer(),
        (None, Some(Token::Footer("BREAKING CHANGE: gone".to_string())))
    );
    assert_eq!(
        lexer("Reviewed-by: Z").lex_body_and_footer(),
        (None, Some(Token::Footer("Reviewed-by: Z".to_string())))
    );
    assert_eq!(
        lexer("Refs: #1").lex_body_and_footer(),
        (None, Some(Token::Footer("Refs: #1".to_string())))
    );
}

#[test]
fn bare_marker_is_a_footer() {
    assert_eq!(
        lexer("text Refs:").lex_body_and_footer(),
        (Some(Token::Body("text".to_string())), Some(Token::Footer("Refs:".to_string())))
    );
    assert_eq!(
        lexer("Refs:  \n").lex_body_and_footer(),
        (None, Some(Token::Footer("Refs:".to_string())))
    );
}

#[test]
fn marker_is_matched_exactly() {
    assert_eq!(
        lexer("refs: #1 Reviewed-By: x BREAKING CHANGE x Refs").lex_body_and_footer(),
        (
            Some(Token::Body("refs: #1 Reviewed-By: x BREAKING CHANGE x Refs".to_string())),
            None
        )
    );
}

#[test]
fn leftmost_marker_splits_body_and_footer() {
    assert_eq!(
        lexer("why\n\nRefs: #1\nBREAKING CHANGE: api").lex_body_and_footer(),
        (
            Some(Token::Body("why".to_string())),
            Some(Token::Footer("Refs: #1\nBREAKING CHANGE: api".to_string()))
        )
    );
    assert_eq!(
        lexer("Reviewed-by: A\nRefs: #1\nBREAKING CHANGE: api").lex_body_and_footer(),
        (
            None,
            Some(Token::Footer("Reviewed-by: A\nRefs: #1\nBREAKING CHANGE: api".to_string()))
        )
    );
}

#[test]
fn marker_inside_a_line_splits_there() {
    assert_eq!(
        lexer("see Refs: #9  ").lex_body_and_footer(),
        (Some(Token::Body("see".to_string())), Some(Token::Footer("Refs: #9".to_string())))
    );
}

#[test]
fn cursor_stays_before_the_block_when_a_footer_is_found() {
    let mut l = lexer("  !Refs: #1");
    assert_eq!(
        l.lex_body_and_footer(),
        (Some(Token::Body("!".to_string())), Some(Token::Footer("Refs: #1".to_string())))
    );
    assert_eq!(l.lex_breaking_change_marker(), Ok(Token::BreakingChangeMarker));
}

#[test]
fn cursor_moves_to_the_end_when_no_footer_is_found() {
    let mut l = lexer("  !body");
    assert_eq!(l.lex_body_and_footer(), (Some(Token::Body("!body".to_string())), None));
    assert_eq!(l.lex_breaking_change_marker(), Err(LexError::NoBreakingMarker));
}

#[test]
fn cursor_bound_can_be_asked_at_any_time() {
    let mut l = lexer("fix: x");
    l.position_in_bounds();
    assert!(l.lex().is_ok());
    l.position_in_bounds();
    assert_eq!(l.lex_body_and_footer(), (None, None));
}

#[test]
fn lexing_starts_at_the_cursor() {
    let mut l = lexer("!fix: x");
    assert_eq!(l.lex_breaking_change_marker(), Ok(Token::BreakingChangeMarker));
    assert_eq!(
        l.lex(),
        Ok(vec![Token::CommitType("fix".to_string()), Token::Description("x".to_string())])
    );
    assert_eq!(l.lex(), Err(LexError::InvalidType));
}

#[test]
fn characters_beyond_ascii_are_scanned_one_by_one() {
    assert_eq!(
        lexer("\u{3000}été(cœur)!:\u{a0}\u{2003}déjà vu — 日本語\n\nNaïve body\u{2028}").lex(),
        Ok(vec![
            Token::CommitType("été".to_string()),
            Token::Scope("cœur".to_string()),
            Token::BreakingChangeMarker,
            Token::Description("déjà vu — 日本語".to_string()),
            Token::Body("Naïve body".to_string()),
        ])
    );
}

#[test]
fn unicode_letters_and_numbers_belong_to_the_commit_type() {
    let mut l = lexer("変更٣½: x");
    assert_eq!(l.lex_commit_type(), Ok(Token::CommitType("変更٣½".to_string())));
    assert_eq!(lexer("→: x").lex_commit_type(), Err(LexError::InvalidType));
    assert_eq!(lexer("fix💥: x").lex(), Err(LexError::ExpectedColon));
}

#[test]
fn footer_after_characters_beyond_ascii() {
    assert_eq!(
        lexer("fix: ü\n\nÄnderung \u{85}\nReviewed-by: Zoë\u{3000}").lex(),
        Ok(vec![
            Token::CommitType("fix".to_string()),
            Token::Description("ü".to_string()),
            Token::Body("Änderung".to_string()),
            Token::Footer("Reviewed-by: Zoë".to_string()),
        ])
    );
}

#[test]
fn lex_error_messages() {
    assert_eq!(LexError::InvalidType.message(), "Invalid commit type");
    assert_eq!(LexError::ExpectedScopeOpen.message(), "Expected '(' for scope");
    assert_eq!(LexError::UnclosedScope.message(), "Unclosed scope");
    assert_eq!(LexError::NoBreakingMarker.message(), "No breaking change marker");
    assert_eq!(LexError::ExpectedColon.message(), "Expected ':' after commit type or scope");
    assert_eq!(LexError::MissingDescription.message(), "Missing description");
}
