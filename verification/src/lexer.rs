//! The lexer: a cursor that scans a message by the grammar.

use vstd::prelude::*;
use crate::chars::{char_is_alphanumeric, char_is_whitespace};
use crate::error::LexError;
use crate::grammar::{
    has_marker, has_scope, lemma_cursor_moves_forward, scan_body_and_footer, scan_breaking_change_marker, scan_commit_type,
    scan_description, scan_scope, scope_index, tokenize_from,
};
use crate::text::{
    alphanumeric_end, char_at, decode, encode, find_footer, index_of, lemma_footer_index,
    trim_range, whitespace_end,
};
use crate::token::{optional, Token, TokenView};

verus! {

/// The view of what a scanning method returns.
pub open spec fn token_view(r: Result<Token, LexError>) -> Result<TokenView, LexError> {
    match r {
        Ok(token) => Ok(token@),
        Err(e) => Err(e),
    }
}

/// The view of what [`Lexer::lex`] returns.
pub open spec fn tokens_view(r: Result<Vec<Token>, LexError>) -> Result<Seq<TokenView>, LexError> {
    match r {
        Ok(tokens) => Ok(tokens.deep_view()),
        Err(e) => Err(e),
    }
}

/// A cursor over the characters of one commit message.
pub struct Lexer {
    input: Vec<char>,
    position: usize,
}

impl Lexer {
    #[verifier::type_invariant]
    spec fn in_bounds(&self) -> bool {
        self.position <= self.input.len()
    }

    /// The message.
    pub closed spec fn text(&self) -> Seq<char> {
        self.input@
    }

    /// The index of the next character to read.
    pub closed spec fn position(&self) -> int {
        self.position as int
    }

    /// The cursor stands inside the message or at its end. Nothing is
    /// computed: the call hands the bound to the caller's proof.
    pub fn position_in_bounds(&self)
        ensures
            0 <= self.position() <= self.text().len(),
    {
        proof {
            use_type_invariant(self);
        }
    }

    /// A lexer at the start of `input`.
    pub fn new(input: String) -> (lexer: Self)
        ensures
            lexer.text() == input@,
            lexer.position() == 0,
            0 <= lexer.position() <= lexer.text().len(),
    {
        Lexer { input: decode(input.as_str()), position: 0 }
    }

    /// The next character, which stays unread.
    fn peek(&self) -> (c: Option<char>)
        ensures
            c == char_at(self.text(), self.position()),
            0 <= self.position() <= self.text().len(),
    {
        proof {
            use_type_invariant(self);
        }
        if self.position < self.input.len() {
            Some(self.input[self.position])
        } else {
            None
        }
    }

    /// Reads the next character.
    fn next(&mut self) -> (c: Option<char>)
        ensures
            final(self).text() == old(self).text(),
            c == char_at(old(self).text(), old(self).position()),
            final(self).position() == old(self).position() + if c is Some {
                1int
            } else {
                0int
            },
            0 <= old(self).position() <= old(self).text().len(),
    {
        proof {
            use_type_invariant(&*self);
        }
        if self.position < self.input.len() {
            let c = self.input[self.position];
            self.position = self.position + 1;
            Some(c)
        } else {
            None
        }
    }

    /// Moves the cursor past any whitespace.
    pub fn skip_whitespace(&mut self)
        ensures
            final(self).text() == old(self).text(),
            old(self).position() <= final(self).position() <= final(self).text().len(),
            final(self).position() == whitespace_end(old(self).text(), old(self).position()),
    {
        proof {
            use_type_invariant(&*self);
            lemma_cursor_moves_forward(self.text(), self.position());
        }
        loop
            invariant
                self.text() == old(self).text(),
                whitespace_end(self.text(), self.position()) == whitespace_end(
                    old(self).text(),
                    old(self).position(),
                ),
            ensures
                self.text() == old(self).text(),
                self.position() == whitespace_end(old(self).text(), old(self).position()),
            decreases self.text().len() - self.position(),
        {
            match self.peek() {
                Some(c) => {
                    if char_is_whitespace(c) {
                        self.next();
                    } else {
                        break ;
                    }
                },
                None => {
                    break ;
                },
            }
        }
    }

    /// Scans the commit type.
    pub fn lex_commit_type(&mut self) -> (r: Result<Token, LexError>)
        ensures
            final(self).text() == old(self).text(),
            old(self).position() <= final(self).position() <= final(self).text().len(),
            (token_view(r), final(self).position()) == scan_commit_type(
                old(self).text(),
                old(self).position(),
            ),
    {
        proof {
            use_type_invariant(&*self);
            lemma_cursor_moves_forward(self.text(), self.position());
        }
        self.skip_whitespace();
        proof {
            use_type_invariant(&*self);
        }
        let ghost start = self.position();
        let mut commit_type = String::new();
        loop
            invariant
                self.text() == old(self).text(),
                start == whitespace_end(old(self).text(), old(self).position()),
                0 <= start <= self.position() <= self.text().len(),
                commit_type@ == self.text().subrange(start, self.position()),
                alphanumeric_end(self.text(), start) == alphanumeric_end(
                    self.text(),
                    self.position(),
                ),
            ensures
                self.text() == old(self).text(),
                0 <= start <= self.position() <= self.text().len(),
                commit_type@ == self.text().subrange(start, self.position()),
                self.position() == alphanumeric_end(self.text(), start),
            decreases self.text().len() - self.position(),
        {
            match self.peek() {
                Some(c) => {
                    if char_is_alphanumeric(c) {
                        commit_type.push(c);
                        self.next();
                    } else {
                        break ;
                    }
                },
                None => {
                    break ;
                },
            }
        }
        if commit_type.as_str().is_empty() {
            Err(LexError::InvalidType)
        } else {
            Ok(Token::CommitType(commit_type))
        }
    }

    /// Scans the scope.
    pub fn lex_scope(&mut self) -> (r: Result<Token, LexError>)
        ensures
            final(self).text() == old(self).text(),
            old(self).position() <= final(self).position() <= final(self).text().len(),
            (token_view(r), final(self).position()) == scan_scope(
                old(self).text(),
                old(self).position(),
            ),
    {
        proof {
            use_type_invariant(&*self);
            lemma_cursor_moves_forward(self.text(), self.position());
        }
        match self.next() {
            Some('(') => {},
            _ => {
                return Err(LexError::ExpectedScopeOpen);
            },
        }
        proof {
            use_type_invariant(&*self);
        }
        let ghost start = self.position();
        let mut scope = String::new();
        loop
            invariant
                self.text() == old(self).text(),
                char_at(old(self).text(), old(self).position()) == Some('('),
                start == old(self).position() + 1,
                0 <= start <= self.position() <= self.text().len(),
                scope@ == self.text().subrange(start, self.position()),
                index_of(self.text(), start, ')') == index_of(self.text(), self.position(), ')'),
            ensures
                self.text() == old(self).text(),
                self.position() == self.text().len(),
                index_of(self.text(), start, ')') == self.text().len(),
            decreases self.text().len() - self.position(),
        {
            match self.next() {
                Some(c) => {
                    if c == ')' {
                        return Ok(Token::Scope(scope));
                    } else {
                        scope.push(c);
                    }
                },
                None => {
                    break ;
                },
            }
        }
        Err(LexError::UnclosedScope)
    }

    /// Scans the breaking change marker.
    pub fn lex_breaking_change_marker(&mut self) -> (r: Result<Token, LexError>)
        ensures
            final(self).text() == old(self).text(),
            old(self).position() <= final(self).position() <= final(self).text().len(),
            (token_view(r), final(self).position()) == scan_breaking_change_marker(
                old(self).text(),
                old(self).position(),
            ),
    {
        proof {
            use_type_invariant(&*self);
            lemma_cursor_moves_forward(self.text(), self.position());
        }
        match self.peek() {
            Some('!') => {
                self.next();
                Ok(Token::BreakingChangeMarker)
            },
            _ => Err(LexError::NoBreakingMarker),
        }
    }

    /// Scans the description.
    pub fn lex_description(&mut self) -> (r: Result<Token, LexError>)
        ensures
            final(self).text() == old(self).text(),
            old(self).position() <= final(self).position() <= final(self).text().len(),
            (token_view(r), final(self).position()) == scan_description(
                old(self).text(),
                old(self).position(),
            ),
    {
        proof {
            use_type_invariant(&*self);
            lemma_cursor_moves_forward(self.text(), self.position());
        }
        self.skip_whitespace();
        proof {
            use_type_invariant(&*self);
        }
        let ghost start = self.position();
        let ghost stop = start;
        let mut description = String::new();
        loop
            invariant_except_break
                stop == self.position(),
                index_of(self.text(), start, '\n') == index_of(self.text(), stop, '\n'),
            invariant
                self.text() == old(self).text(),
                0 <= start <= stop <= self.text().len(),
                description@ == self.text().subrange(start, stop),
            ensures
                self.text() == old(self).text(),
                0 <= start <= stop <= self.text().len(),
                description@ == self.text().subrange(start, stop),
                stop == index_of(self.text(), start, '\n'),
                self.position() == if stop < self.text().len() {
                    stop + 1
                } else {
                    stop
                },
            decreases self.text().len() - self.position(),
        {
            match self.next() {
                Some(c) => {
                    if c == '\n' {
                        break ;
                    } else {
                        description.push(c);
                        proof {
                            stop = stop + 1;
                        }
                    }
                },
                None => {
                    break ;
                },
            }
        }
        if description.as_str().is_empty() {
            Err(LexError::MissingDescription)
        } else {
            Ok(Token::Description(description))
        }
    }

    /// Scans the body and the footer.
    pub fn lex_body_and_footer(&mut self) -> (r: (Option<Token>, Option<Token>))
        ensures
            final(self).text() == old(self).text(),
            old(self).position() <= final(self).position() <= final(self).text().len(),
            (r.deep_view(), final(self).position()) == scan_body_and_footer(
                old(self).text(),
                old(self).position(),
            ),
    {
        proof {
            use_type_invariant(&*self);
            lemma_cursor_moves_forward(self.text(), self.position());
        }
        self.skip_whitespace();
        proof {
            use_type_invariant(&*self);
            lemma_footer_index(self.text(), self.position());
        }
        let start = self.position;
        let end = self.input.len();
        let cut = find_footer(&self.input, start);
        let (body_from, body_to) = trim_range(&self.input, start, cut);
        let body = if body_from < body_to {
            Some(Token::Body(encode(&self.input, body_from, body_to)))
        } else {
            None
        };
        let footer = if cut < end {
            let (footer_from, footer_to) = trim_range(&self.input, cut, end);
            Some(Token::Footer(encode(&self.input, footer_from, footer_to)))
        } else {
            self.position = end;
            None
        };
        (body, footer)
    }

    /// Lexes the message from the cursor on.
    pub fn lex(&mut self) -> (r: Result<Vec<Token>, LexError>)
        ensures
            final(self).text() == old(self).text(),
            old(self).position() <= final(self).position() <= final(self).text().len(),
            (tokens_view(r), final(self).position()) == tokenize_from(
                old(self).text(),
                old(self).position(),
            ),
    {
        proof {
            use_type_invariant(&*self);
            lemma_cursor_moves_forward(self.text(), self.position());
            reveal(tokenize_from);
        }
        let ghost s = self.text();
        let ghost from = self.position();
        let mut tokens: Vec<Token> = Vec::new();

        let commit_type = match self.lex_commit_type() {
            Ok(token) => token,
            Err(e) => {
                return Err(e);
            },
        };
        tokens.push(commit_type);
        let ghost with_type = seq![scan_commit_type(s, from).0->Ok_0];
        assert(tokens.deep_view() == with_type);

        if let Some('(') = self.peek() {
            let scope = match self.lex_scope() {
                Ok(token) => token,
                Err(e) => {
                    return Err(e);
                },
            };
            tokens.push(scope);
        }
        let ghost with_scope = with_type + optional(
            if has_scope(s, from) {
                Some(scan_scope(s, scope_index(s, from)).0->Ok_0)
            } else {
                None
            },
        );
        assert(tokens.deep_view() == with_scope);

        if let Some('!') = self.peek() {
            let breaking_change = match self.lex_breaking_change_marker() {
                Ok(token) => token,
                Err(e) => {
                    return Err(e);
                },
            };
            tokens.push(breaking_change);
        }
        let ghost with_marker = with_scope + optional(
            if has_marker(s, from) {
                Some(TokenView::BreakingChangeMarker)
            } else {
                None
            },
        );
        assert(tokens.deep_view() == with_marker);

        match self.next() {
            Some(':') => {},
            _ => {
                return Err(LexError::ExpectedColon);
            },
        }

        let description = match self.lex_description() {
            Ok(token) => token,
            Err(e) => {
                return Err(e);
            },
        };
        tokens.push(description);
        let ghost with_description = with_marker + seq![description@];
        assert(tokens.deep_view() == with_description);

        let (body, footer) = self.lex_body_and_footer();
        if let Some(body_token) = body {
            tokens.push(body_token);
        }
        let ghost with_body = with_description + optional(body.deep_view());
        assert(tokens.deep_view() == with_body);
        if let Some(footer_token) = footer {
            tokens.push(footer_token);
        }
        assert(tokens.deep_view() == with_body + optional(footer.deep_view()));
        Ok(tokens)
    }
}

} // verus!
