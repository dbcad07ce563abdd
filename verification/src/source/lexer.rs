//! Tokenisation of boolean expressions.
//!
//! Operators are accepted as words (`and`, `or`, `not`, `xor`), as ASCII
//! symbols (`&&`, `||`, `!`, `->`) and as the usual unicode connectives.

use vstd::prelude::*;
use vstd::string::StringExecFns;
use crate::text::{char_is_alphabetic, char_is_whitespace, is_alpha, is_space, push_char, str_eq};

verus! {

/// A half-open character range `[start, end)` of the input.
#[derive(Debug, Clone, PartialEq)]
pub struct Span {
    pub start: usize,
    pub end: usize,
}

impl Span {
    pub fn new(start: usize, end: usize) -> (r: Self)
        ensures
            r.start == start,
            r.end == end,
    {
        Self { start, end }
    }

    pub fn single(pos: usize) -> (r: Self)
        requires
            pos < usize::MAX,
        ensures
            r.start == pos,
            r.end == pos + 1,
    {
        Self { start: pos, end: pos + 1 }
    }
}

#[derive(Debug, Clone, PartialEq)]
pub struct SpannedToken {
    pub token: Token,
    pub span: Span,
}

#[derive(Debug, Clone, PartialEq)]
pub enum Token {
    Not,
    And,
    Or,
    Xor,
    Implication,
    Identifier(String),
    LeftParen,
    RightParen,
    Eof,
}

/// The display name of a token, as used in parser diagnostics.
pub open spec fn token_text(t: Token) -> Seq<char> {
    match t {
        Token::Not => "NOT"@,
        Token::And => "AND"@,
        Token::Or => "OR"@,
        Token::Xor => "XOR"@,
        Token::Implication => "IMPL"@,
        Token::Identifier(name) => name@,
        Token::LeftParen => "("@,
        Token::RightParen => ")"@,
        Token::Eof => "EOF"@,
    }
}

impl Token {
    /// Renders the token for a diagnostic message.
    pub fn describe(&self) -> (r: String)
        ensures
            r@ == token_text(*self),
    {
        match self {
            Token::Not => String::from_str("NOT"),
            Token::And => String::from_str("AND"),
            Token::Or => String::from_str("OR"),
            Token::Xor => String::from_str("XOR"),
            Token::Implication => String::from_str("IMPL"),
            Token::Identifier(name) => name.clone(),
            Token::LeftParen => String::from_str("("),
            Token::RightParen => String::from_str(")"),
            Token::Eof => String::from_str("EOF"),
        }
    }
}

#[derive(Debug)]
pub struct Lexer {
    pub input: Vec<char>,
    pub position: usize,
    pub current_char: Option<char>,
}

impl Lexer {
    /// The cursor sits inside the input and `current_char` mirrors it.
    pub open spec fn wf(&self) -> bool {
        &&& self.position <= self.input@.len()
        &&& self.input@.len() < usize::MAX
        &&& self.current_char == (if self.position < self.input@.len() {
            Some(self.input@[self.position as int])
        } else {
            None::<char>
        })
    }

    pub fn new(input: &str) -> (r: Self)
        requires
            input@.len() < usize::MAX,
        ensures
            r.wf(),
            r.input@ == input@,
            r.position == 0,
    {
        let chars: Vec<char> = crate::text::str_chars(input);
        let current_char: Option<char> = if chars.len() > 0 {
            Some(chars[0])
        } else {
            None
        };
        Self { input: chars, position: 0, current_char }
    }

    fn advance(&mut self)
        requires
            old(self).wf(),
            old(self).position < old(self).input@.len(),
        ensures
            final(self).wf(),
            final(self).input == old(self).input,
            final(self).position == old(self).position + 1,
    {
        self.position = self.position + 1;
        self.current_char = if self.position < self.input.len() {
            Some(self.input[self.position])
        } else {
            None
        };
    }

    fn peek(&self) -> (r: Option<char>)
        requires
            self.wf(),
            self.position < self.input@.len(),
        ensures
            r == (if self.position + 1 < self.input@.len() {
                Some(self.input@[self.position + 1])
            } else {
                None::<char>
            }),
    {
        if self.position + 1 < self.input.len() {
            Some(self.input[self.position + 1])
        } else {
            None
        }
    }

    fn skip_whitespace(&mut self)
        requires
            old(self).wf(),
        ensures
            final(self).wf(),
            final(self).input == old(self).input,
            old(self).position <= final(self).position,
            final(self).position < final(self).input@.len() ==> !is_space(final(self).input@[final(self).position as int]),
    {
        let ghost pos0: int = self.position as int;
        loop
            invariant
                self.wf(),
                self.input == old(self).input,
                pos0 <= self.position,
            ensures
                self.wf(),
                self.input == old(self).input,
                pos0 <= self.position,
                self.position < self.input@.len() ==> !is_space(
                    self.input@[self.position as int],
                ),
            decreases self.input@.len() - self.position,
        {
            match self.current_char {
                None => {
                    break;
                },
                Some(ch) => {
                    if char_is_whitespace(ch) {
                        self.advance();
                    } else {
                        break;
                    }
                },
            }
        }
    }

    /// Reads the maximal run of alphabetic or underscore characters.
    fn read_identifier(&mut self) -> (r: (String, Span))
        requires
            old(self).wf(),
        ensures
            final(self).wf(),
            final(self).input == old(self).input,
            old(self).position <= final(self).position <= final(self).input@.len(),
            r.1.start == old(self).position,
            r.1.end == final(self).position,
            r.0@ == final(self).input@.subrange(old(self).position as int, final(self).position as int),
            old(self).position < final(self).input@.len() && (is_alpha(
                final(self).input@[old(self).position as int],
            ) || final(self).input@[old(self).position as int] == '_') ==> final(self).position > old(
                self,
            ).position,
    {
        let start: usize = self.position;
        let mut result: String = String::new();
        loop
            invariant
                self.wf(),
                self.input == old(self).input,
                start <= self.position <= self.input@.len(),
                result@ == self.input@.subrange(start as int, self.position as int),
            ensures
                self.wf(),
                self.input == old(self).input,
                start <= self.position <= self.input@.len(),
                result@ == self.input@.subrange(start as int, self.position as int),
                self.position < self.input@.len() ==> !(is_alpha(
                    self.input@[self.position as int],
                ) || self.input@[self.position as int] == '_'),
            decreases self.input@.len() - self.position,
        {
            match self.current_char {
                None => {
                    break;
                },
                Some(ch) => {
                    if char_is_alphabetic(ch) || ch == '_' {
                        push_char(&mut result, ch);
                        self.advance();
                        assert(result@ =~= self.input@.subrange(
                            start as int,
                            self.position as int,
                        ));
                    } else {
                        break;
                    }
                },
            }
        }
        let span = Span::new(start, self.position);
        (result, span)
    }

    /// Reads one operator or delimiter written with symbols; `None` when the
    /// current character starts no such token.
    fn read_symbol(&mut self) -> (r: Option<(Token, Span)>)
        requires
            old(self).wf(),
            old(self).position < old(self).input@.len(),
        ensures
            final(self).wf(),
            final(self).input == old(self).input,
            match r {
                Some(ts) => {
                    &&& old(self).position < final(self).position <= final(self).input@.len()
                    &&& ts.1.start == old(self).position
                    &&& ts.1.end == final(self).position
                    &&& !(ts.0 is Eof)
                    &&& !(ts.0 is Identifier)
                },
                None => final(self).position == old(self).position,
            },
    {
        let start: usize = self.position;
        let c: char = self.input[self.position];
        if c == '-' {
            if let Some(nc) = self.peek() {
                if nc == '>' {
                    self.advance();
                    self.advance();
                    return Some((Token::Implication, Span::new(start, self.position)));
                }
            }
            return None;
        }
        if c == '\u{2192}' {
            self.advance();
            return Some((Token::Implication, Span::new(start, self.position)));
        }
        if c == '&' {
            if let Some(nc) = self.peek() {
                if nc == '&' {
                    self.advance();
                    self.advance();
                    return Some((Token::And, Span::new(start, self.position)));
                }
            }
            return None;
        }
        if c == '\u{2227}' {
            self.advance();
            return Some((Token::And, Span::new(start, self.position)));
        }
        if c == '|' {
            if let Some(nc) = self.peek() {
                if nc == '|' {
                    self.advance();
                    self.advance();
                    return Some((Token::Or, Span::new(start, self.position)));
                }
            }
            return None;
        }
        if c == '\u{2228}' {
            self.advance();
            return Some((Token::Or, Span::new(start, self.position)));
        }
        if c == '!' {
            self.advance();
            return Some((Token::Not, Span::new(start, self.position)));
        }
        if c == '\u{00ac}' {
            self.advance();
            return Some((Token::Not, Span::new(start, self.position)));
        }
        if c == '\u{22bb}' || c == '\u{2295}' {
            self.advance();
            return Some((Token::Xor, Span::new(start, self.position)));
        }
        if c == '(' {
            self.advance();
            return Some((Token::LeftParen, Span::new(start, self.position)));
        }
        if c == ')' {
            self.advance();
            return Some((Token::RightParen, Span::new(start, self.position)));
        }
        None
    }

    /// Produces the next token with its span; skips whitespace and characters
    /// that start no token.
    pub fn next_spanned_token(&mut self) -> (r: SpannedToken)
        requires
            old(self).wf(),
        ensures
            final(self).wf(),
            final(self).input == old(self).input,
            old(self).position <= final(self).position,
            r.token is Eof ==> final(self).position == final(self).input@.len(),
            !(r.token is Eof) ==> final(self).position > old(self).position,
    {
        loop
            invariant
                self.wf(),
                self.input == old(self).input,
                old(self).position <= self.position,
            ensures
                self.wf(),
                self.input == old(self).input,
                old(self).position <= self.position,
            decreases self.input@.len() - self.position,
        {
            self.skip_whitespace();
            match self.current_char {
                None => {
                    return SpannedToken { token: Token::Eof, span: Span::single(self.position) };
                },
                Some(ch) => {
                    if char_is_alphabetic(ch) {
                        let id_span = self.read_identifier();
                        let identifier = id_span.0;
                        let span = id_span.1;
                        let token: Token = if str_eq(identifier.as_str(), "and") {
                            Token::And
                        } else if str_eq(identifier.as_str(), "or") {
                            Token::Or
                        } else if str_eq(identifier.as_str(), "not") {
                            Token::Not
                        } else if str_eq(identifier.as_str(), "xor") {
                            Token::Xor
                        } else {
                            Token::Identifier(identifier)
                        };
                        return SpannedToken { token, span };
                    } else {
                        let sym = self.read_symbol();
                        match sym {
                            Some(ts) => {
                                return SpannedToken { token: ts.0, span: ts.1 };
                            },
                            None => {
                                // skip a character that starts no token
                                self.advance();
                            },
                        }
                    }
                },
            }
        }
    }

    pub fn next_token(&mut self) -> (r: Token)
        requires
            old(self).wf(),
        ensures
            final(self).wf(),
            final(self).input == old(self).input,
            old(self).position <= final(self).position,
            r is Eof ==> final(self).position == final(self).input@.len(),
            !(r is Eof) ==> final(self).position > old(self).position,
    {
        self.next_spanned_token().token
    }

    /// Tokenises the whole input; the result is nonempty and ends with `Eof`.
    pub fn tokenize(&mut self) -> (r: Vec<Token>)
        requires
            old(self).wf(),
        ensures
            final(self).wf(),
            r@.len() > 0,
            r@.last() is Eof,
            forall|i: int| 0 <= i < r@.len() - 1 ==> !(r@[i] is Eof),
    {
        let mut tokens: Vec<Token> = Vec::new();
        loop
            invariant_except_break
                forall|i: int| 0 <= i < tokens@.len() ==> !(tokens@[i] is Eof),
            invariant
                self.wf(),
            ensures
                self.wf(),
                tokens@.len() > 0,
                tokens@.last() is Eof,
                forall|i: int| 0 <= i < tokens@.len() - 1 ==> !(tokens@[i] is Eof),
            decreases self.input@.len() - self.position + 1,
        {
            let token = self.next_token();
            let is_eof = matches!(token, Token::Eof);
            tokens.push(token);
            if is_eof {
                break;
            }
        }
        tokens
    }

    /// Tokenises the whole input keeping spans; the result is nonempty and
    /// ends with `Eof`.
    pub fn tokenize_spanned(&mut self) -> (r: Vec<SpannedToken>)
        requires
            old(self).wf(),
        ensures
            final(self).wf(),
            r@.len() > 0,
            r@.last().token is Eof,
            forall|i: int| 0 <= i < r@.len() - 1 ==> !(r@[i].token is Eof),
    {
        let mut tokens: Vec<SpannedToken> = Vec::new();
        loop
            invariant_except_break
                forall|i: int| 0 <= i < tokens@.len() ==> !(tokens@[i].token is Eof),
            invariant
                self.wf(),
            ensures
                self.wf(),
                tokens@.len() > 0,
                tokens@.last().token is Eof,
                forall|i: int| 0 <= i < tokens@.len() - 1 ==> !(tokens@[i].token is Eof),
            decreases self.input@.len() - self.position + 1,
        {
            let spanned_token = self.next_spanned_token();
            let is_eof = matches!(spanned_token.token, Token::Eof);
            tokens.push(spanned_token);
            if is_eof {
                break;
            }
        }
        tokens
    }
}

} // verus!
