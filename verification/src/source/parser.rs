//! The expression tree and its recursive-descent parser.

use vstd::prelude::*;
use vstd::string::StringExecFns;
use crate::source::lexer::{Lexer, Span, SpannedToken, Token};

verus! {

/// A boolean expression tree: an owned algebraic type with child ownership by
/// the parent node, no sharing and no cycles.
#[derive(Debug, PartialEq)]
pub enum Expr {
    Identifier(String),
    Not(Box<Expr>),
    And(Box<Expr>, Box<Expr>),
    Or(Box<Expr>, Box<Expr>),
    Xor(Box<Expr>, Box<Expr>),
    Implication(Box<Expr>, Box<Expr>),
}

/// The rendering of an expression, with every binary node parenthesised and
/// the connectives written with their usual symbols.
pub open spec fn text_of(e: Expr) -> Seq<char>
    decreases e,
{
    match e {
        Expr::Identifier(name) => name@,
        Expr::Not(inner) => "\u{00ac}"@ + text_of(*inner),
        Expr::And(l, r) => "("@ + text_of(*l) + " \u{2227} "@ + text_of(*r) + ")"@,
        Expr::Or(l, r) => "("@ + text_of(*l) + " \u{2228} "@ + text_of(*r) + ")"@,
        Expr::Xor(l, r) => "("@ + text_of(*l) + " \u{2295} "@ + text_of(*r) + ")"@,
        Expr::Implication(l, r) => "("@ + text_of(*l) + " \u{2192} "@ + text_of(*r) + ")"@,
    }
}

impl Expr {
    /// Builds a structurally equal copy of the tree.
    pub fn duplicate(&self) -> (r: Expr)
        ensures
            r == *self,
        decreases *self,
    {
        match self {
            Expr::Identifier(name) => Expr::Identifier(name.clone()),
            Expr::Not(inner) => Expr::Not(Box::new(inner.duplicate())),
            Expr::And(l, r) => Expr::And(Box::new(l.duplicate()), Box::new(r.duplicate())),
            Expr::Or(l, r) => Expr::Or(Box::new(l.duplicate()), Box::new(r.duplicate())),
            Expr::Xor(l, r) => Expr::Xor(Box::new(l.duplicate()), Box::new(r.duplicate())),
            Expr::Implication(l, r) => Expr::Implication(
                Box::new(l.duplicate()),
                Box::new(r.duplicate()),
            ),
        }
    }

    /// Renders the tree as text, `(a \u{2227} b)` style.
    pub fn to_text(&self) -> (r: String)
        ensures
            r@ == text_of(*self),
        decreases *self,
    {
        match self {
            Expr::Identifier(name) => name.clone(),
            Expr::Not(inner) => {
                let mut s = String::from_str("\u{00ac}");
                s.append(inner.to_text().as_str());
                assert(s@ =~= text_of(*self));
                s
            },
            Expr::And(l, r) => {
                let mut s = String::from_str("(");
                s.append(l.to_text().as_str());
                s.append(" \u{2227} ");
                s.append(r.to_text().as_str());
                s.append(")");
                assert(s@ =~= text_of(*self));
                s
            },
            Expr::Or(l, r) => {
                let mut s = String::from_str("(");
                s.append(l.to_text().as_str());
                s.append(" \u{2228} ");
                s.append(r.to_text().as_str());
                s.append(")");
                assert(s@ =~= text_of(*self));
                s
            },
            Expr::Xor(l, r) => {
                let mut s = String::from_str("(");
                s.append(l.to_text().as_str());
                s.append(" \u{2295} ");
                s.append(r.to_text().as_str());
                s.append(")");
                assert(s@ =~= text_of(*self));
                s
            },
            Expr::Implication(l, r) => {
                let mut s = String::from_str("(");
                s.append(l.to_text().as_str());
                s.append(" \u{2192} ");
                s.append(r.to_text().as_str());
                s.append(")");
                assert(s@ =~= text_of(*self));
                s
            },
        }
    }
}

/// Why parsing failed, with the character span of the offending token.
#[derive(Debug, Clone, PartialEq)]
pub enum ParseError {
    UnexpectedToken { expected: String, found: String, span: Span },
    UnexpectedEof { span: Span },
    InvalidExpression { span: Span },
}

/// Whether two tokens are of the same kind, the carried name aside.
pub open spec fn token_same_kind(a: Token, b: Token) -> bool {
    match (a, b) {
        (Token::Not, Token::Not) => true,
        (Token::And, Token::And) => true,
        (Token::Or, Token::Or) => true,
        (Token::Xor, Token::Xor) => true,
        (Token::Implication, Token::Implication) => true,
        (Token::Identifier(_), Token::Identifier(_)) => true,
        (Token::LeftParen, Token::LeftParen) => true,
        (Token::RightParen, Token::RightParen) => true,
        (Token::Eof, Token::Eof) => true,
        _ => false,
    }
}

impl Token {
    /// Builds an equal copy of the token.
    fn duplicate(&self) -> (r: Token)
        ensures
            r == *self,
    {
        match self {
            Token::Not => Token::Not,
            Token::And => Token::And,
            Token::Or => Token::Or,
            Token::Xor => Token::Xor,
            Token::Implication => Token::Implication,
            Token::Identifier(name) => Token::Identifier(name.clone()),
            Token::LeftParen => Token::LeftParen,
            Token::RightParen => Token::RightParen,
            Token::Eof => Token::Eof,
        }
    }
}

impl SpannedToken {
    /// Builds an equal copy of the token with its span.
    fn duplicate(&self) -> (r: SpannedToken)
        ensures
            r == *self,
    {
        SpannedToken {
            token: self.token.duplicate(),
            span: Span { start: self.span.start, end: self.span.end },
        }
    }
}

/// Recursive-descent parser over the token stream, with the usual precedence:
/// `not` binds tightest, then `and`, `xor`, `or`, and implication loosest.
pub struct Parser {
    pub tokens: Vec<SpannedToken>,
    pub current: usize,
}

impl Parser {
    /// The token stream is nonempty, ends with `Eof` (and only there), and
    /// the cursor sits on a token.
    pub open spec fn wf(&self) -> bool {
        &&& self.tokens@.len() > 0
        &&& self.tokens@.last().token is Eof
        &&& forall|i: int| 0 <= i < self.tokens@.len() - 1 ==> !(self.tokens@[i].token is Eof)
        &&& self.current < self.tokens@.len()
    }

    pub fn new(input: &str) -> (r: Self)
        requires
            input@.len() < usize::MAX,
        ensures
            r.wf(),
    {
        let mut lexer = Lexer::new(input);
        let tokens = lexer.tokenize_spanned();
        Self { tokens, current: 0 }
    }

    pub fn from_str(input: &str) -> (r: Self)
        requires
            input@.len() < usize::MAX,
        ensures
            r.wf(),
    {
        Self::new(input)
    }

    fn current_token(&self) -> (r: SpannedToken)
        requires
            self.wf(),
        ensures
            r == self.tokens@[self.current as int],
    {
        self.tokens[self.current].duplicate()
    }

    fn advance(&mut self)
        requires
            old(self).wf(),
        ensures
            final(self).wf(),
            final(self).tokens == old(self).tokens,
            old(self).current < old(self).tokens@.len() - 1 ==> final(self).current == old(self).current
                + 1,
            old(self).current >= old(self).tokens@.len() - 1 ==> final(self).current == old(self).current,
    {
        if self.current < self.tokens.len() - 1 {
            self.current = self.current + 1;
        }
    }

    fn expect(&mut self, expected: Token) -> (r: Result<(), ParseError>)
        requires
            old(self).wf(),
        ensures
            final(self).wf(),
            final(self).tokens == old(self).tokens,
            old(self).current <= final(self).current,
            r is Ok ==> token_same_kind(
                old(self).tokens@[old(self).current as int].token,
                expected,
            ),
            r is Ok && !(expected is Eof) ==> final(self).current == old(self).current + 1,
            r is Err ==> final(self).current == old(self).current,
    {
        let current = self.current_token();
        let kinds_match: bool = match (&current.token, &expected) {
            (Token::Not, Token::Not) => true,
            (Token::And, Token::And) => true,
            (Token::Or, Token::Or) => true,
            (Token::Xor, Token::Xor) => true,
            (Token::Implication, Token::Implication) => true,
            (Token::Identifier(_), Token::Identifier(_)) => true,
            (Token::LeftParen, Token::LeftParen) => true,
            (Token::RightParen, Token::RightParen) => true,
            (Token::Eof, Token::Eof) => true,
            _ => false,
        };
        if kinds_match {
            self.advance();
            Ok(())
        } else {
            Err(ParseError::UnexpectedToken {
                expected: expected.describe(),
                found: current.token.describe(),
                span: current.span,
            })
        }
    }

    /// Parses a whole expression; the input must be consumed up to `Eof`.
    pub fn parse(&mut self) -> (r: Result<Expr, ParseError>)
        requires
            old(self).wf(),
        ensures
            final(self).wf(),
            final(self).tokens == old(self).tokens,
            r is Ok ==> final(self).tokens@[final(self).current as int].token is Eof,
    {
        let expr = match self.parse_implication() {
            Ok(e) => e,
            Err(err) => {
                return Err(err);
            },
        };
        let current = self.current_token();
        if !matches!(current.token, Token::Eof) {
            return Err(ParseError::UnexpectedToken {
                expected: String::from_str("end of input"),
                found: current.token.describe(),
                span: current.span,
            });
        }
        Ok(expr)
    }

    fn parse_implication(&mut self) -> (r: Result<Expr, ParseError>)
        requires
            old(self).wf(),
        ensures
            final(self).wf(),
            final(self).tokens == old(self).tokens,
            old(self).current <= final(self).current,
            r is Ok ==> old(self).current < final(self).current,
        decreases old(self).tokens@.len() - old(self).current, 5int,
    {
        let mut left = match self.parse_or() {
            Ok(e) => e,
            Err(err) => {
                return Err(err);
            },
        };
        loop
            invariant
                self.wf(),
                self.tokens == old(self).tokens,
                old(self).current < self.current,
            ensures
                self.wf(),
                self.tokens == old(self).tokens,
                old(self).current < self.current,
            decreases self.tokens@.len() - self.current,
        {
            let t = self.current_token();
            if !matches!(t.token, Token::Implication) {
                break;
            }
            self.advance();
            let right = match self.parse_or() {
                Ok(e) => e,
                Err(err) => {
                    return Err(err);
                },
            };
            left = Expr::Implication(Box::new(left), Box::new(right));
        }
        Ok(left)
    }

    fn parse_or(&mut self) -> (r: Result<Expr, ParseError>)
        requires
            old(self).wf(),
        ensures
            final(self).wf(),
            final(self).tokens == old(self).tokens,
            old(self).current <= final(self).current,
            r is Ok ==> old(self).current < final(self).current,
        decreases old(self).tokens@.len() - old(self).current, 4int,
    {
        let mut left = match self.parse_xor() {
            Ok(e) => e,
            Err(err) => {
                return Err(err);
            },
        };
        loop
            invariant
                self.wf(),
                self.tokens == old(self).tokens,
                old(self).current < self.current,
            ensures
                self.wf(),
                self.tokens == old(self).tokens,
                old(self).current < self.current,
            decreases self.tokens@.len() - self.current,
        {
            let t = self.current_token();
            if !matches!(t.token, Token::Or) {
                break;
            }
            self.advance();
            let right = match self.parse_xor() {
                Ok(e) => e,
                Err(err) => {
                    return Err(err);
                },
            };
            left = Expr::Or(Box::new(left), Box::new(right));
        }
        Ok(left)
    }

    fn parse_xor(&mut self) -> (r: Result<Expr, ParseError>)
        requires
            old(self).wf(),
        ensures
            final(self).wf(),
            final(self).tokens == old(self).tokens,
            old(self).current <= final(self).current,
            r is Ok ==> old(self).current < final(self).current,
        decreases old(self).tokens@.len() - old(self).current, 3int,
    {
        let mut left = match self.parse_and() {
            Ok(e) => e,
            Err(err) => {
                return Err(err);
            },
        };
        loop
            invariant
                self.wf(),
                self.tokens == old(self).tokens,
                old(self).current < self.current,
            ensures
                self.wf(),
                self.tokens == old(self).tokens,
                old(self).current < self.current,
            decreases self.tokens@.len() - self.current,
        {
            let t = self.current_token();
            if !matches!(t.token, Token::Xor) {
                break;
            }
            self.advance();
            let right = match self.parse_and() {
                Ok(e) => e,
                Err(err) => {
                    return Err(err);
                },
            };
            left = Expr::Xor(Box::new(left), Box::new(right));
        }
        Ok(left)
    }

    fn parse_and(&mut self) -> (r: Result<Expr, ParseError>)
        requires
            old(self).wf(),
        ensures
            final(self).wf(),
            final(self).tokens == old(self).tokens,
            old(self).current <= final(self).current,
            r is Ok ==> old(self).current < final(self).current,
        decreases old(self).tokens@.len() - old(self).current, 2int,
    {
        let mut left = match self.parse_unary() {
            Ok(e) => e,
            Err(err) => {
                return Err(err);
            },
        };
        loop
            invariant
                self.wf(),
                self.tokens == old(self).tokens,
                old(self).current < self.current,
            ensures
                self.wf(),
                self.tokens == old(self).tokens,
                old(self).current < self.current,
            decreases self.tokens@.len() - self.current,
        {
            let t = self.current_token();
            if !matches!(t.token, Token::And) {
                break;
            }
            self.advance();
            let right = match self.parse_unary() {
                Ok(e) => e,
                Err(err) => {
                    return Err(err);
                },
            };
            left = Expr::And(Box::new(left), Box::new(right));
        }
        Ok(left)
    }

    fn parse_unary(&mut self) -> (r: Result<Expr, ParseError>)
        requires
            old(self).wf(),
        ensures
            final(self).wf(),
            final(self).tokens == old(self).tokens,
            old(self).current <= final(self).current,
            r is Ok ==> old(self).current < final(self).current,
        decreases old(self).tokens@.len() - old(self).current, 1int,
    {
        let current = self.current_token();
        match current.token {
            Token::Not => {
                self.advance();
                let expr = match self.parse_unary() {
                    Ok(e) => e,
                    Err(err) => {
                        return Err(err);
                    },
                };
                Ok(Expr::Not(Box::new(expr)))
            },
            _ => self.parse_primary(),
        }
    }

    fn parse_primary(&mut self) -> (r: Result<Expr, ParseError>)
        requires
            old(self).wf(),
        ensures
            final(self).wf(),
            final(self).tokens == old(self).tokens,
            old(self).current <= final(self).current,
            r is Ok ==> old(self).current < final(self).current,
        decreases old(self).tokens@.len() - old(self).current, 0int,
    {
        let current = self.current_token();
        match current.token {
            Token::Identifier(name) => {
                self.advance();
                Ok(Expr::Identifier(name))
            },
            Token::LeftParen => {
                self.advance();
                let expr = match self.parse_implication() {
                    Ok(e) => e,
                    Err(err) => {
                        return Err(err);
                    },
                };
                match self.expect(Token::RightParen) {
                    Ok(u) => u,
                    Err(err) => {
                        return Err(err);
                    },
                };
                Ok(expr)
            },
            Token::Eof => Err(ParseError::UnexpectedEof { span: current.span }),
            _ => Err(ParseError::UnexpectedToken {
                expected: String::from_str("identifier or '('"),
                found: current.token.describe(),
                span: current.span,
            }),
        }
    }
}

} // verus!
