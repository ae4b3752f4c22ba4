//! Tokens and the source positions they carry.

use crate::text::{integer_text, integer_to_text};
use vstd::prelude::*;
use vstd::string::StringExecFns;

verus! {

/// What a token is. Integer literals carry their value.
#[derive(Clone, Copy, Debug, PartialEq, Eq, Structural)]
pub enum TokenKind {
    Plus,
    Minus,
    Asterisk,
    Slash,
    LeftParen,
    RightParen,
    Integer(i64),
}

impl TokenKind {
    /// The kind written out: its name, and for an integer its value in
    /// decimal between parentheses.
    pub open spec fn text(self) -> Seq<char> {
        match self {
            TokenKind::Plus => "Plus"@,
            TokenKind::Minus => "Minus"@,
            TokenKind::Asterisk => "Asterisk"@,
            TokenKind::Slash => "Slash"@,
            TokenKind::LeftParen => "LeftParen"@,
            TokenKind::RightParen => "RightParen"@,
            TokenKind::Integer(value) => "Integer("@ + integer_text(value as int) + ")"@,
        }
    }

    /// The kind written out for a reader.
    pub fn to_text(&self) -> (text: String)
        ensures
            text@ == self.text(),
    {
        match *self {
            TokenKind::Plus => "Plus".to_owned(),
            TokenKind::Minus => "Minus".to_owned(),
            TokenKind::Asterisk => "Asterisk".to_owned(),
            TokenKind::Slash => "Slash".to_owned(),
            TokenKind::LeftParen => "LeftParen".to_owned(),
            TokenKind::RightParen => "RightParen".to_owned(),
            TokenKind::Integer(value) => {
                let mut text = "Integer(".to_owned();
                let digits = integer_to_text(value);
                text.append(digits.as_str());
                text.append(")");
                text
            },
        }
    }
}

/// Where a token stands in the source. Offsets count characters from zero;
/// `end` is exclusive. Lines and columns count from one.
#[derive(Clone, Debug, PartialEq, Eq)]
pub struct Span {
    pub start: usize,
    pub end: usize,
    pub line: usize,
    pub column: usize,
    pub literal: String,
}

/// A classified lexical unit together with its position.
#[derive(Clone, Debug, PartialEq, Eq)]
pub struct Token {
    pub kind: TokenKind,
    pub span: Span,
}

impl Token {
    /// The token written out for a reader: its kind, without its position.
    pub fn to_text(&self) -> (text: String)
        ensures
            text@ == self.kind.text(),
    {
        self.kind.to_text()
    }
}

/// The mathematical content of a `Token`.
pub struct TokenView {
    pub kind: TokenKind,
    pub start: int,
    pub end: int,
    pub line: int,
    pub column: int,
    pub literal: Seq<char>,
}

impl View for Token {
    type V = TokenView;

    open spec fn view(&self) -> TokenView {
        TokenView {
            kind: self.kind,
            start: self.span.start as int,
            end: self.span.end as int,
            line: self.span.line as int,
            column: self.span.column as int,
            literal: self.span.literal@,
        }
    }
}

/// The views of a sequence of tokens, in order.
pub open spec fn token_views(tokens: Seq<Token>) -> Seq<TokenView> {
    Seq::new(tokens.len(), |i: int| tokens[i]@)
}

/// The kinds of a sequence of tokens, in order.
pub open spec fn token_kinds(tokens: Seq<Token>) -> Seq<TokenKind> {
    Seq::new(tokens.len(), |i: int| tokens[i].kind)
}

} // verus!
