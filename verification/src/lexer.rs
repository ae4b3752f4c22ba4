//! The lexer: source text to position-tagged tokens.
//!
//! The scanner makes a single pass from left to right with one character of
//! lookahead. It stops at the first error and then hands out no tokens.

use crate::token::{Span, Token, TokenKind, TokenView, token_views};
use vstd::prelude::*;
use vstd::std_specs::iter::IteratorSpec;

verus! {

/// Why lexing stopped.
#[derive(Clone, Debug, PartialEq, Eq)]
pub enum LexError {
    /// A character that is neither whitespace, punctuation nor a digit, and
    /// its character offset.
    InvalidCharacter { character: char, position: usize },
    /// A run of digits whose value does not fit in an `i64`, and the offset
    /// of its first digit.
    IntegerOverflow { literal: String, position: usize },
}

/// The mathematical content of a `LexError`.
pub enum LexErrorView {
    InvalidCharacter { character: char, position: int },
    IntegerOverflow { literal: Seq<char>, position: int },
}

impl View for LexError {
    type V = LexErrorView;

    open spec fn view(&self) -> LexErrorView {
        match *self {
            LexError::InvalidCharacter { character, position } => LexErrorView::InvalidCharacter {
                character,
                position: position as int,
            },
            LexError::IntegerOverflow { literal, position } => LexErrorView::IntegerOverflow {
                literal: literal@,
                position: position as int,
            },
        }
    }
}

/// Space, tab, newline and carriage return separate tokens and are skipped.
pub open spec fn is_whitespace(c: char) -> bool {
    c == ' ' || c == '\t' || c == '\n' || c == '\r'
}

/// The decimal digits.
pub open spec fn is_digit(c: char) -> bool {
    '0' <= c && c <= '9'
}

/// The token kind of a punctuation mark, if `c` is one.
pub open spec fn punctuation(c: char) -> Option<TokenKind> {
    if c == '+' {
        Some(TokenKind::Plus)
    } else if c == '-' {
        Some(TokenKind::Minus)
    } else if c == '*' {
        Some(TokenKind::Asterisk)
    } else if c == '/' {
        Some(TokenKind::Slash)
    } else if c == '(' {
        Some(TokenKind::LeftParen)
    } else if c == ')' {
        Some(TokenKind::RightParen)
    } else {
        None
    }
}

/// The characters that may occur in a source text.
pub open spec fn in_alphabet(c: char) -> bool {
    is_whitespace(c) || is_digit(c) || punctuation(c) is Some
}

/// The number a digit stands for.
pub open spec fn digit_value(c: char) -> int {
    c as int - '0' as int
}

/// The number a run of digits stands for, most significant digit first.
pub open spec fn decimal_value(digits: Seq<char>) -> int
    decreases digits.len(),
{
    if digits.len() == 0 {
        0
    } else {
        decimal_value(digits.drop_last()) * 10 + digit_value(digits.last())
    }
}

/// The first offset at or after `pos` that holds no whitespace.
pub open spec fn skip_whitespace(s: Seq<char>, pos: int) -> int
    decreases s.len() - pos,
{
    if 0 <= pos < s.len() && is_whitespace(s[pos]) {
        skip_whitespace(s, pos + 1)
    } else {
        pos
    }
}

/// The first offset at or after `pos` that holds no digit.
pub open spec fn digits_end(s: Seq<char>, pos: int) -> int
    decreases s.len() - pos,
{
    if 0 <= pos < s.len() && is_digit(s[pos]) {
        digits_end(s, pos + 1)
    } else {
        pos
    }
}

/// The line of offset `pos`: one more than the newlines before it.
pub open spec fn line_at(s: Seq<char>, pos: int) -> int
    decreases pos,
{
    if pos <= 0 || pos > s.len() {
        1
    } else if s[pos - 1] == '\n' {
        line_at(s, pos - 1) + 1
    } else {
        line_at(s, pos - 1)
    }
}

/// The offset at which the line of offset `pos` begins.
pub open spec fn line_start(s: Seq<char>, pos: int) -> int
    decreases pos,
{
    if pos <= 0 || pos > s.len() {
        0
    } else if s[pos - 1] == '\n' {
        pos
    } else {
        line_start(s, pos - 1)
    }
}

/// The column of offset `pos`, counted from one within its line.
pub open spec fn column_at(s: Seq<char>, pos: int) -> int {
    pos - line_start(s, pos) + 1
}

/// The token of kind `kind` that covers `s[start..end]`.
pub open spec fn token_at(s: Seq<char>, start: int, end: int, kind: TokenKind) -> TokenView {
    TokenView {
        kind,
        start,
        end,
        line: line_at(s, start),
        column: column_at(s, start),
        literal: s.subrange(start, end),
    }
}

/// What stands at offset `pos`, which holds a character that is not
/// whitespace: a punctuation mark, a maximal run of digits, or an error.
pub open spec fn token_spec(s: Seq<char>, pos: int) -> Result<TokenView, LexErrorView>
    recommends
        0 <= pos < s.len(),
{
    if punctuation(s[pos]) is Some {
        Ok(token_at(s, pos, pos + 1, punctuation(s[pos])->Some_0))
    } else if is_digit(s[pos]) {
        let end = digits_end(s, pos);
        let literal = s.subrange(pos, end);
        if decimal_value(literal) <= i64::MAX {
            Ok(token_at(s, pos, end, TokenKind::Integer(decimal_value(literal) as i64)))
        } else {
            Err(LexErrorView::IntegerOverflow { literal, position: pos })
        }
    } else {
        Err(LexErrorView::InvalidCharacter { character: s[pos], position: pos })
    }
}

/// The next token at or after `pos`, `None` where only whitespace is left.
pub open spec fn next_token_spec(s: Seq<char>, pos: int) -> Result<Option<TokenView>, LexErrorView> {
    let at = skip_whitespace(s, pos);
    if at >= s.len() {
        Ok(None)
    } else {
        match token_spec(s, at) {
            Ok(token) => Ok(Some(token)),
            Err(error) => Err(error),
        }
    }
}

/// `first` followed by the tokens of `rest`, or the error of `rest`.
pub open spec fn prepend(first: Seq<TokenView>, rest: Result<Seq<TokenView>, LexErrorView>) -> Result<
    Seq<TokenView>,
    LexErrorView,
> {
    match rest {
        Ok(tokens) => Ok(first + tokens),
        Err(error) => Err(error),
    }
}

/// The tokens of `s` from offset `pos` on, or the first error.
pub open spec fn lex_from(s: Seq<char>, pos: int) -> Result<Seq<TokenView>, LexErrorView>
    decreases s.len() - pos,
    when 0 <= pos
    via lex_from_decreases
{
    match next_token_spec(s, pos) {
        Ok(None) => Ok(Seq::empty()),
        Ok(Some(token)) => prepend(seq![token], lex_from(s, token.end)),
        Err(error) => Err(error),
    }
}

#[via_fn]
proof fn lex_from_decreases(s: Seq<char>, pos: int) {
    lemma_skip_whitespace(s, pos);
    let at = skip_whitespace(s, pos);
    if at < s.len() {
        lemma_digits_end(s, at);
    }
}

/// The tokens of the source text `s`, or the first error.
pub open spec fn lex_spec(s: Seq<char>) -> Result<Seq<TokenView>, LexErrorView> {
    lex_from(s, 0)
}

/// Skipping whitespace moves forward over whitespace only and stops at the
/// end or at a character that is not whitespace.
pub proof fn lemma_skip_whitespace(s: Seq<char>, pos: int)
    requires
        0 <= pos,
    ensures
        pos <= skip_whitespace(s, pos),
        pos <= s.len() ==> skip_whitespace(s, pos) <= s.len(),
        skip_whitespace(s, pos) < s.len() ==> !is_whitespace(s[skip_whitespace(s, pos)]),
        forall|i: int| pos <= i < skip_whitespace(s, pos) ==> is_whitespace(#[trigger] s[i]),
    decreases s.len() - pos,
{
    if pos < s.len() && is_whitespace(s[pos]) {
        lemma_skip_whitespace(s, pos + 1);
    }
}

/// A run of digits is not empty where it starts at a digit, holds digits
/// only, and stops at the end or at a character that is no digit.
pub proof fn lemma_digits_end(s: Seq<char>, pos: int)
    requires
        0 <= pos,
    ensures
        pos <= digits_end(s, pos),
        pos < s.len() && is_digit(s[pos]) ==> pos < digits_end(s, pos),
        pos <= s.len() ==> digits_end(s, pos) <= s.len(),
        digits_end(s, pos) < s.len() ==> !is_digit(s[digits_end(s, pos)]),
        forall|i: int| pos <= i < digits_end(s, pos) ==> is_digit(#[trigger] s[i]),
    decreases s.len() - pos,
{
    if pos < s.len() && is_digit(s[pos]) {
        lemma_digits_end(s, pos + 1);
    }
}

/// Prepending in two steps is prepending the concatenation.
proof fn lemma_prepend_twice(
    a: Seq<TokenView>,
    b: Seq<TokenView>,
    rest: Result<Seq<TokenView>, LexErrorView>,
)
    ensures
        prepend(a, prepend(b, rest)) == prepend(a + b, rest),
{
    if let Ok(tokens) = rest {
        assert(a + (b + tokens) =~= (a + b) + tokens);
    }
}

/// The characters of `source`, in order.
fn characters(source: &str) -> (chars: Vec<char>)
    ensures
        chars@ == source@,
{
    broadcast use vstd::string::group_string_axioms;

    let mut rest = source.chars();
    let mut chars: Vec<char> = Vec::new();
    loop
        invariant
            rest.obeys_prophetic_iter_laws(),
            rest.decrease() is Some,
            chars@ + rest.remaining() == source@,
        ensures
            chars@ == source@,
        decreases rest.decrease()->0,
    {
        let ghost before = rest.remaining();
        match rest.next() {
            Some(c) => {
                chars.push(c);
                assert(chars@ + rest.remaining() =~= source@) by {
                    assert(before =~= seq![c] + before.drop_first());
                }
            },
            None => {
                assert(chars@ + rest.remaining() =~= chars@);
                break ;
            },
        }
    }
    chars
}

/// Whether `c` is a decimal digit.
pub fn is_digit_char(c: char) -> (r: bool)
    ensures
        r == is_digit(c),
{
    '0' <= c && c <= '9'
}

/// Whether `c` is skipped between tokens.
pub fn is_whitespace_char(c: char) -> (r: bool)
    ensures
        r == is_whitespace(c),
{
    c == ' ' || c == '\t' || c == '\n' || c == '\r'
}

/// The token kind of the punctuation mark `c`, if it is one.
pub fn punctuation_kind(c: char) -> (r: Option<TokenKind>)
    ensures
        r == punctuation(c),
{
    if c == '+' {
        Some(TokenKind::Plus)
    } else if c == '-' {
        Some(TokenKind::Minus)
    } else if c == '*' {
        Some(TokenKind::Asterisk)
    } else if c == '/' {
        Some(TokenKind::Slash)
    } else if c == '(' {
        Some(TokenKind::LeftParen)
    } else if c == ')' {
        Some(TokenKind::RightParen)
    } else {
        None
    }
}

/// A scanner over the characters of one source text.
///
/// `ch` is the one character of lookahead, at offset `pos`; `next` is the
/// offset after it. At the end of the input `ch` is `'\0'` and `next` is
/// `pos`. `newlines` counts the newlines before `pos`, and `line_start` is
/// the offset at which the line of `pos` begins.
pub struct Lexer {
    pub input: Vec<char>,
    pub pos: usize,
    pub next: usize,
    pub ch: char,
    pub newlines: usize,
    pub line_start: usize,
}

impl Lexer {
    /// The fields agree with each other and with the input.
    pub open spec fn wf(&self) -> bool {
        let s = self.input@;
        &&& self.pos <= s.len()
        &&& self.next == if self.pos < s.len() {
            self.pos + 1
        } else {
            self.pos as int
        }
        &&& self.ch == if self.pos < s.len() {
            s[self.pos as int]
        } else {
            '\0'
        }
        &&& self.newlines + 1 == line_at(s, self.pos as int)
        &&& self.line_start == line_start(s, self.pos as int)
        &&& self.newlines <= self.pos
        &&& self.line_start <= self.pos
    }

    /// A scanner at the start of `source`.
    pub fn new(source: &str) -> (lexer: Lexer)
        ensures
            lexer.wf(),
            lexer.input@ == source@,
            lexer.pos == 0,
    {
        let input = characters(source);
        if input.len() > 0 {
            let ch = input[0];
            Lexer { input, pos: 0, next: 1, ch, newlines: 0, line_start: 0 }
        } else {
            Lexer { input, pos: 0, next: 0, ch: '\0', newlines: 0, line_start: 0 }
        }
    }

    /// The lookahead character, `None` at the end of the input.
    pub fn peek(&self) -> (c: Option<char>)
        requires
            self.wf(),
        ensures
            c == if self.pos < self.input@.len() {
                Some(self.input@[self.pos as int])
            } else {
                None
            },
    {
        if self.pos < self.input.len() {
            Some(self.ch)
        } else {
            None
        }
    }

    /// Consumes the lookahead character.
    pub fn advance(&mut self)
        requires
            old(self).wf(),
            old(self).pos < old(self).input@.len(),
        ensures
            final(self).wf(),
            final(self).input@ == old(self).input@,
            final(self).pos == old(self).pos + 1,
    {
        if self.ch == '\n' {
            self.newlines = self.newlines + 1;
            self.line_start = self.next;
        }
        self.pos = self.next;
        if self.pos < self.input.len() {
            self.ch = self.input[self.pos];
            self.next = self.pos + 1;
        } else {
            self.ch = '\0';
        }
    }

    /// Consumes whitespace up to the next character that is none.
    pub fn skip_whitespace(&mut self)
        requires
            old(self).wf(),
        ensures
            final(self).wf(),
            final(self).input@ == old(self).input@,
            final(self).pos == skip_whitespace(old(self).input@, old(self).pos as int),
    {
        while self.pos < self.input.len() && is_whitespace_char(self.ch)
            invariant
                self.wf(),
                self.input@ == old(self).input@,
                skip_whitespace(self.input@, self.pos as int) == skip_whitespace(
                    old(self).input@,
                    old(self).pos as int,
                ),
            decreases self.input@.len() - self.pos,
        {
            self.advance();
        }
    }

    /// Consumes a maximal run of digits and gives the integer token it
    /// stands for, or `IntegerOverflow` where its value exceeds `i64::MAX`.
    pub fn read_integer(&mut self) -> (r: Result<Token, LexError>)
        requires
            old(self).wf(),
            old(self).pos < old(self).input@.len(),
            is_digit(old(self).input@[old(self).pos as int]),
        ensures
            final(self).wf(),
            final(self).input@ == old(self).input@,
            final(self).pos == digits_end(old(self).input@, old(self).pos as int),
            match r {
                Ok(token) => token_spec(old(self).input@, old(self).pos as int) == Ok::<
                    TokenView,
                    LexErrorView,
                >(token@),
                Err(error) => token_spec(old(self).input@, old(self).pos as int) == Err::<
                    TokenView,
                    LexErrorView,
                >(error@),
            },
    {
        let ghost s = self.input@;
        let start: usize = self.pos;
        let line: usize = self.newlines + 1;
        let column: usize = self.pos - self.line_start + 1;
        let mut literal = String::new();
        let mut value: i64 = 0;
        let mut overflow = false;
        assert(s.subrange(start as int, start as int) =~= Seq::<char>::empty());
        while self.pos < self.input.len() && is_digit_char(self.ch)
            invariant
                self.wf(),
                self.input@ == s,
                start <= self.pos <= s.len(),
                digits_end(s, self.pos as int) == digits_end(s, start as int),
                literal@ == s.subrange(start as int, self.pos as int),
                0 <= value,
                !overflow ==> value == decimal_value(literal@),
                overflow ==> decimal_value(literal@) > i64::MAX,
            decreases s.len() - self.pos,
        {
            let digit: i64 = (self.ch as u32 - 48) as i64;
            proof {
                let longer = s.subrange(start as int, self.pos + 1);
                assert(longer.drop_last() =~= literal@);
                assert(longer.last() == self.ch);
                assert(decimal_value(longer) == decimal_value(literal@) * 10 + digit);
            }
            if !overflow {
                if value > (i64::MAX - digit) / 10 {
                    overflow = true;
                } else {
                    value = value * 10 + digit;
                }
            }
            literal.push(self.ch);
            self.advance();
            assert(literal@ =~= s.subrange(start as int, self.pos as int));
        }
        if overflow {
            Err(LexError::IntegerOverflow { literal, position: start })
        } else {
            Ok(
                Token {
                    kind: TokenKind::Integer(value),
                    span: Span { start, end: self.pos, line, column, literal },
                },
            )
        }
    }

    /// Skips whitespace and consumes the next token; `None` at the end of
    /// the input.
    pub fn next_token(&mut self) -> (r: Result<Option<Token>, LexError>)
        requires
            old(self).wf(),
        ensures
            final(self).wf(),
            final(self).input@ == old(self).input@,
            match r {
                Ok(Some(token)) => {
                    &&& next_token_spec(old(self).input@, old(self).pos as int) == Ok::<
                        Option<TokenView>,
                        LexErrorView,
                    >(Some(token@))
                    &&& final(self).pos == token.span.end
                    &&& old(self).pos < final(self).pos
                },
                Ok(None) => {
                    &&& next_token_spec(old(self).input@, old(self).pos as int) == Ok::<
                        Option<TokenView>,
                        LexErrorView,
                    >(None)
                    &&& final(self).pos == final(self).input@.len()
                },
                Err(error) => next_token_spec(old(self).input@, old(self).pos as int) == Err::<
                    Option<TokenView>,
                    LexErrorView,
                >(error@),
            },
    {
        let ghost s = self.input@;
        proof {
            lemma_skip_whitespace(s, self.pos as int);
        }
        self.skip_whitespace();
        if self.pos >= self.input.len() {
            return Ok(None);
        }
        let c = self.ch;
        proof {
            lemma_digits_end(s, self.pos as int);
        }
        match punctuation_kind(c) {
            Some(kind) => {
                let start: usize = self.pos;
                let line: usize = self.newlines + 1;
                let column: usize = self.pos - self.line_start + 1;
                let mut literal = String::new();
                literal.push(c);
                self.advance();
                assert(literal@ =~= s.subrange(start as int, start + 1));
                Ok(Some(Token { kind, span: Span { start, end: self.pos, line, column, literal } }))
            },
            None => {
                if is_digit_char(c) {
                    match self.read_integer() {
                        Ok(token) => Ok(Some(token)),
                        Err(error) => Err(error),
                    }
                } else {
                    Err(LexError::InvalidCharacter { character: c, position: self.pos })
                }
            },
        }
    }
}

/// Lexes `source`: its tokens in source order, or the first error. On an
/// error no token is handed out.
pub fn tokenize(source: &str) -> (r: Result<Vec<Token>, LexError>)
    ensures
        match r {
            Ok(tokens) => lex_spec(source@) == Ok::<Seq<TokenView>, LexErrorView>(
                token_views(tokens@),
            ),
            Err(error) => lex_spec(source@) == Err::<Seq<TokenView>, LexErrorView>(error@),
        },
{
    let mut lexer = Lexer::new(source);
    let mut tokens: Vec<Token> = Vec::new();
    assert(token_views(tokens@) =~= Seq::<TokenView>::empty());
    proof {
        lemma_prepend_twice(Seq::empty(), Seq::empty(), lex_from(source@, 0));
        assert(Seq::<TokenView>::empty() + Seq::<TokenView>::empty() =~= Seq::<TokenView>::empty());
    }
    loop
        invariant
            lexer.wf(),
            lexer.input@ == source@,
            lex_spec(source@) == prepend(token_views(tokens@), lex_from(source@, lexer.pos as int)),
        decreases source@.len() - lexer.pos,
    {
        let ghost before = token_views(tokens@);
        let ghost pos = lexer.pos as int;
        match lexer.next_token() {
            Ok(Some(token)) => {
                proof {
                    lemma_prepend_twice(before, seq![token@], lex_from(source@, token@.end));
                }
                tokens.push(token);
                assert(token_views(tokens@) =~= before + seq![token@]);
            },
            Ok(None) => {
                assert(before + Seq::<TokenView>::empty() =~= before);
                return Ok(tokens);
            },
            Err(error) => {
                return Err(error);
            },
        }
    }
}

/// Lexes an owned source text: the same as `tokenize` on its characters.
pub fn lex(input: String) -> (r: Result<Vec<Token>, LexError>)
    ensures
        match r {
            Ok(tokens) => lex_spec(input@) == Ok::<Seq<TokenView>, LexErrorView>(
                token_views(tokens@),
            ),
            Err(error) => lex_spec(input@) == Err::<Seq<TokenView>, LexErrorView>(error@),
        },
{
    tokenize(input.as_str())
}

} // verus!
