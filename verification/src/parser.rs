//! The parser: tokens to expression trees, by recursive descent.
//!
//! ```text
//! program    := statement*
//! statement  := expression
//! expression := term (('+' | '-') term)*
//! term       := factor (('*' | '/') factor)*
//! factor     := INTEGER | '(' expression ')' | '-' factor
//! ```
//!
//! The binary operators associate to the left. The first error ends the
//! parse, and then no tree is handed out.

use crate::token::{Token, TokenKind, token_kinds};
use vstd::prelude::*;

verus! {

#[derive(Clone, Copy, Debug, PartialEq, Eq, Structural)]
pub enum UnaryOperator {
    Negate,
}

#[derive(Clone, Copy, Debug, PartialEq, Eq, Structural)]
pub enum BinaryOperator {
    Add,
    Subtract,
    Multiply,
    Divide,
}

/// A node of the expression tree. A node owns its children.
#[derive(Debug, PartialEq, Eq)]
#[allow(inconsistent_fields)]
pub enum Expression {
    Integer(i64),
    UnaryOperation { operator: UnaryOperator, operand: Box<Expression> },
    BinaryOperation { operator: BinaryOperator, left: Box<Expression>, right: Box<Expression> },
}

/// A top-level statement of a program.
#[derive(Debug, PartialEq, Eq)]
pub enum Statement {
    Expression(Expression),
}

/// A parsed program: its statements in source order.
#[derive(Debug, PartialEq, Eq)]
pub struct AST {
    pub statements: Vec<Statement>,
}

/// Why parsing stopped. A position is an index into the token sequence; at
/// the end of the input it is the length of the sequence.
#[derive(Clone, Copy, Debug, PartialEq, Eq)]
#[allow(inconsistent_fields)]
pub enum ParseError {
    /// No factor starts with the token `found`.
    UnexpectedToken { found: TokenKind, position: usize },
    /// A factor was due where the tokens end.
    UnexpectedEndOfInput,
    /// A token of kind `expected` was due; `found` stands there instead,
    /// `None` at the end of the input.
    ExpectedToken { expected: TokenKind, found: Option<TokenKind>, position: usize },
}

/// A production's outcome in specifications: the tree and the index of the
/// first token after it, or the error.
pub type Parsed = Result<(Expression, int), ParseError>;

/// The operator that `+` or `-` stands for.
pub open spec fn additive(kind: TokenKind) -> Option<BinaryOperator> {
    match kind {
        TokenKind::Plus => Some(BinaryOperator::Add),
        TokenKind::Minus => Some(BinaryOperator::Subtract),
        _ => None,
    }
}

/// The operator that `*` or `/` stands for.
pub open spec fn multiplicative(kind: TokenKind) -> Option<BinaryOperator> {
    match kind {
        TokenKind::Asterisk => Some(BinaryOperator::Multiply),
        TokenKind::Slash => Some(BinaryOperator::Divide),
        _ => None,
    }
}

/// The node that applies `operator` to `left` and `right`.
pub open spec fn binary(operator: BinaryOperator, left: Expression, right: Expression) -> Expression {
    Expression::BinaryOperation { operator, left: Box::new(left), right: Box::new(right) }
}

/// The node that negates `operand`.
pub open spec fn negation(operand: Expression) -> Expression {
    Expression::UnaryOperation { operator: UnaryOperator::Negate, operand: Box::new(operand) }
}

/// The token at `pos`, `None` outside the sequence.
pub open spec fn token_at(ts: Seq<TokenKind>, pos: int) -> Option<TokenKind> {
    if 0 <= pos < ts.len() {
        Some(ts[pos])
    } else {
        None
    }
}

/// Whether a production that began at `pos` ended at `next` having consumed
/// a token. Every production does; the recursion below rests on it.
pub open spec fn consumed(ts: Seq<TokenKind>, pos: int, next: int) -> bool {
    pos < next <= ts.len()
}

/// `factor := INTEGER | '(' expression ')' | '-' factor`, read at `pos`.
pub open spec fn factor_spec(ts: Seq<TokenKind>, pos: int) -> Parsed
    decreases ts.len() - pos, 0int,
{
    match token_at(ts, pos) {
        None => Err(ParseError::UnexpectedEndOfInput),
        Some(TokenKind::Integer(value)) => Ok((Expression::Integer(value), pos + 1)),
        Some(TokenKind::LeftParen) => match expression_spec(ts, pos + 1) {
            Ok((inner, close)) => if token_at(ts, close) == Some(TokenKind::RightParen) {
                Ok((inner, close + 1))
            } else {
                Err(
                    ParseError::ExpectedToken {
                        expected: TokenKind::RightParen,
                        found: token_at(ts, close),
                        position: close as usize,
                    },
                )
            },
            Err(error) => Err(error),
        },
        Some(TokenKind::Minus) => match factor_spec(ts, pos + 1) {
            Ok((operand, next)) => Ok((negation(operand), next)),
            Err(error) => Err(error),
        },
        Some(found) => Err(ParseError::UnexpectedToken { found, position: pos as usize }),
    }
}

/// `(('*' | '/') factor)*` read at `pos`, folded to the left onto `left`.
pub open spec fn term_tail_spec(ts: Seq<TokenKind>, pos: int, left: Expression) -> Parsed
    decreases ts.len() - pos, 1int,
{
    match token_at(ts, pos) {
        Some(kind) if multiplicative(kind) is Some => match factor_spec(ts, pos + 1) {
            Ok((right, next)) if consumed(ts, pos, next) => term_tail_spec(
                ts,
                next,
                binary(multiplicative(kind)->Some_0, left, right),
            ),
            Ok(_) => Err(ParseError::UnexpectedEndOfInput),
            Err(error) => Err(error),
        },
        _ => Ok((left, pos)),
    }
}

/// `term := factor (('*' | '/') factor)*`, read at `pos`.
pub open spec fn term_spec(ts: Seq<TokenKind>, pos: int) -> Parsed
    decreases ts.len() - pos, 2int,
{
    match factor_spec(ts, pos) {
        Ok((left, next)) if consumed(ts, pos, next) => term_tail_spec(ts, next, left),
        Ok(_) => Err(ParseError::UnexpectedEndOfInput),
        Err(error) => Err(error),
    }
}

/// `(('+' | '-') term)*` read at `pos`, folded to the left onto `left`.
pub open spec fn expression_tail_spec(ts: Seq<TokenKind>, pos: int, left: Expression) -> Parsed
    decreases ts.len() - pos, 3int,
{
    match token_at(ts, pos) {
        Some(kind) if additive(kind) is Some => match term_spec(ts, pos + 1) {
            Ok((right, next)) if consumed(ts, pos, next) => expression_tail_spec(
                ts,
                next,
                binary(additive(kind)->Some_0, left, right),
            ),
            Ok(_) => Err(ParseError::UnexpectedEndOfInput),
            Err(error) => Err(error),
        },
        _ => Ok((left, pos)),
    }
}

/// `expression := term (('+' | '-') term)*`, read at `pos`.
pub open spec fn expression_spec(ts: Seq<TokenKind>, pos: int) -> Parsed
    decreases ts.len() - pos, 4int,
{
    match term_spec(ts, pos) {
        Ok((left, next)) if consumed(ts, pos, next) => expression_tail_spec(ts, next, left),
        Ok(_) => Err(ParseError::UnexpectedEndOfInput),
        Err(error) => Err(error),
    }
}

/// A factor that parses consumes at least one token and ends within the
/// tokens.
pub proof fn lemma_factor_consumes(ts: Seq<TokenKind>, pos: int)
    requires
        0 <= pos,
    ensures
        factor_spec(ts, pos) matches Ok((_, next)) ==> consumed(ts, pos, next),
    decreases ts.len() - pos, 0int,
{
    match token_at(ts, pos) {
        Some(TokenKind::LeftParen) => {
            lemma_expression_consumes(ts, pos + 1);
        },
        Some(TokenKind::Minus) => {
            lemma_factor_consumes(ts, pos + 1);
        },
        _ => {},
    }
}

/// The rest of a term ends at or after `pos`, within the tokens.
pub proof fn lemma_term_tail_consumes(ts: Seq<TokenKind>, pos: int, left: Expression)
    requires
        0 <= pos <= ts.len(),
    ensures
        term_tail_spec(ts, pos, left) matches Ok((_, next)) ==> pos <= next <= ts.len(),
    decreases ts.len() - pos, 1int,
{
    match token_at(ts, pos) {
        Some(kind) if multiplicative(kind) is Some => {
            lemma_factor_consumes(ts, pos + 1);
            match factor_spec(ts, pos + 1) {
                Ok((right, next)) => {
                    lemma_term_tail_consumes(
                        ts,
                        next,
                        binary(multiplicative(kind)->Some_0, left, right),
                    );
                },
                Err(_) => {},
            }
        },
        _ => {},
    }
}

/// A term that parses consumes at least one token and ends within the
/// tokens.
pub proof fn lemma_term_consumes(ts: Seq<TokenKind>, pos: int)
    requires
        0 <= pos,
    ensures
        term_spec(ts, pos) matches Ok((_, next)) ==> consumed(ts, pos, next),
    decreases ts.len() - pos, 2int,
{
    lemma_factor_consumes(ts, pos);
    match factor_spec(ts, pos) {
        Ok((left, next)) => {
            lemma_term_tail_consumes(ts, next, left);
        },
        Err(_) => {},
    }
}

/// The rest of an expression ends at or after `pos`, within the tokens.
pub proof fn lemma_expression_tail_consumes(ts: Seq<TokenKind>, pos: int, left: Expression)
    requires
        0 <= pos <= ts.len(),
    ensures
        expression_tail_spec(ts, pos, left) matches Ok((_, next)) ==> pos <= next <= ts.len(),
    decreases ts.len() - pos, 3int,
{
    match token_at(ts, pos) {
        Some(kind) if additive(kind) is Some => {
            lemma_term_consumes(ts, pos + 1);
            match term_spec(ts, pos + 1) {
                Ok((right, next)) => {
                    lemma_expression_tail_consumes(
                        ts,
                        next,
                        binary(additive(kind)->Some_0, left, right),
                    );
                },
                Err(_) => {},
            }
        },
        _ => {},
    }
}

/// An expression that parses consumes at least one token and ends within
/// the tokens.
pub proof fn lemma_expression_consumes(ts: Seq<TokenKind>, pos: int)
    requires
        0 <= pos,
    ensures
        expression_spec(ts, pos) matches Ok((_, next)) ==> consumed(ts, pos, next),
    decreases ts.len() - pos, 4int,
{
    lemma_term_consumes(ts, pos);
    match term_spec(ts, pos) {
        Ok((left, next)) => {
            lemma_expression_tail_consumes(ts, next, left);
        },
        Err(_) => {},
    }
}

/// `first` followed by the statements of `rest`, or the error of `rest`.
pub open spec fn followed_by(
    first: Seq<Statement>,
    rest: Result<Seq<Statement>, ParseError>,
) -> Result<Seq<Statement>, ParseError> {
    match rest {
        Ok(statements) => Ok(first + statements),
        Err(error) => Err(error),
    }
}

/// `program := statement*`, read at `pos`: expressions back to back until
/// the tokens end.
pub open spec fn program_from(ts: Seq<TokenKind>, pos: int) -> Result<Seq<Statement>, ParseError>
    decreases ts.len() - pos,
    when 0 <= pos
    via program_from_decreases
{
    if pos >= ts.len() {
        Ok(Seq::empty())
    } else {
        match expression_spec(ts, pos) {
            Ok((expression, next)) => followed_by(
                seq![Statement::Expression(expression)],
                program_from(ts, next),
            ),
            Err(error) => Err(error),
        }
    }
}

#[via_fn]
proof fn program_from_decreases(ts: Seq<TokenKind>, pos: int) {
    lemma_expression_consumes(ts, pos);
}

/// The statements of the whole token sequence, or the first error.
pub open spec fn program_spec(ts: Seq<TokenKind>) -> Result<Seq<Statement>, ParseError> {
    program_from(ts, 0)
}

/// Whether the outcome `r` of a parsing function is the outcome `spec` of
/// its production.
pub open spec fn agrees(r: Result<(Expression, usize), ParseError>, spec: Parsed) -> bool {
    match r {
        Ok((expression, next)) => spec == Ok::<(Expression, int), ParseError>(
            (expression, next as int),
        ),
        Err(error) => spec == Err::<(Expression, int), ParseError>(error),
    }
}

/// The operator that `kind` stands for between terms, if any.
pub fn additive_operator(kind: TokenKind) -> (r: Option<BinaryOperator>)
    ensures
        r == additive(kind),
{
    match kind {
        TokenKind::Plus => Some(BinaryOperator::Add),
        TokenKind::Minus => Some(BinaryOperator::Subtract),
        _ => None,
    }
}

/// The operator that `kind` stands for between factors, if any.
pub fn multiplicative_operator(kind: TokenKind) -> (r: Option<BinaryOperator>)
    ensures
        r == multiplicative(kind),
{
    match kind {
        TokenKind::Asterisk => Some(BinaryOperator::Multiply),
        TokenKind::Slash => Some(BinaryOperator::Divide),
        _ => None,
    }
}

/// The kind of the token at `pos`, `None` at the end of the tokens.
pub fn peek_kind(tokens: &Vec<Token>, pos: usize) -> (r: Option<TokenKind>)
    ensures
        r == token_at(token_kinds(tokens@), pos as int),
        r is Some <==> pos < tokens@.len(),
        tokens@.len() <= usize::MAX,
{
    let length: usize = tokens.len();
    if pos < length {
        Some(tokens[pos].kind)
    } else {
        None
    }
}

/// Parses one factor at `pos`: an integer, a parenthesised expression, or a
/// negated factor. Gives the tree and the index of the first token after it.
pub fn parse_factor(tokens: &Vec<Token>, pos: usize) -> (r: Result<(Expression, usize), ParseError>)
    ensures
        agrees(r, factor_spec(token_kinds(tokens@), pos as int)),
    decreases tokens@.len() - pos, 0int,
{
    let ghost ts = token_kinds(tokens@);
    match peek_kind(tokens, pos) {
        None => Err(ParseError::UnexpectedEndOfInput),
        Some(TokenKind::Integer(value)) => Ok((Expression::Integer(value), pos + 1)),
        Some(TokenKind::LeftParen) => {
            proof {
                lemma_expression_consumes(ts, pos + 1);
            }
            match parse_expression(tokens, pos + 1) {
                Ok((inner, close)) => {
                    let found = peek_kind(tokens, close);
                    match found {
                        Some(TokenKind::RightParen) => Ok((inner, close + 1)),
                        _ => Err(
                            ParseError::ExpectedToken {
                                expected: TokenKind::RightParen,
                                found,
                                position: close,
                            },
                        ),
                    }
                },
                Err(error) => Err(error),
            }
        },
        Some(TokenKind::Minus) => {
            match parse_factor(tokens, pos + 1) {
                Ok((operand, next)) => Ok(
                    (
                        Expression::UnaryOperation {
                            operator: UnaryOperator::Negate,
                            operand: Box::new(operand),
                        },
                        next,
                    ),
                ),
                Err(error) => Err(error),
            }
        },
        Some(found) => Err(ParseError::UnexpectedToken { found, position: pos }),
    }
}

/// Parses one term at `pos`: a factor, then factors joined by `*` or `/`
/// for as long as one of the two comes next, folded to the left.
pub fn parse_term(tokens: &Vec<Token>, pos: usize) -> (r: Result<(Expression, usize), ParseError>)
    ensures
        agrees(r, term_spec(token_kinds(tokens@), pos as int)),
    decreases tokens@.len() - pos, 2int,
{
    let ghost ts = token_kinds(tokens@);
    proof {
        lemma_factor_consumes(ts, pos as int);
    }
    let first = match parse_factor(tokens, pos) {
        Ok(first) => first,
        Err(error) => {
            return Err(error);
        },
    };
    let mut expression = first.0;
    let mut cursor: usize = first.1;
    loop
        invariant
            ts == token_kinds(tokens@),
            pos < cursor <= ts.len(),
            term_spec(ts, pos as int) == term_tail_spec(ts, cursor as int, expression),
        decreases ts.len() - cursor,
    {
        let operator = match peek_kind(tokens, cursor) {
            Some(kind) => multiplicative_operator(kind),
            None => None,
        };
        match operator {
            None => {
                return Ok((expression, cursor));
            },
            Some(operator) => {
                proof {
                    lemma_factor_consumes(ts, cursor + 1);
                }
                match parse_factor(tokens, cursor + 1) {
                    Ok((right, next)) => {
                        expression =
                        Expression::BinaryOperation {
                            operator,
                            left: Box::new(expression),
                            right: Box::new(right),
                        };
                        cursor = next;
                    },
                    Err(error) => {
                        return Err(error);
                    },
                }
            },
        }
    }
}

/// Parses one expression at `pos`: a term, then terms joined by `+` or `-`
/// for as long as one of the two comes next, folded to the left.
pub fn parse_expression(tokens: &Vec<Token>, pos: usize) -> (r: Result<
    (Expression, usize),
    ParseError,
>)
    ensures
        agrees(r, expression_spec(token_kinds(tokens@), pos as int)),
    decreases tokens@.len() - pos, 4int,
{
    let ghost ts = token_kinds(tokens@);
    proof {
        lemma_term_consumes(ts, pos as int);
    }
    let first = match parse_term(tokens, pos) {
        Ok(first) => first,
        Err(error) => {
            return Err(error);
        },
    };
    let mut expression = first.0;
    let mut cursor: usize = first.1;
    loop
        invariant
            ts == token_kinds(tokens@),
            pos < cursor <= ts.len(),
            expression_spec(ts, pos as int) == expression_tail_spec(ts, cursor as int, expression),
        decreases ts.len() - cursor,
    {
        let operator = match peek_kind(tokens, cursor) {
            Some(kind) => additive_operator(kind),
            None => None,
        };
        match operator {
            None => {
                return Ok((expression, cursor));
            },
            Some(operator) => {
                proof {
                    lemma_term_consumes(ts, cursor + 1);
                }
                match parse_term(tokens, cursor + 1) {
                    Ok((right, next)) => {
                        expression =
                        Expression::BinaryOperation {
                            operator,
                            left: Box::new(expression),
                            right: Box::new(right),
                        };
                        cursor = next;
                    },
                    Err(error) => {
                        return Err(error);
                    },
                }
            },
        }
    }
}

/// Statements appended in two steps are appended as one sequence.
proof fn lemma_followed_by_twice(
    a: Seq<Statement>,
    b: Seq<Statement>,
    rest: Result<Seq<Statement>, ParseError>,
)
    ensures
        followed_by(a, followed_by(b, rest)) == followed_by(a + b, rest),
{
    if let Ok(statements) = rest {
        assert(a + (b + statements) =~= (a + b) + statements);
    }
}

/// Parses a whole token sequence: one statement per expression, back to
/// back, until the tokens end. The first error ends the parse.
pub fn parse(tokens: Vec<Token>) -> (r: Result<AST, ParseError>)
    ensures
        match r {
            Ok(ast) => program_spec(token_kinds(tokens@)) == Ok::<Seq<Statement>, ParseError>(
                ast.statements@,
            ),
            Err(error) => program_spec(token_kinds(tokens@)) == Err::<Seq<Statement>, ParseError>(
                error,
            ),
        },
{
    let ghost ts = token_kinds(tokens@);
    let mut statements: Vec<Statement> = Vec::new();
    let mut pos: usize = 0;
    assert(Seq::<Statement>::empty() + Seq::<Statement>::empty() =~= Seq::<Statement>::empty());
    proof {
        lemma_followed_by_twice(Seq::empty(), Seq::empty(), program_from(ts, 0));
    }
    while pos < tokens.len()
        invariant
            ts == token_kinds(tokens@),
            pos <= ts.len(),
            program_spec(ts) == followed_by(statements@, program_from(ts, pos as int)),
        decreases ts.len() - pos,
    {
        proof {
            lemma_expression_consumes(ts, pos as int);
        }
        match parse_expression(&tokens, pos) {
            Ok((expression, next)) => {
                proof {
                    lemma_followed_by_twice(
                        statements@,
                        seq![Statement::Expression(expression)],
                        program_from(ts, next as int),
                    );
                }
                let ghost before = statements@;
                statements.push(Statement::Expression(expression));
                assert(statements@ =~= before + seq![Statement::Expression(expression)]);
                pos = next;
            },
            Err(error) => {
                return Err(error);
            },
        }
    }
    assert(statements@ + Seq::<Statement>::empty() =~= statements@);
    Ok(AST { statements })
}

} // verus!
