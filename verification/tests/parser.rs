use sage::codegen::generate;
use sage::lexer::tokenize;
use sage::parser::{
    additive_operator, multiplicative_operator, parse, parse_expression, parse_factor, parse_term,
    peek_kind, BinaryOperator, Expression, ParseError, Statement, UnaryOperator, AST,
};
use sage::token::TokenKind;

fn num(value: i64) -> Expression {
    Expression::Integer(value)
}

fn bin(operator: BinaryOperator, left: Expression, right: Expression) -> Expression {
    Expression::BinaryOperation { operator, left: Box::new(left), right: Box::new(right) }
}

fn neg(operand: Expression) -> Expression {
    Expression::UnaryOperation { operator: UnaryOperator::Negate, operand: Box::new(operand) }
}

fn parse_source(source: &str) -> Result<AST, ParseError> {
    parse(tokenize(source).unwrap())
}

fn single(source: &str) -> Expression {
    let mut ast = parse_source(source).unwrap();
    assert_eq!(ast.statements.len(), 1);
    match ast.statements.pop().unwrap() {
        Statement::Expression(expression) => expression,
    }
}

#[test]
fn multiplication_binds_tighter_than_addition() {
    assert_eq!(
        single("1 + 2 * 3"),
        bin(BinaryOperator::Add, num(1), bin(BinaryOperator::Multiply, num(2), num(3)))
    );
    assert_eq!(
        single("1 * 2 + 3"),
        bin(BinaryOperator::Add, bin(BinaryOperator::Multiply, num(1), num(2)), num(3))
    );
}

#[test]
fn parentheses_override_precedence() {
    assert_eq!(
        single("(1 + 2) * 3"),
        bin(BinaryOperator::Multiply, bin(BinaryOperator::Add, num(1), num(2)), num(3))
    );
}

#[test]
fn subtraction_associates_to_the_left() {
    assert_eq!(
        single("10 - 2 - 3"),
        bin(BinaryOperator::Subtract, bin(BinaryOperator::Subtract, num(10), num(2)), num(3))
    );
}

#[test]
fn division_associates_to_the_left() {
    assert_eq!(
        single("8 / 4 / 2"),
        bin(BinaryOperator::Divide, bin(BinaryOperator::Divide, num(8), num(4)), num(2))
    );
    assert_eq!(
        single("8 / 4 * 2"),
        bin(BinaryOperator::Multiply, bin(BinaryOperator::Divide, num(8), num(4)), num(2))
    );
}

#[test]
fn unary_minus() {
    assert_eq!(single("-5"), neg(num(5)));
    assert_eq!(single("--5"), neg(neg(num(5))));
}

#[test]
fn unary_minus_binds_tighter_than_binary_operators() {
    assert_eq!(single("-1 * 2"), bin(BinaryOperator::Multiply, neg(num(1)), num(2)));
    assert_eq!(single("1 - -2"), bin(BinaryOperator::Subtract, num(1), neg(num(2))));
    assert_eq!(single("-(1 + 2)"), neg(bin(BinaryOperator::Add, num(1), num(2))));
}

#[test]
fn parentheses_leave_no_node() {
    assert_eq!(single("((7))"), num(7));
}

#[test]
fn missing_closing_paren() {
    assert_eq!(
        parse_source("(1 + 2"),
        Err(ParseError::ExpectedToken {
            expected: TokenKind::RightParen,
            found: None,
            position: 4
        })
    );
}

#[test]
fn other_token_in_place_of_closing_paren() {
    assert_eq!(
        parse_source("(1 2)"),
        Err(ParseError::ExpectedToken {
            expected: TokenKind::RightParen,
            found: Some(TokenKind::Integer(2)),
            position: 2
        })
    );
    assert_eq!(
        parse_source("(1 ("),
        Err(ParseError::ExpectedToken {
            expected: TokenKind::RightParen,
            found: Some(TokenKind::LeftParen),
            position: 2
        })
    );
}

#[test]
fn empty_token_sequence_is_an_empty_program() {
    assert_eq!(parse(vec![]), Ok(AST { statements: vec![] }));
    assert_eq!(parse_source("  \n"), Ok(AST { statements: vec![] }));
}

#[test]
fn unexpected_token_in_a_factor() {
    assert_eq!(
        parse_source(")"),
        Err(ParseError::UnexpectedToken { found: TokenKind::RightParen, position: 0 })
    );
    assert_eq!(
        parse_source("1 + * 2"),
        Err(ParseError::UnexpectedToken { found: TokenKind::Asterisk, position: 2 })
    );
    assert_eq!(
        parse_source("+1"),
        Err(ParseError::UnexpectedToken { found: TokenKind::Plus, position: 0 })
    );
    assert_eq!(
        parse_source("()"),
        Err(ParseError::UnexpectedToken { found: TokenKind::RightParen, position: 1 })
    );
}

#[test]
fn unexpected_end_of_input() {
    assert_eq!(parse_source("1 +"), Err(ParseError::UnexpectedEndOfInput));
    assert_eq!(parse_source("2 *"), Err(ParseError::UnexpectedEndOfInput));
    assert_eq!(parse_source("-"), Err(ParseError::UnexpectedEndOfInput));
    assert_eq!(parse_source("("), Err(ParseError::UnexpectedEndOfInput));
}

#[test]
fn expressions_back_to_back_are_separate_statements() {
    assert_eq!(
        parse_source("1 2"),
        Ok(AST { statements: vec![Statement::Expression(num(1)), Statement::Expression(num(2))] })
    );
    assert_eq!(
        parse_source("1 + 2 (3) 4 * 5"),
        Ok(AST {
            statements: vec![
                Statement::Expression(bin(BinaryOperator::Add, num(1), num(2))),
                Statement::Expression(num(3)),
                Statement::Expression(bin(BinaryOperator::Multiply, num(4), num(5))),
            ]
        })
    );
}

#[test]
fn a_leading_minus_continues_the_expression_before_it() {
    assert_eq!(
        parse_source("1 -2"),
        Ok(AST { statements: vec![Statement::Expression(bin(BinaryOperator::Subtract, num(1), num(2)))] })
    );
}

#[test]
fn error_after_a_complete_statement_gives_no_program() {
    assert_eq!(
        parse_source("1 + 2 )"),
        Err(ParseError::UnexpectedToken { found: TokenKind::RightParen, position: 3 })
    );
}

#[test]
fn productions_stop_without_consuming_what_follows() {
    let tokens = tokenize("1 * 2 + 3 ) 4").unwrap();
    assert_eq!(parse_factor(&tokens, 0), Ok((num(1), 1)));
    assert_eq!(parse_term(&tokens, 0), Ok((bin(BinaryOperator::Multiply, num(1), num(2)), 3)));
    assert_eq!(
        parse_expression(&tokens, 0),
        Ok((bin(BinaryOperator::Add, bin(BinaryOperator::Multiply, num(1), num(2)), num(3)), 5))
    );
    assert_eq!(parse_expression(&tokens, 2), Ok((bin(BinaryOperator::Add, num(2), num(3)), 5)));
    assert_eq!(
        parse_factor(&tokens, 5),
        Err(ParseError::UnexpectedToken { found: TokenKind::RightParen, position: 5 })
    );
    assert_eq!(parse_factor(&tokens, 7), Err(ParseError::UnexpectedEndOfInput));
    assert_eq!(parse_term(&tokens, 9), Err(ParseError::UnexpectedEndOfInput));
    assert_eq!(parse_expression(&tokens, usize::MAX), Err(ParseError::UnexpectedEndOfInput));
}

#[test]
fn operators_of_each_tier() {
    assert_eq!(additive_operator(TokenKind::Plus), Some(BinaryOperator::Add));
    assert_eq!(additive_operator(TokenKind::Minus), Some(BinaryOperator::Subtract));
    assert_eq!(additive_operator(TokenKind::Asterisk), None);
    assert_eq!(additive_operator(TokenKind::Integer(1)), None);
    assert_eq!(multiplicative_operator(TokenKind::Asterisk), Some(BinaryOperator::Multiply));
    assert_eq!(multiplicative_operator(TokenKind::Slash), Some(BinaryOperator::Divide));
    assert_eq!(multiplicative_operator(TokenKind::Minus), None);
    assert_eq!(multiplicative_operator(TokenKind::LeftParen), None);
}

#[test]
fn peeking_at_a_token() {
    let tokens = tokenize("4 /").unwrap();
    assert_eq!(peek_kind(&tokens, 0), Some(TokenKind::Integer(4)));
    assert_eq!(peek_kind(&tokens, 1), Some(TokenKind::Slash));
    assert_eq!(peek_kind(&tokens, 2), None);
}

#[test]
fn generated_text_has_one_opening_line_per_statement() {
    assert_eq!(generate(&AST { statements: vec![] }), "use std::io::{self, Write};\n");
    assert_eq!(
        generate(&parse_source("1 2").unwrap()),
        "use std::io::{self, Write};\nfn main() {\nfn main() {\n"
    );
    assert_eq!(
        generate(&parse_source("1 + 2").unwrap()),
        "use std::io::{self, Write};\nfn main() {\n"
    );
}

#[test]
fn fully_parenthesised_expression_parses_back() {
    let expected = bin(
        BinaryOperator::Subtract,
        bin(BinaryOperator::Divide, num(1), neg(num(2))),
        neg(bin(BinaryOperator::Add, num(3), bin(BinaryOperator::Multiply, num(4), num(5)))),
    );
    assert_eq!(single("((1 / -2) - -(3 + (4 * 5)))"), expected);
}
