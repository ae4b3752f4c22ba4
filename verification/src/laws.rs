//! What holds of the lexer and of the parser on every input.

use crate::lexer::{
    LexErrorView, column_at, decimal_value, digits_end, in_alphabet, is_digit, is_whitespace,
    lemma_digits_end, lemma_skip_whitespace, lex_from, lex_spec, line_at, next_token_spec,
    punctuation, skip_whitespace, token_spec,
};
use crate::parser::{
    BinaryOperator, Expression, ParseError, Statement, additive, binary, consumed,
    expression_spec, expression_tail_spec, factor_spec, lemma_factor_consumes, multiplicative,
    negation, program_from, program_spec, term_spec, term_tail_spec, token_at,
};
use crate::text::{digit_char, natural_text};
use crate::token::{TokenKind, TokenView};
use vstd::prelude::*;

verus! {

/// Skipping whitespace from `pos` reaches the end where nothing else
/// follows.
proof fn lemma_skip_all_whitespace(s: Seq<char>, pos: int)
    requires
        0 <= pos <= s.len(),
        forall|i: int| pos <= i < s.len() ==> is_whitespace(#[trigger] s[i]),
    ensures
        skip_whitespace(s, pos) == s.len(),
    decreases s.len() - pos,
{
    if pos < s.len() {
        lemma_skip_all_whitespace(s, pos + 1);
    }
}

/// A run of digits from `pos` reaches the end where nothing else follows.
proof fn lemma_digits_to_the_end(s: Seq<char>, pos: int)
    requires
        0 <= pos <= s.len(),
        forall|i: int| pos <= i < s.len() ==> is_digit(#[trigger] s[i]),
    ensures
        digits_end(s, pos) == s.len(),
    decreases s.len() - pos,
{
    if pos < s.len() {
        lemma_digits_to_the_end(s, pos + 1);
    }
}

/// A source text of whitespace only has no tokens.
pub proof fn lemma_whitespace_has_no_tokens(s: Seq<char>)
    requires
        forall|i: int| 0 <= i < s.len() ==> is_whitespace(#[trigger] s[i]),
    ensures
        lex_spec(s) == Ok::<Seq<TokenView>, LexErrorView>(Seq::empty()),
{
    lemma_skip_all_whitespace(s, 0);
}

/// A source text that is one run of digits whose value fits in an `i64`
/// lexes to one integer token with that value, and the token's literal is
/// the source text itself.
pub proof fn lemma_integer_literal_round_trips(s: Seq<char>)
    requires
        s.len() > 0,
        forall|i: int| 0 <= i < s.len() ==> is_digit(#[trigger] s[i]),
        decimal_value(s) <= i64::MAX,
    ensures
        lex_spec(s) == Ok::<Seq<TokenView>, LexErrorView>(
            seq![
                TokenView {
                    kind: TokenKind::Integer(decimal_value(s) as i64),
                    start: 0,
                    end: s.len() as int,
                    line: 1,
                    column: 1,
                    literal: s,
                },
            ],
        ),
{
    lemma_digits_to_the_end(s, 0);
    assert(is_digit(s[0]));
    assert(skip_whitespace(s, 0) == 0);
    assert(s.subrange(0, s.len() as int) =~= s);
    let token = token_spec(s, 0)->Ok_0;
    assert(lex_from(s, s.len() as int) == Ok::<Seq<TokenView>, LexErrorView>(Seq::empty()));
    assert(seq![token] + Seq::<TokenView>::empty() =~= seq![token]);
}

/// Whether the token `t` says of itself what the source text `s` holds:
/// its offsets mark a stretch of `s` that is not empty, its literal is that
/// stretch, and its line and column are those of its first character.
pub open spec fn faithful(s: Seq<char>, t: TokenView) -> bool {
    &&& 0 <= t.start < t.end <= s.len()
    &&& t.literal == s.subrange(t.start, t.end)
    &&& t.line == line_at(s, t.start)
    &&& t.column == column_at(s, t.start)
}

/// Whether the tokens stand in source order without overlap, none of them
/// before `pos`.
pub open spec fn in_source_order(tokens: Seq<TokenView>, pos: int) -> bool {
    &&& forall|i: int| 0 <= i < tokens.len() ==> pos <= (#[trigger] tokens[i]).start
    &&& forall|i: int, j: int|
        0 <= i < j < tokens.len() ==> (#[trigger] tokens[i]).end <= (#[trigger] tokens[j]).start
}

/// The tokens of a source text from `pos` on are faithful to it and stand
/// in source order.
pub proof fn lemma_tokens_from(s: Seq<char>, pos: int)
    requires
        0 <= pos,
    ensures
        lex_from(s, pos) matches Ok(tokens) ==> {
            &&& forall|i: int| 0 <= i < tokens.len() ==> faithful(s, #[trigger] tokens[i])
            &&& in_source_order(tokens, pos)
        },
    decreases s.len() - pos,
{
    lemma_skip_whitespace(s, pos);
    let at = skip_whitespace(s, pos);
    if at < s.len() {
        lemma_digits_end(s, at);
        if let Ok(Some(token)) = next_token_spec(s, pos) {
            lemma_tokens_from(s, token.end);
            if let Ok(rest) = lex_from(s, token.end) {
                let tokens = seq![token] + rest;
                assert(faithful(s, token));
                assert forall|i: int| 0 <= i < tokens.len() implies faithful(
                    s,
                    #[trigger] tokens[i],
                ) && pos <= tokens[i].start by {
                    if i > 0 {
                        assert(tokens[i] == rest[i - 1]);
                    }
                }
                assert forall|i: int, j: int| 0 <= i < j < tokens.len() implies (
                #[trigger] tokens[i]).end <= (#[trigger] tokens[j]).start by {
                    assert(tokens[j] == rest[j - 1]);
                    if i > 0 {
                        assert(tokens[i] == rest[i - 1]);
                    }
                }
            }
        }
    }
}

/// Every token of a source text has as its literal the very substring that
/// its offsets mark, carries the line and column of its first character,
/// and the tokens stand in source order without overlap.
pub proof fn lemma_tokens_are_faithful(s: Seq<char>)
    ensures
        lex_spec(s) matches Ok(tokens) ==> {
            &&& forall|i: int| 0 <= i < tokens.len() ==> faithful(s, #[trigger] tokens[i])
            &&& in_source_order(tokens, 0)
        },
{
    lemma_tokens_from(s, 0);
}

/// What lexing gives where `p` holds the first character outside the
/// alphabet: that character at `p`, unless a run of digits before it
/// overflows.
pub open spec fn stops_at(
    s: Seq<char>,
    p: int,
    outcome: Result<Seq<TokenView>, LexErrorView>,
) -> bool {
    match outcome {
        Ok(_) => false,
        Err(LexErrorView::InvalidCharacter { character, position }) => {
            character == s[p] && position == p
        },
        Err(LexErrorView::IntegerOverflow { literal, position }) => {
            0 <= position < p && is_digit(s[position])
        },
    }
}

/// Lexing from `pos` stops at the first character outside the alphabet.
pub proof fn lemma_stops_from(s: Seq<char>, pos: int, p: int)
    requires
        0 <= pos <= p < s.len(),
        !in_alphabet(s[p]),
        forall|i: int| pos <= i < p ==> in_alphabet(#[trigger] s[i]),
    ensures
        stops_at(s, p, lex_from(s, pos)),
        lex_from(s, pos) matches Err(LexErrorView::IntegerOverflow { position, .. }) ==> pos
            <= position,
    decreases p - pos,
{
    lemma_skip_whitespace(s, pos);
    let at = skip_whitespace(s, pos);
    if at > p {
        assert(is_whitespace(s[p]));
    }
    if at < p {
        lemma_digits_end(s, at);
        assert(in_alphabet(s[at]));
        if punctuation(s[at]) is Some {
            lemma_stops_from(s, at + 1, p);
        } else {
            let end = digits_end(s, at);
            if end > p {
                assert(is_digit(s[p]));
            }
            if decimal_value(s.subrange(at, end)) <= i64::MAX {
                lemma_stops_from(s, end, p);
            }
        }
    }
}

/// Where a source text holds a character outside the alphabet, lexing
/// fails and hands out no tokens: with `InvalidCharacter` for the first
/// such character, at its offset, unless a run of digits before it
/// overflows, which is then reported.
pub proof fn lemma_first_invalid_character(s: Seq<char>, p: int)
    requires
        0 <= p < s.len(),
        !in_alphabet(s[p]),
        forall|i: int| 0 <= i < p ==> in_alphabet(#[trigger] s[i]),
    ensures
        stops_at(s, p, lex_spec(s)),
{
    lemma_stops_from(s, 0, p);
}

/// Where no digit stands before the first character outside the alphabet,
/// lexing fails with `InvalidCharacter` for that character at its offset.
pub proof fn lemma_invalid_character_is_reported(s: Seq<char>, p: int)
    requires
        0 <= p < s.len(),
        !in_alphabet(s[p]),
        forall|i: int| 0 <= i < p ==> in_alphabet(#[trigger] s[i]) && !is_digit(s[i]),
    ensures
        lex_spec(s) == Err::<Seq<TokenView>, LexErrorView>(
            LexErrorView::InvalidCharacter { character: s[p], position: p },
        ),
{
    lemma_first_invalid_character(s, p);
}

/// Writing a number out gives digits only, at least one, and they stand
/// for that number.
pub proof fn lemma_natural_text_value(n: nat)
    ensures
        natural_text(n).len() > 0,
        forall|i: int| 0 <= i < natural_text(n).len() ==> is_digit(#[trigger] natural_text(n)[i]),
        decimal_value(natural_text(n)) == n,
    decreases n,
{
    let text = natural_text(n);
    if n < 10 {
        assert(text.drop_last() =~= Seq::<char>::empty());
        assert(decimal_value(text.drop_last()) == 0);
        assert(text.last() == digit_char(n as int));
    } else {
        lemma_natural_text_value(n / 10);
        assert(text.drop_last() =~= natural_text(n / 10));
        assert(text.last() == digit_char((n % 10) as int));
    }
}

/// A number that fits in an `i64`, written out in decimal, lexes back to
/// one integer token with that number as its value and the written text as
/// its literal.
pub proof fn lemma_written_integer_lexes_back(n: nat)
    requires
        n <= i64::MAX,
    ensures
        lex_spec(natural_text(n)) == Ok::<Seq<TokenView>, LexErrorView>(
            seq![
                TokenView {
                    kind: TokenKind::Integer(n as i64),
                    start: 0,
                    end: natural_text(n).len() as int,
                    line: 1,
                    column: 1,
                    literal: natural_text(n),
                },
            ],
        ),
{
    lemma_natural_text_value(n);
    lemma_integer_literal_round_trips(natural_text(n));
}

/// The token that stands for a binary operator.
pub open spec fn operator_token(operator: BinaryOperator) -> TokenKind {
    match operator {
        BinaryOperator::Add => TokenKind::Plus,
        BinaryOperator::Subtract => TokenKind::Minus,
        BinaryOperator::Multiply => TokenKind::Asterisk,
        BinaryOperator::Divide => TokenKind::Slash,
    }
}

/// An expression written out as tokens, with parentheses around every
/// binary operation.
pub open spec fn written(expression: Expression) -> Seq<TokenKind>
    decreases expression,
{
    match expression {
        Expression::Integer(value) => seq![TokenKind::Integer(value)],
        Expression::UnaryOperation { operator, operand } => seq![TokenKind::Minus] + written(
            *operand,
        ),
        Expression::BinaryOperation { operator, left, right } => seq![TokenKind::LeftParen]
            + written(*left) + seq![operator_token(operator)] + written(*right)
            + seq![TokenKind::RightParen],
    }
}

/// Whether the tokens `part` stand in `ts` from index `pos` on.
pub open spec fn occurs_at(ts: Seq<TokenKind>, pos: int, part: Seq<TokenKind>) -> bool {
    &&& 0 <= pos
    &&& pos + part.len() <= ts.len()
    &&& forall|i: int| 0 <= i < part.len() ==> ts[pos + i] == #[trigger] part[i]
}

/// Where a concatenation occurs, its two parts occur one after the other.
proof fn lemma_occurs_split(ts: Seq<TokenKind>, pos: int, a: Seq<TokenKind>, b: Seq<TokenKind>)
    requires
        occurs_at(ts, pos, a + b),
    ensures
        occurs_at(ts, pos, a),
        occurs_at(ts, pos + a.len(), b),
{
    let whole = a + b;
    assert forall|i: int| 0 <= i < a.len() implies ts[pos + i] == #[trigger] a[i] by {
        assert(whole[i] == a[i]);
    }
    assert forall|i: int| 0 <= i < b.len() implies ts[pos + a.len() + i] == #[trigger] b[i] by {
        assert(whole[a.len() + i] == b[i]);
    }
}

/// An expression written out has at least one token.
pub proof fn lemma_written_is_not_empty(expression: Expression)
    ensures
        written(expression).len() > 0,
{
}

/// Wherever an expression written out stands among the tokens, a factor
/// read at its first token is that expression and ends after its last.
pub proof fn lemma_factor_reads_written(ts: Seq<TokenKind>, pos: int, expression: Expression)
    requires
        occurs_at(ts, pos, written(expression)),
    ensures
        factor_spec(ts, pos) == Ok::<(Expression, int), ParseError>(
            (expression, pos + written(expression).len()),
        ),
    decreases expression,
{
    let w = written(expression);
    assert(ts[pos + 0] == w[0]);
    match expression {
        Expression::Integer(value) => {},
        Expression::UnaryOperation { operator, operand } => {
            lemma_occurs_split(ts, pos, seq![TokenKind::Minus], written(*operand));
            lemma_factor_reads_written(ts, pos + 1, *operand);
            assert(negation(*operand) == expression);
        },
        Expression::BinaryOperation { operator, left, right } => {
            let open = seq![TokenKind::LeftParen];
            let sign = seq![operator_token(operator)];
            let close = seq![TokenKind::RightParen];
            let l = written(*left);
            let r = written(*right);
            lemma_occurs_split(ts, pos, open + l + sign + r, close);
            lemma_occurs_split(ts, pos, open + l + sign, r);
            lemma_occurs_split(ts, pos, open + l, sign);
            lemma_occurs_split(ts, pos, open, l);
            let sign_at = pos + 1 + l.len();
            let close_at = sign_at + 1 + r.len();
            lemma_written_is_not_empty(*left);
            lemma_written_is_not_empty(*right);
            lemma_factor_reads_written(ts, pos + 1, *left);
            lemma_factor_reads_written(ts, sign_at + 1, *right);
            assert(ts[sign_at + 0] == sign[0]);
            assert(ts[close_at + 0] == close[0]);
            assert(token_at(ts, sign_at) == Some(operator_token(operator)));
            assert(token_at(ts, close_at) == Some(TokenKind::RightParen));
            assert(consumed(ts, pos + 1, sign_at));
            assert(consumed(ts, sign_at, close_at));
            let whole = binary(operator, *left, *right);
            assert(whole == expression);
            if multiplicative(operator_token(operator)) is Some {
                assert(multiplicative(operator_token(operator)) == Some(operator));
                assert(term_tail_spec(ts, close_at, whole) == Ok::<(Expression, int), ParseError>(
                    (whole, close_at),
                ));
                assert(term_tail_spec(ts, sign_at, *left) == Ok::<(Expression, int), ParseError>(
                    (whole, close_at),
                ));
                assert(term_spec(ts, pos + 1) == Ok::<(Expression, int), ParseError>((whole, close_at)));
            } else {
                assert(additive(operator_token(operator)) == Some(operator));
                assert(term_tail_spec(ts, sign_at, *left) == Ok::<(Expression, int), ParseError>(
                    (*left, sign_at),
                ));
                assert(term_spec(ts, pos + 1) == Ok::<(Expression, int), ParseError>((*left, sign_at)));
                assert(term_tail_spec(ts, close_at, *right) == Ok::<(Expression, int), ParseError>(
                    (*right, close_at),
                ));
                assert(term_spec(ts, sign_at + 1) == Ok::<(Expression, int), ParseError>((*right, close_at)));
            }
            assert(expression_tail_spec(ts, close_at, whole) == Ok::<(Expression, int), ParseError>(
                (whole, close_at),
            ));
            assert(expression_spec(ts, pos + 1) == Ok::<(Expression, int), ParseError>(
                (whole, close_at),
            ));
        },
    }
}

/// Every expression is what parsing gives for the expression written out:
/// a program of that one statement.
pub proof fn lemma_parse_reads_written(expression: Expression)
    ensures
        program_spec(written(expression)) == Ok::<Seq<Statement>, ParseError>(
            seq![Statement::Expression(expression)],
        ),
{
    let ts = written(expression);
    let end = ts.len() as int;
    lemma_written_is_not_empty(expression);
    lemma_factor_reads_written(ts, 0, expression);
    assert(term_tail_spec(ts, end, expression) == Ok::<(Expression, int), ParseError>(
        (expression, end),
    ));
    assert(term_spec(ts, 0) == Ok::<(Expression, int), ParseError>((expression, end)));
    assert(expression_tail_spec(ts, end, expression) == Ok::<(Expression, int), ParseError>(
        (expression, end),
    ));
    assert(expression_spec(ts, 0) == Ok::<(Expression, int), ParseError>((expression, end)));
    assert(program_from(ts, end) == Ok::<Seq<Statement>, ParseError>(Seq::empty()));
    assert(seq![Statement::Expression(expression)] + Seq::<Statement>::empty() =~= seq![
        Statement::Expression(expression),
    ]);
}

/// Whether `operator` is one of the multiplicative tier.
pub open spec fn is_multiplicative(operator: BinaryOperator) -> bool {
    operator == BinaryOperator::Multiply || operator == BinaryOperator::Divide
}

/// Whether no expression goes on at `pos`: the tokens end there, or the
/// token there is no binary operator.
pub open spec fn ends_expression(ts: Seq<TokenKind>, pos: int) -> bool {
    match token_at(ts, pos) {
        None => true,
        Some(kind) => additive(kind) is None && multiplicative(kind) is None,
    }
}

/// Precedence and associativity. Let three factors `a`, `b`, `c` stand
/// one after the other, joined by the operators `first` and `second`, with
/// no operator after `c`. Where `first` is additive and `second`
/// multiplicative, the expression read there is `a first (b second c)`. In
/// every other case it folds to the left: `(a first b) second c`.
pub proof fn lemma_two_operators(
    ts: Seq<TokenKind>,
    start: int,
    a: Expression,
    first_at: int,
    first: BinaryOperator,
    b: Expression,
    second_at: int,
    second: BinaryOperator,
    c: Expression,
    end: int,
)
    requires
        0 <= start,
        factor_spec(ts, start) == Ok::<(Expression, int), ParseError>((a, first_at)),
        token_at(ts, first_at) == Some(operator_token(first)),
        factor_spec(ts, first_at + 1) == Ok::<(Expression, int), ParseError>((b, second_at)),
        token_at(ts, second_at) == Some(operator_token(second)),
        factor_spec(ts, second_at + 1) == Ok::<(Expression, int), ParseError>((c, end)),
        ends_expression(ts, end),
    ensures
        expression_spec(ts, start) == Ok::<(Expression, int), ParseError>(
            (
                if !is_multiplicative(first) && is_multiplicative(second) {
                    binary(first, a, binary(second, b, c))
                } else {
                    binary(second, binary(first, a, b), c)
                },
                end,
            ),
        ),
{
    lemma_factor_consumes(ts, start);
    lemma_factor_consumes(ts, first_at + 1);
    lemma_factor_consumes(ts, second_at + 1);
    let ab = binary(first, a, b);
    let bc = binary(second, b, c);
    let left_fold = binary(second, ab, c);
    let right_nest = binary(first, a, bc);
    if is_multiplicative(first) {
        assert(multiplicative(operator_token(first)) == Some(first));
        if is_multiplicative(second) {
            assert(multiplicative(operator_token(second)) == Some(second));
            assert(term_tail_spec(ts, end, left_fold) == Ok::<(Expression, int), ParseError>(
                (left_fold, end),
            ));
            assert(term_tail_spec(ts, second_at, ab) == Ok::<(Expression, int), ParseError>(
                (left_fold, end),
            ));
            assert(term_tail_spec(ts, first_at, a) == Ok::<(Expression, int), ParseError>(
                (left_fold, end),
            ));
            assert(term_spec(ts, start) == Ok::<(Expression, int), ParseError>((left_fold, end)));
            assert(expression_tail_spec(ts, end, left_fold) == Ok::<
                (Expression, int),
                ParseError,
            >((left_fold, end)));
        } else {
            assert(additive(operator_token(second)) == Some(second));
            assert(term_tail_spec(ts, second_at, ab) == Ok::<(Expression, int), ParseError>(
                (ab, second_at),
            ));
            assert(term_tail_spec(ts, first_at, a) == Ok::<(Expression, int), ParseError>(
                (ab, second_at),
            ));
            assert(term_spec(ts, start) == Ok::<(Expression, int), ParseError>((ab, second_at)));
            assert(term_tail_spec(ts, end, c) == Ok::<(Expression, int), ParseError>((c, end)));
            assert(term_spec(ts, second_at + 1) == Ok::<(Expression, int), ParseError>((c, end)));
            assert(expression_tail_spec(ts, end, left_fold) == Ok::<
                (Expression, int),
                ParseError,
            >((left_fold, end)));
            assert(expression_tail_spec(ts, second_at, ab) == Ok::<(Expression, int), ParseError>(
                (left_fold, end),
            ));
        }
    } else {
        assert(additive(operator_token(first)) == Some(first));
        assert(term_tail_spec(ts, first_at, a) == Ok::<(Expression, int), ParseError>(
            (a, first_at),
        ));
        assert(term_spec(ts, start) == Ok::<(Expression, int), ParseError>((a, first_at)));
        if is_multiplicative(second) {
            assert(multiplicative(operator_token(second)) == Some(second));
            assert(term_tail_spec(ts, end, bc) == Ok::<(Expression, int), ParseError>((bc, end)));
            assert(term_tail_spec(ts, second_at, b) == Ok::<(Expression, int), ParseError>(
                (bc, end),
            ));
            assert(term_spec(ts, first_at + 1) == Ok::<(Expression, int), ParseError>((bc, end)));
            assert(expression_tail_spec(ts, end, right_nest) == Ok::<
                (Expression, int),
                ParseError,
            >((right_nest, end)));
            assert(expression_tail_spec(ts, first_at, a) == Ok::<(Expression, int), ParseError>(
                (right_nest, end),
            ));
        } else {
            assert(additive(operator_token(second)) == Some(second));
            assert(term_tail_spec(ts, second_at, b) == Ok::<(Expression, int), ParseError>(
                (b, second_at),
            ));
            assert(term_spec(ts, first_at + 1) == Ok::<(Expression, int), ParseError>(
                (b, second_at),
            ));
            assert(term_tail_spec(ts, end, c) == Ok::<(Expression, int), ParseError>((c, end)));
            assert(term_spec(ts, second_at + 1) == Ok::<(Expression, int), ParseError>((c, end)));
            assert(expression_tail_spec(ts, end, left_fold) == Ok::<
                (Expression, int),
                ParseError,
            >((left_fold, end)));
            assert(expression_tail_spec(ts, second_at, ab) == Ok::<(Expression, int), ParseError>(
                (left_fold, end),
            ));
            assert(expression_tail_spec(ts, first_at, a) == Ok::<(Expression, int), ParseError>(
                (left_fold, end),
            ));
        }
    }
}

/// The empty token sequence is the empty program.
pub proof fn lemma_empty_program()
    ensures
        program_spec(Seq::empty()) == Ok::<Seq<Statement>, ParseError>(Seq::empty()),
{
}

} // verus!
