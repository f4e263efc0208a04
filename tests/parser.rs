use calculator::parser::{MathExpressionParser, MathExpressionParserError};
use calculator::tokenizer::{MathExpressionTokenizer, MathExpressionTokenizerError, Token};

fn parse(text: &str) -> Result<Vec<Token>, MathExpressionParserError> {
    let tokenizer = MathExpressionTokenizer::new(text.to_string()).unwrap();
    MathExpressionParser::new().parse(tokenizer).map(|e| e.expression)
}

fn digit(text: &str) -> Token {
    Token::Digit(text.to_string())
}

#[test]
fn single_zero_is_valid() {
    assert_eq!(parse("0"), Ok(vec![digit("0")]));
}

#[test]
fn leading_minus_is_rejected() {
    assert_eq!(parse("-0"), Err(MathExpressionParserError::InvalidExpression { idx: 0 }));
}

#[test]
fn braced_sum_times_three() {
    assert_eq!(
        parse("(1+2)*3"),
        Ok(vec![
            Token::OpenBrace,
            digit("1"),
            Token::Operator('+'),
            digit("2"),
            Token::CloseBrace,
            Token::Operator('*'),
            digit("3"),
        ])
    );
}

#[test]
fn unclosed_brace_is_reported() {
    assert_eq!(parse("(1+2"), Err(MathExpressionParserError::InvalidBraceConsequence { idx: 0 }));
}

#[test]
fn innermost_unclosed_brace_is_reported() {
    assert_eq!(
        parse("((1) + (2"),
        Err(MathExpressionParserError::InvalidBraceConsequence { idx: 7 })
    );
}

#[test]
fn trailing_operator_is_reported_at_text_end() {
    assert_eq!(parse("1+"), Err(MathExpressionParserError::InvalidExpression { idx: 2 }));
    assert_eq!(parse("1+  "), Err(MathExpressionParserError::InvalidExpression { idx: 4 }));
}

#[test]
fn trailing_open_brace_is_reported_at_text_end() {
    assert_eq!(parse("2*("), Err(MathExpressionParserError::InvalidExpression { idx: 3 }));
}

#[test]
fn close_brace_first_is_rejected() {
    assert_eq!(parse(")1"), Err(MathExpressionParserError::InvalidExpression { idx: 0 }));
}

#[test]
fn unmatched_close_brace_is_rejected() {
    assert_eq!(parse("1)"), Err(MathExpressionParserError::InvalidExpression { idx: 1 }));
}

#[test]
fn adjacent_numbers_are_rejected() {
    assert_eq!(parse("1 2"), Err(MathExpressionParserError::InvalidExpression { idx: 2 }));
}

#[test]
fn adjacent_operators_are_rejected() {
    assert_eq!(parse("1 + * 2"), Err(MathExpressionParserError::InvalidExpression { idx: 4 }));
}

#[test]
fn empty_braces_are_rejected() {
    assert_eq!(parse("()"), Err(MathExpressionParserError::InvalidExpression { idx: 1 }));
}

#[test]
fn brace_after_number_is_rejected() {
    assert_eq!(parse("2(3)"), Err(MathExpressionParserError::InvalidExpression { idx: 1 }));
}

#[test]
fn unary_minus_after_brace_is_rejected() {
    assert_eq!(parse("(-1)"), Err(MathExpressionParserError::InvalidExpression { idx: 1 }));
}

#[test]
fn scanner_errors_pass_through() {
    assert_eq!(
        parse("1 + 2.2.2"),
        Err(MathExpressionParserError::Tokenizer(MathExpressionTokenizerError::InvalidToken {
            idx: 4,
            ch: '2'
        }))
    );
    assert_eq!(
        MathExpressionParserError::from(MathExpressionTokenizerError::InvalidArgument),
        MathExpressionParserError::Tokenizer(MathExpressionTokenizerError::InvalidArgument)
    );
}

#[test]
fn whitespace_only_is_an_empty_expression() {
    assert_eq!(parse("   "), Ok(vec![]));
}

#[test]
fn nested_expression_is_valid() {
    assert_eq!(
        parse(" ((4.5) / (2 - 1.)) "),
        Ok(vec![
            Token::OpenBrace,
            Token::OpenBrace,
            digit("4.5"),
            Token::CloseBrace,
            Token::Operator('/'),
            Token::OpenBrace,
            digit("2"),
            Token::Operator('-'),
            digit("1."),
            Token::CloseBrace,
            Token::CloseBrace,
        ])
    );
}

#[test]
fn parse_continues_from_the_cursor() {
    let mut tokenizer = MathExpressionTokenizer::new("+ 1 * 2".to_string()).unwrap();
    tokenizer.next_token().unwrap();
    let parsed = MathExpressionParser::new().parse(tokenizer).unwrap();
    assert_eq!(parsed.expression, vec![digit("1"), Token::Operator('*'), digit("2")]);
}

#[test]
fn parse_text_validates_a_string() {
    let parser = MathExpressionParser::new();
    assert_eq!(
        parser.parse_text("2 * (3)".to_string()).map(|e| e.expression),
        Ok(vec![digit("2"), Token::Operator('*'), Token::OpenBrace, digit("3"), Token::CloseBrace])
    );
    assert_eq!(
        parser.parse_text(String::new()).err(),
        Some(MathExpressionParserError::Tokenizer(MathExpressionTokenizerError::InvalidArgument))
    );
    assert_eq!(
        parser.parse_text("1+".to_string()).err(),
        Some(MathExpressionParserError::InvalidExpression { idx: 2 })
    );
}
