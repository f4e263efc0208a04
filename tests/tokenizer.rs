use calculator::tokenizer::{MathExpressionTokenizer, MathExpressionTokenizerError, Token};

fn digit_value(token: &Token) -> f64 {
    match token {
        Token::Digit(text) => text.parse::<f64>().unwrap(),
        other => panic!("Expected Token::Digit, got {:?}", other),
    }
}

fn scan_all(text: &str) -> (Vec<(usize, Token)>, MathExpressionTokenizerError) {
    let mut tokenizer = MathExpressionTokenizer::new(text.to_string()).unwrap();
    let mut tokens = vec![];
    loop {
        match tokenizer.next_token() {
            Ok(pair) => tokens.push(pair),
            Err(e) => return (tokens, e),
        }
    }
}

#[test]
fn test_empty_string_tokens() {
    assert!(MathExpressionTokenizer::new("".to_string()).is_err());
}

#[test]
fn test_zero_number_tokens() {
    let mut tokenizer = MathExpressionTokenizer::new("0".to_string()).unwrap();
    assert!(tokenizer.has_token());
    let (idx, token) = tokenizer.next_token().unwrap();
    assert_eq!(idx, 0);
    let number = digit_value(&token);
    assert!((number - 0.0).abs() < f64::EPSILON);

    let mut tokenizer = MathExpressionTokenizer::new("-0".to_string()).unwrap();
    assert!(tokenizer.has_token());
    let (idx, token) = tokenizer.next_token().unwrap();
    assert_eq!(idx, 0);
    assert!(matches!(token, Token::Operator('-')));

    assert!(tokenizer.has_token());
    let (idx, token) = tokenizer.next_token().unwrap();
    assert_eq!(idx, 1);
    let number = digit_value(&token);
    assert!((number - 0.0).abs() < f64::EPSILON);
}

#[test]
fn empty_text_is_invalid_argument() {
    assert_eq!(
        MathExpressionTokenizer::new(String::new()).err(),
        Some(MathExpressionTokenizerError::InvalidArgument)
    );
}

#[test]
fn numbers_scan_as_one_token() {
    for text in ["7", "12.5", "0.25", "3.", ".5", "000123"] {
        let (tokens, end) = scan_all(text);
        assert_eq!(end, MathExpressionTokenizerError::NoToken);
        assert_eq!(tokens.len(), 1);
        assert_eq!(tokens[0].0, 0);
        assert_eq!(tokens[0].1, Token::Digit(text.to_string()));
        assert_eq!(digit_value(&tokens[0].1), text.parse::<f64>().unwrap());
    }
}

#[test]
fn lone_dot_is_invalid_token() {
    let (tokens, end) = scan_all(".");
    assert!(tokens.is_empty());
    assert_eq!(end, MathExpressionTokenizerError::InvalidToken { idx: 0, ch: '.' });
}

#[test]
fn two_dots_are_invalid_token() {
    let (tokens, end) = scan_all("2 + 1.2.3");
    assert_eq!(tokens.len(), 2);
    assert_eq!(end, MathExpressionTokenizerError::InvalidToken { idx: 4, ch: '1' });
}

#[test]
fn unknown_character_is_invalid_token() {
    let (tokens, end) = scan_all("1 + x");
    assert_eq!(tokens.len(), 2);
    assert_eq!(end, MathExpressionTokenizerError::InvalidToken { idx: 4, ch: 'x' });
}

#[test]
fn failed_token_leaves_cursor_at_its_start() {
    let mut tokenizer = MathExpressionTokenizer::new("  ..".to_string()).unwrap();
    assert_eq!(
        tokenizer.next_token().err(),
        Some(MathExpressionTokenizerError::InvalidToken { idx: 2, ch: '.' })
    );
    assert_eq!(tokenizer.curr_index(), 2);
}

#[test]
fn operators_scan_one_by_one() {
    let text = "+ -\t*/  -";
    let (tokens, end) = scan_all(text);
    assert_eq!(end, MathExpressionTokenizerError::NoToken);
    let expected = vec![
        (0, Token::Operator('+')),
        (2, Token::Operator('-')),
        (4, Token::Operator('*')),
        (5, Token::Operator('/')),
        (8, Token::Operator('-')),
    ];
    assert_eq!(tokens, expected);
}

#[test]
fn braces_scan_one_by_one() {
    let (tokens, end) = scan_all("( )\n)(");
    assert_eq!(end, MathExpressionTokenizerError::NoToken);
    let expected = vec![
        (0, Token::OpenBrace),
        (2, Token::CloseBrace),
        (4, Token::CloseBrace),
        (5, Token::OpenBrace),
    ];
    assert_eq!(tokens, expected);
}

#[test]
fn offsets_point_at_the_token_text() {
    let text = " (12.5 +\u{a0}3)\u{2003}*  40 ";
    let (tokens, end) = scan_all(text);
    assert_eq!(end, MathExpressionTokenizerError::NoToken);
    assert_eq!(tokens.len(), 7);
    for (idx, token) in tokens {
        let rest = &text[idx..];
        match token {
            Token::Digit(numeral) => assert!(rest.starts_with(&numeral)),
            Token::Operator(op) => assert!(rest.starts_with(op)),
            Token::OpenBrace => assert!(rest.starts_with('(')),
            Token::CloseBrace => assert!(rest.starts_with(')')),
        }
    }
}

#[test]
fn unicode_whitespace_counts_in_bytes() {
    let (tokens, _) = scan_all("\u{a0}1\u{3000}+2");
    assert_eq!(
        tokens,
        vec![
            (2, Token::Digit("1".to_string())),
            (6, Token::Operator('+')),
            (7, Token::Digit("2".to_string())),
        ]
    );
}

#[test]
fn has_token_does_not_move_the_cursor() {
    let mut tokenizer = MathExpressionTokenizer::new("   5  ".to_string()).unwrap();
    assert!(tokenizer.has_token());
    assert!(tokenizer.has_token());
    assert_eq!(tokenizer.curr_index(), 0);
    assert_eq!(tokenizer.next_token().unwrap(), (3, Token::Digit("5".to_string())));
    assert_eq!(tokenizer.curr_index(), 4);
    assert!(!tokenizer.has_token());
    assert_eq!(tokenizer.next_token().err(), Some(MathExpressionTokenizerError::NoToken));
    assert_eq!(tokenizer.curr_index(), 4);
    assert_eq!(tokenizer.text_len(), 6);
}

#[test]
fn whitespace_only_has_no_token() {
    let tokenizer = MathExpressionTokenizer::new(" \t\n".to_string()).unwrap();
    assert!(!tokenizer.has_token());
}
