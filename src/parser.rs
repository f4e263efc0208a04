use vstd::prelude::*;

use crate::tokenizer::{
    byte_offset, scan_next, MathExpressionTokenizer, MathExpressionTokenizerError, Token,
    TokenView,
};

verus! {

#[derive(Debug, Clone, Copy, PartialEq, Eq, Structural)]
pub enum MathExpressionParserError {
    /// An error of the scanner, passed on unchanged.
    Tokenizer(MathExpressionTokenizerError),
    /// A token stands where the grammar forbids it; `idx` is its byte
    /// offset, or the length of the text for an expression that ends too
    /// early.
    InvalidExpression { idx: usize },
    /// An opening brace at byte `idx` is never closed.
    InvalidBraceConsequence { idx: usize },
}

impl From<MathExpressionTokenizerError> for MathExpressionParserError {
    fn from(err: MathExpressionTokenizerError) -> (r: Self)
        ensures
            r == MathExpressionParserError::Tokenizer(err),
    {
        MathExpressionParserError::Tokenizer(err)
    }
}

impl vstd::std_specs::convert::FromSpecImpl<MathExpressionTokenizerError> for MathExpressionParserError {
    open spec fn obeys_from_spec() -> bool {
        true
    }

    open spec fn from_spec(err: MathExpressionTokenizerError) -> Self {
        MathExpressionParserError::Tokenizer(err)
    }
}

/// A validated expression: its tokens in the order of the text.
pub struct MathExpression {
    pub expression: Vec<Token>,
}

impl View for MathExpression {
    type V = Seq<TokenView>;

    open spec fn view(&self) -> Seq<TokenView> {
        self.expression@.map_values(|t: Token| t@)
    }
}

/// Checks the grammar of the token stream of a tokenizer.
pub struct MathExpressionParser;

/// A token after which an operand (a number or an opening brace) may come.
pub open spec fn awaits_operand(t: TokenView) -> bool {
    t is Operator || t is OpenBrace
}

/// A token that closes an operand, after which an operator or a closing
/// brace may come.
pub open spec fn ends_operand(t: TokenView) -> bool {
    t is Digit || t is CloseBrace
}

/// Whether `t` may follow the tokens `out` accepted so far.
pub open spec fn may_follow(out: Seq<TokenView>, t: TokenView) -> bool {
    if t is OpenBrace || t is Digit {
        out.len() == 0 || awaits_operand(out.last())
    } else {
        out.len() > 0 && ends_operand(out.last())
    }
}

/// The offsets of the open braces once `t`, at byte `idx`, is accepted.
pub open spec fn braces_after(braces: Seq<usize>, t: TokenView, idx: usize) -> Seq<usize> {
    if t is OpenBrace {
        braces.push(idx)
    } else if t is CloseBrace {
        braces.drop_last()
    } else {
        braces
    }
}

/// The outcome once the scanner of `s` has no token left.
pub open spec fn finish(s: Seq<char>, out: Seq<TokenView>, braces: Seq<usize>) -> Result<
    Seq<TokenView>,
    MathExpressionParserError,
> {
    if out.len() > 0 && awaits_operand(out.last()) {
        Err(
            MathExpressionParserError::InvalidExpression {
                idx: byte_offset(s, s.len() as int) as usize,
            },
        )
    } else if braces.len() > 0 {
        Err(MathExpressionParserError::InvalidBraceConsequence { idx: braces.last() })
    } else {
        Ok(out)
    }
}

/// Validation of the tokens of `s` from character index `i`, with the tokens
/// `out` accepted so far and the offsets `braces` of the braces still open.
pub open spec fn validate_from(
    s: Seq<char>,
    i: int,
    out: Seq<TokenView>,
    braces: Seq<usize>,
) -> Result<Seq<TokenView>, MathExpressionParserError>
    decreases s.len() - i,
{
    let (r, n) = scan_next(s, i);
    match r {
        Err(MathExpressionTokenizerError::NoToken) => finish(s, out, braces),
        Err(e) => Err(MathExpressionParserError::Tokenizer(e)),
        Ok((idx, t)) => {
            if !may_follow(out, t) || (t is CloseBrace && braces.len() == 0) {
                Err(MathExpressionParserError::InvalidExpression { idx })
            } else if i < n <= s.len() {
                validate_from(s, n, out.push(t), braces_after(braces, t, idx))
            } else {
                Err(MathExpressionParserError::InvalidExpression { idx })
            }
        },
    }
}

/// Validation of the whole text `s`.
pub open spec fn validate(s: Seq<char>) -> Result<Seq<TokenView>, MathExpressionParserError> {
    validate_from(s, 0, Seq::empty(), Seq::empty())
}

/// The outcome of [`MathExpressionParser::parse`] over token values.
pub open spec fn expression_result_view(r: Result<MathExpression, MathExpressionParserError>) -> Result<
    Seq<TokenView>,
    MathExpressionParserError,
> {
    match r {
        Ok(e) => Ok(e@),
        Err(e) => Err(e),
    }
}

/// Whether `t` may follow the last token of `expression`.
fn fits_after(expression: &Vec<Token>, t: &Token) -> (r: bool)
    ensures
        r == may_follow(expression@.map_values(|t: Token| t@), t@),
{
    let n = expression.len();
    let after_operator = n == 0 || match &expression[n - 1] {
        Token::Operator(_) | Token::OpenBrace => true,
        _ => false,
    };
    let after_operand = n > 0 && match &expression[n - 1] {
        Token::Digit(_) | Token::CloseBrace => true,
        _ => false,
    };
    match t {
        Token::OpenBrace | Token::Digit(_) => after_operator,
        _ => after_operand,
    }
}

impl MathExpressionParser {
    /// A validator; it holds no state of its own.
    pub fn new() -> (r: Self)
        ensures
            r == MathExpressionParser,
    {
        MathExpressionParser
    }

    /// Scans and validates the whole of `expr`; empty text is refused by the
    /// scanner.
    pub fn parse_text(&self, expr: String) -> (r: Result<MathExpression, MathExpressionParserError>)
        ensures
            expression_result_view(r) == if expr@.len() == 0 {
                Err(MathExpressionParserError::Tokenizer(MathExpressionTokenizerError::InvalidArgument))
            } else {
                validate(expr@)
            },
    {
        match MathExpressionTokenizer::new(expr) {
            Ok(tokenizer) => self.parse(tokenizer),
            Err(e) => Err(MathExpressionParserError::from(e)),
        }
    }

    /// Pulls the tokens of `tokenizer` up to the end of its text and checks
    /// each against the one before it and the braces still open. Fails at the
    /// first violation, or with the scanner's own error.
    pub fn parse(&self, tokenizer: MathExpressionTokenizer) -> (r: Result<
        MathExpression,
        MathExpressionParserError,
    >)
        requires
            tokenizer.wf(),
        ensures
            expression_result_view(r) == validate_from(
                tokenizer.text(),
                tokenizer.cursor(),
                Seq::empty(),
                Seq::empty(),
            ),
    {
        let ghost s = tokenizer.text();
        let ghost target = validate_from(s, tokenizer.cursor(), Seq::empty(), Seq::empty());
        let mut scanner = tokenizer;
        let mut expression: Vec<Token> = Vec::new();
        let mut braces: Vec<usize> = Vec::new();
        proof {
            scanner.lemma_cursor_in_text();
            assert(expression@.map_values(|t: Token| t@) =~= Seq::<TokenView>::empty());
        }
        loop
            invariant
                target == validate_from(
                    tokenizer.text(),
                    tokenizer.cursor(),
                    Seq::empty(),
                    Seq::empty(),
                ),
                scanner.wf(),
                scanner.text() == s,
                0 <= scanner.cursor() <= s.len(),
                validate_from(s, scanner.cursor(), expression@.map_values(|t: Token| t@), braces@)
                    == target,
            ensures
                target == validate_from(
                    tokenizer.text(),
                    tokenizer.cursor(),
                    Seq::empty(),
                    Seq::empty(),
                ),
                scanner.wf(),
                finish(s, expression@.map_values(|t: Token| t@), braces@) == target,
            decreases s.len() - scanner.cursor(),
        {
            let ghost before = scanner.cursor();
            let ghost out = expression@.map_values(|t: Token| t@);
            match scanner.next_token() {
                Err(MathExpressionTokenizerError::NoToken) => {
                    break;
                },
                Err(e) => {
                    return Err(MathExpressionParserError::from(e));
                },
                Ok((idx, token)) => {
                    if !fits_after(&expression, &token) {
                        return Err(MathExpressionParserError::InvalidExpression { idx });
                    }
                    match token {
                        Token::OpenBrace => {
                            braces.push(idx);
                        },
                        Token::CloseBrace => {
                            if braces.pop().is_none() {
                                return Err(MathExpressionParserError::InvalidExpression { idx });
                            }
                        },
                        _ => {},
                    }
                    proof {
                        scanner.lemma_cursor_in_text();
                    }
                    let ghost tv = token@;
                    expression.push(token);
                    proof {
                        assert(expression@.map_values(|t: Token| t@) =~= out.push(tv));
                    }
                },
            }
        }
        let n = expression.len();
        let ends_early = n > 0 && match &expression[n - 1] {
            Token::Operator(_) | Token::OpenBrace => true,
            _ => false,
        };
        if ends_early {
            return Err(MathExpressionParserError::InvalidExpression { idx: scanner.text_len() });
        }
        match braces.last() {
            Some(idx) => Err(MathExpressionParserError::InvalidBraceConsequence { idx: *idx }),
            None => Ok(MathExpression { expression }),
        }
    }
}

} // verus!
