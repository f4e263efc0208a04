use vstd::prelude::*;
use vstd::std_specs::iter::IteratorSpec;
use vstd::utf8::{encode_scalar, encode_utf8};

verus! {

broadcast use vstd::string::axiom_spec_iter, vstd::string::next_postcondition;

/// A lexical unit of an arithmetic expression.
///
/// A number is kept as the exact numeral that was read (ASCII digits with one
/// dot at most, and one digit at least), which is the text that a
/// floating-point parser turns into its value.
#[derive(Debug, Clone, PartialEq)]
pub enum Token {
    Digit(String),
    Operator(char),
    OpenBrace,
    CloseBrace,
}

/// The mathematical value of a [`Token`].
pub enum TokenView {
    Digit(Seq<char>),
    Operator(char),
    OpenBrace,
    CloseBrace,
}

impl View for Token {
    type V = TokenView;

    open spec fn view(&self) -> TokenView {
        match self {
            Token::Digit(text) => TokenView::Digit(text@),
            Token::Operator(op) => TokenView::Operator(*op),
            Token::OpenBrace => TokenView::OpenBrace,
            Token::CloseBrace => TokenView::CloseBrace,
        }
    }
}

#[derive(Debug, Clone, Copy, PartialEq, Eq, Structural)]
pub enum MathExpressionTokenizerError {
    /// The expression text is empty.
    InvalidArgument,
    /// The run of digits and dots that starts at byte `idx` is not a number;
    /// `ch` is the character found there.
    InvalidToken { idx: usize, ch: char },
    /// Only whitespace is left: the stream of tokens has ended.
    NoToken,
}

/// Unicode `White_Space`, the set that `char::is_whitespace` tests for.
pub open spec fn is_space(c: char) -> bool {
    let u = c as u32;
    (0x09 <= u <= 0x0D) || u == 0x20 || u == 0x85 || u == 0xA0 || u == 0x1680 || (0x2000 <= u
        <= 0x200A) || u == 0x2028 || u == 0x2029 || u == 0x202F || u == 0x205F || u == 0x3000
}

/// An ASCII decimal digit.
pub open spec fn is_decimal_digit(c: char) -> bool {
    '0' as u32 <= c as u32 <= '9' as u32
}

/// A character that may belong to a numeral: a digit or a dot.
pub open spec fn is_numeral_char(c: char) -> bool {
    is_decimal_digit(c) || c == '.'
}

/// The byte offset of character `i` of `s`: the length of the UTF-8
/// encoding of the characters before it.
pub open spec fn byte_offset(s: Seq<char>, i: int) -> nat {
    encode_utf8(s.take(i)).len()
}

/// The first index at or after `i` that does not hold whitespace.
pub open spec fn skip_spaces_from(s: Seq<char>, i: int) -> int
    decreases s.len() - i,
{
    if i >= s.len() {
        s.len() as int
    } else if is_space(s[i]) {
        skip_spaces_from(s, i + 1)
    } else {
        i
    }
}

/// The end of the longest run of digits and dots that starts at `i`.
pub open spec fn numeral_end(s: Seq<char>, i: int) -> int
    decreases s.len() - i,
{
    if i >= s.len() {
        s.len() as int
    } else if is_numeral_char(s[i]) {
        numeral_end(s, i + 1)
    } else {
        i
    }
}

/// How many dots `r` holds.
pub open spec fn dot_count(r: Seq<char>) -> nat
    decreases r.len(),
{
    if r.len() == 0 {
        0
    } else {
        dot_count(r.drop_last()) + if r.last() == '.' {
            1nat
        } else {
            0nat
        }
    }
}

/// Whether a run of digits and dots is a decimal number: std's
/// floating-point grammar, restricted to such text, accepts exactly the runs
/// with one dot at most and one digit at least.
pub open spec fn is_number(r: Seq<char>) -> bool {
    dot_count(r) <= 1 && dot_count(r) < r.len()
}

/// The token that a single character stands for, if it is an operator or a
/// brace.
pub open spec fn sign_token(c: char) -> Option<TokenView> {
    if c == '(' {
        Some(TokenView::OpenBrace)
    } else if c == ')' {
        Some(TokenView::CloseBrace)
    } else if c == '+' || c == '-' || c == '*' || c == '/' {
        Some(TokenView::Operator(c))
    } else {
        None
    }
}

/// One step of scanning `s` from character index `i`: the outcome (a token
/// with the byte offset where it starts, or an error) and the next cursor.
pub open spec fn scan_next(s: Seq<char>, i: int) -> (
    Result<(usize, TokenView), MathExpressionTokenizerError>,
    int,
) {
    let j = skip_spaces_from(s, i);
    if j >= s.len() {
        (Err(MathExpressionTokenizerError::NoToken), i)
    } else {
        match sign_token(s[j]) {
            Some(t) => (Ok((byte_offset(s, j) as usize, t)), j + 1),
            None => {
                let e = numeral_end(s, j);
                let run = s.subrange(j, e);
                if is_number(run) {
                    (Ok((byte_offset(s, j) as usize, TokenView::Digit(run))), e)
                } else {
                    (
                        Err(
                            MathExpressionTokenizerError::InvalidToken {
                                idx: byte_offset(s, j) as usize,
                                ch: s[j],
                            },
                        ),
                        j,
                    )
                }
            },
        }
    }
}

/// The outcome of [`MathExpressionTokenizer::next_token`] over token values.
pub open spec fn token_result_view(
    r: Result<(usize, Token), MathExpressionTokenizerError>,
) -> Result<(usize, TokenView), MathExpressionTokenizerError> {
    match r {
        Ok((idx, t)) => Ok((idx, t@)),
        Err(e) => Err(e),
    }
}

/// The encoding of a concatenation is the concatenation of the encodings.
pub proof fn lemma_encode_concat(a: Seq<char>, b: Seq<char>)
    ensures
        encode_utf8(a + b) == encode_utf8(a) + encode_utf8(b),
    decreases a.len(),
{
    if a.len() == 0 {
        assert(a + b =~= b);
        assert(encode_utf8(a) + encode_utf8(b) =~= encode_utf8(b));
    } else {
        assert((a + b).drop_first() =~= a.drop_first() + b);
        lemma_encode_concat(a.drop_first(), b);
        assert(encode_utf8(a + b) =~= encode_utf8(a) + encode_utf8(b));
    }
}

/// The number of bytes that UTF-8 takes for `c`.
pub open spec fn char_width(c: char) -> nat {
    let u = c as u32;
    if u <= 0x7F {
        1
    } else if u <= 0x7FF {
        2
    } else if u <= 0xFFFF {
        3
    } else {
        4
    }
}

/// Moving past character `j` moves the byte offset by that character's width.
pub proof fn lemma_byte_offset_step(s: Seq<char>, j: int)
    requires
        0 <= j < s.len(),
    ensures
        byte_offset(s, j + 1) == byte_offset(s, j) + char_width(s[j]),
{
    let c = s[j];
    vstd::utf8::char_is_scalar(c);
    assert(s.take(j + 1) =~= s.take(j) + seq![c]);
    lemma_encode_concat(s.take(j), seq![c]);
    assert(seq![c].drop_first() =~= Seq::<char>::empty());
    let e = encode_scalar(c as u32);
    assert(encode_utf8(Seq::<char>::empty()) =~= Seq::<u8>::empty());
    assert(e + Seq::<u8>::empty() =~= e);
    assert(encode_utf8(seq![c]) =~= e);
}

/// Byte offsets grow with the character index.
pub proof fn lemma_byte_offset_mono(s: Seq<char>, a: int, b: int)
    requires
        0 <= a <= b <= s.len(),
    ensures
        byte_offset(s, a) <= byte_offset(s, b),
{
    assert(s.take(b) =~= s.take(a) + s.subrange(a, b));
    lemma_encode_concat(s.take(a), s.subrange(a, b));
}

/// Copies the characters of `s` into a vector, in order.
fn chars_of(s: &str) -> (r: Vec<char>)
    ensures
        r@ == s@,
{
    let mut out: Vec<char> = Vec::new();
    let mut it = s.chars();
    loop
        invariant
            it.obeys_prophetic_iter_laws(),
            it.decrease() is Some,
            out@ + it.remaining() == s@,
        ensures
            out@ == s@,
        decreases it.decrease()->0,
    {
        match it.next() {
            Some(c) => {
                out.push(c);
            },
            None => {
                assert(out@ + it.remaining() =~= out@);
                break;
            },
        }
    }
    out
}

/// Relies on `String::push`: the character is appended at the end.
#[verifier::external_body]
fn push_char(text: &mut String, c: char)
    ensures
        final(text)@ == old(text)@.push(c),
{
    text.push(c)
}

fn is_space_char(c: char) -> (r: bool)
    ensures
        r == is_space(c),
{
    let u = c as u32;
    (0x09 <= u && u <= 0x0D) || u == 0x20 || u == 0x85 || u == 0xA0 || u == 0x1680 || (0x2000
        <= u && u <= 0x200A) || u == 0x2028 || u == 0x2029 || u == 0x202F || u == 0x205F || u
        == 0x3000
}

fn is_numeral_char_exec(c: char) -> (r: bool)
    ensures
        r == is_numeral_char(c),
{
    let u = c as u32;
    ('0' as u32 <= u && u <= '9' as u32) || c == '.'
}

fn char_width_exec(c: char) -> (r: usize)
    ensures
        r == char_width(c),
{
    let u = c as u32;
    if u <= 0x7F {
        1
    } else if u <= 0x7FF {
        2
    } else if u <= 0xFFFF {
        3
    } else {
        4
    }
}

/// Scans an arithmetic expression one token at a time.
///
/// The text is held as its characters; the cursor is kept both as a
/// character index and as the byte offset of that character.
pub struct MathExpressionTokenizer {
    chars: Vec<char>,
    curr_char_idx: usize,
    curr_byte_idx: usize,
    total_bytes: usize,
}

impl MathExpressionTokenizer {
    /// The text being scanned.
    pub closed spec fn text(self) -> Seq<char> {
        self.chars@
    }

    /// The character index of the next unread character.
    pub closed spec fn cursor(self) -> int {
        self.curr_char_idx as int
    }

    /// The cursor lies within the text, its byte offset matches it, and the
    /// byte length of the text is known.
    pub closed spec fn wf(self) -> bool {
        &&& self.curr_char_idx <= self.chars@.len()
        &&& self.curr_byte_idx == byte_offset(self.chars@, self.curr_char_idx as int)
        &&& self.total_bytes == byte_offset(self.chars@, self.chars@.len() as int)
    }

    /// The cursor of a well-formed scanner lies within its text.
    pub proof fn lemma_cursor_in_text(self)
        requires
            self.wf(),
        ensures
            0 <= self.cursor() <= self.text().len(),
    {
    }

    /// Starts a scan of `expr` at its first character; empty text is refused.
    pub fn new(expr: String) -> (r: Result<Self, MathExpressionTokenizerError>)
        ensures
            expr@.len() == 0 <==> r == Err::<Self, _>(MathExpressionTokenizerError::InvalidArgument),
            expr@.len() > 0 ==> r is Ok,
            r is Ok ==> r->Ok_0.wf() && r->Ok_0.text() == expr@ && r->Ok_0.cursor() == 0,
    {
        let text = expr.as_str();
        if text.is_empty() {
            return Err(MathExpressionTokenizerError::InvalidArgument);
        }
        let total_bytes = text.as_bytes().len();
        let chars = chars_of(text);
        proof {
            assert(chars@.take(chars@.len() as int) =~= chars@);
            assert(chars@.take(0) =~= Seq::<char>::empty());
        }
        Ok(Self { chars, curr_char_idx: 0, curr_byte_idx: 0, total_bytes })
    }

    /// The first character index at or after the cursor that is not
    /// whitespace, with its byte offset.
    fn skip_spaces(&self) -> (r: (usize, usize))
        requires
            self.wf(),
        ensures
            r.0 == skip_spaces_from(self.text(), self.cursor()),
            r.0 <= self.text().len(),
            r.1 == byte_offset(self.text(), r.0 as int),
    {
        let mut k = self.curr_char_idx;
        let mut b = self.curr_byte_idx;
        while k < self.chars.len() && is_space_char(self.chars[k])
            invariant
                self.wf(),
                self.curr_char_idx <= k <= self.chars@.len(),
                skip_spaces_from(self.chars@, self.curr_char_idx as int) == skip_spaces_from(
                    self.chars@,
                    k as int,
                ),
                b == byte_offset(self.chars@, k as int),
            decreases self.chars@.len() - k,
        {
            proof {
                lemma_byte_offset_step(self.chars@, k as int);
                lemma_byte_offset_mono(self.chars@, k + 1, self.chars@.len() as int);
            }
            b = b + char_width_exec(self.chars[k]);
            k = k + 1;
        }
        (k, b)
    }

    /// Whether a token is left: a character other than whitespace remains
    /// at or after the cursor.
    pub fn has_token(&self) -> (r: bool)
        requires
            self.wf(),
        ensures
            r == (skip_spaces_from(self.text(), self.cursor()) < self.text().len()),
    {
        let (idx, _) = self.skip_spaces();
        idx < self.chars.len()
    }

    /// The byte offset of the cursor.
    pub fn curr_index(&self) -> (r: usize)
        requires
            self.wf(),
        ensures
            r == byte_offset(self.text(), self.cursor()),
    {
        self.curr_byte_idx
    }

    /// The byte length of the whole text.
    pub fn text_len(&self) -> (r: usize)
        requires
            self.wf(),
        ensures
            r == byte_offset(self.text(), self.text().len() as int),
    {
        self.total_bytes
    }

    /// Reads the run of digits and dots that starts at the cursor and turns
    /// it into a number token, or reports the run as an invalid token.
    fn parse_digits(&self) -> (r: Result<(Token, usize, usize), MathExpressionTokenizerError>)
        requires
            self.wf(),
            self.cursor() < self.text().len(),
        ensures
            ({
                let s = self.text();
                let j = self.cursor();
                let e = numeral_end(s, j);
                let run = s.subrange(j, e);
                &&& is_number(run) ==> r is Ok && r->Ok_0.0@ == TokenView::Digit(run)
                    && r->Ok_0.1 == e && r->Ok_0.2 == byte_offset(s, e)
                &&& !is_number(run) ==> r == Err::<(Token, usize, usize), _>(
                    MathExpressionTokenizerError::InvalidToken {
                        idx: byte_offset(s, j) as usize,
                        ch: s[j],
                    },
                )
            }),
    {
        let begin = self.curr_char_idx;
        let mut k = begin;
        let mut numeral = String::new();
        let mut dots: usize = 0;
        let mut b = self.curr_byte_idx;
        while k < self.chars.len() && is_numeral_char_exec(self.chars[k])
            invariant
                self.wf(),
                begin == self.curr_char_idx,
                begin <= k <= self.chars@.len(),
                numeral_end(self.chars@, begin as int) == numeral_end(self.chars@, k as int),
                numeral@ == self.chars@.subrange(begin as int, k as int),
                dots == dot_count(numeral@),
                dots <= k - begin,
                b == byte_offset(self.chars@, k as int),
            decreases self.chars@.len() - k,
        {
            let c = self.chars[k];
            proof {
                assert(numeral@.push(c).drop_last() =~= numeral@);
            }
            proof {
                lemma_byte_offset_step(self.chars@, k as int);
                lemma_byte_offset_mono(self.chars@, k + 1, self.chars@.len() as int);
            }
            if c == '.' {
                dots = dots + 1;
            }
            b = b + 1;
            push_char(&mut numeral, c);
            k = k + 1;
            assert(numeral@ =~= self.chars@.subrange(begin as int, k as int));
        }
        if dots <= 1 && dots < k - begin {
            Ok((Token::Digit(numeral), k, b))
        } else {
            Err(
                MathExpressionTokenizerError::InvalidToken {
                    idx: self.curr_byte_idx,
                    ch: self.chars[begin],
                },
            )
        }
    }

    /// Reads the next token and returns it with the byte offset where it
    /// starts. Whitespace before it is skipped; at the end of the text the
    /// result is `NoToken` and the cursor stays where it was.
    pub fn next_token(&mut self) -> (r: Result<(usize, Token), MathExpressionTokenizerError>)
        requires
            old(self).wf(),
        ensures
            final(self).wf(),
            final(self).text() == old(self).text(),
            token_result_view(r) == scan_next(old(self).text(), old(self).cursor()).0,
            final(self).cursor() == scan_next(old(self).text(), old(self).cursor()).1,
            old(self).cursor() <= final(self).cursor() <= final(self).text().len(),
            r is Ok ==> old(self).cursor() < final(self).cursor(),
    {
        let (j, bj) = self.skip_spaces();
        if j >= self.chars.len() {
            return Err(MathExpressionTokenizerError::NoToken);
        }
        proof {
            lemma_skip_spaces_bounds(self.chars@, self.curr_char_idx as int);
        }
        self.curr_char_idx = j;
        self.curr_byte_idx = bj;
        let c = self.chars[j];
        let token = if c == '(' {
            Token::OpenBrace
        } else if c == ')' {
            Token::CloseBrace
        } else if c == '+' || c == '-' || c == '*' || c == '/' {
            Token::Operator(c)
        } else {
            let (digit, end, end_byte) = self.parse_digits()?;
            proof {
                lemma_numeral_end_bounds(self.chars@, j as int);
            }
            self.curr_char_idx = end;
            self.curr_byte_idx = end_byte;
            return Ok((bj, digit));
        };
        proof {
            lemma_byte_offset_step(self.chars@, j as int);
            lemma_byte_offset_mono(self.chars@, j + 1, self.chars@.len() as int);
        }
        self.curr_char_idx = j + 1;
        self.curr_byte_idx = bj + char_width_exec(c);
        Ok((bj, token))
    }
}

/// Skipping whitespace stops within the text, on a character that is not
/// whitespace.
pub proof fn lemma_skip_spaces_bounds(s: Seq<char>, i: int)
    requires
        0 <= i <= s.len(),
    ensures
        i <= skip_spaces_from(s, i) <= s.len(),
        skip_spaces_from(s, i) < s.len() ==> !is_space(s[skip_spaces_from(s, i)]),
    decreases s.len() - i,
{
    if i < s.len() && is_space(s[i]) {
        lemma_skip_spaces_bounds(s, i + 1);
    }
}

/// A run of digits and dots ends within the text.
pub proof fn lemma_numeral_end_bounds(s: Seq<char>, i: int)
    requires
        0 <= i <= s.len(),
    ensures
        i <= numeral_end(s, i) <= s.len(),
        forall|k: int| i <= k < numeral_end(s, i) ==> is_numeral_char(#[trigger] s[k]),
    decreases s.len() - i,
{
    if i < s.len() && is_numeral_char(s[i]) {
        lemma_numeral_end_bounds(s, i + 1);
    }
}

} // verus!
