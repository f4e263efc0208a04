use vstd::prelude::*;

use crate::parser::{awaits_operand, braces_after, finish, may_follow, validate, validate_from};
use crate::tokenizer::{
    byte_offset, dot_count, is_decimal_digit, is_numeral_char, is_space, numeral_end,
    scan_next, sign_token, skip_spaces_from, lemma_byte_offset_mono,
    lemma_numeral_end_bounds, lemma_skip_spaces_bounds, MathExpressionTokenizerError,
    TokenView,
};

verus! {

/// The tokens that scanning `s` from character index `i` yields, each with
/// its byte offset, up to the end of the text or the first error.
pub open spec fn scanned_tokens(s: Seq<char>, i: int) -> Seq<(usize, TokenView)>
    decreases s.len() - i,
{
    let (r, n) = scan_next(s, i);
    match r {
        Ok(t) => if i < n <= s.len() {
            seq![t] + scanned_tokens(s, n)
        } else {
            Seq::empty()
        },
        Err(_) => Seq::empty(),
    }
}

/// The error that ends the scan of `s` from `i`; `NoToken` when the text is
/// used up without a fault.
pub open spec fn scan_stop(s: Seq<char>, i: int) -> MathExpressionTokenizerError
    decreases s.len() - i,
{
    let (r, n) = scan_next(s, i);
    match r {
        Ok(t) => if i < n <= s.len() {
            scan_stop(s, n)
        } else {
            MathExpressionTokenizerError::NoToken
        },
        Err(e) => e,
    }
}

/// The tokens of a text of operators, braces and whitespace: one for each
/// character that is not whitespace, at that character's byte offset.
pub open spec fn sign_tokens(s: Seq<char>, i: int) -> Seq<(usize, TokenView)>
    decreases s.len() - i,
{
    if i >= s.len() {
        Seq::empty()
    } else if is_space(s[i]) {
        sign_tokens(s, i + 1)
    } else {
        seq![(byte_offset(s, i) as usize, sign_token(s[i])->Some_0)] + sign_tokens(s, i + 1)
    }
}

/// The characters of the source that a token is read from.
pub open spec fn lexeme(t: TokenView) -> Seq<char> {
    match t {
        TokenView::Digit(run) => run,
        TokenView::Operator(op) => seq![op],
        TokenView::OpenBrace => seq!['('],
        TokenView::CloseBrace => seq![')'],
    }
}

/// The text of `s` at byte offset `off` starts with the lexeme of `t`.
pub open spec fn points_at(s: Seq<char>, off: usize, t: TokenView) -> bool {
    exists|k: int|
        0 <= k && k + lexeme(t).len() <= s.len() && byte_offset(s, k) == off as nat
            && #[trigger] s.subrange(k, k + lexeme(t).len()) == lexeme(t)
}

proof fn lemma_scan_advances(s: Seq<char>, i: int)
    requires
        0 <= i <= s.len(),
    ensures
        scan_next(s, i).0 is Ok ==> i < scan_next(s, i).1 <= s.len(),
{
    lemma_skip_spaces_bounds(s, i);
    let j = skip_spaces_from(s, i);
    if j < s.len() {
        lemma_numeral_end_bounds(s, j);
    }
}

proof fn lemma_space_is_skipped(s: Seq<char>, i: int)
    requires
        0 <= i < s.len(),
        is_space(s[i]),
    ensures
        scanned_tokens(s, i) == scanned_tokens(s, i + 1),
        scan_stop(s, i) == scan_stop(s, i + 1),
{
    lemma_scan_advances(s, i);
    lemma_scan_advances(s, i + 1);
}

proof fn lemma_sign_text(s: Seq<char>, i: int)
    requires
        0 <= i <= s.len(),
        forall|k: int| 0 <= k < s.len() ==> is_space(s[k]) || (#[trigger] sign_token(s[k])) is Some,
    ensures
        scanned_tokens(s, i) == sign_tokens(s, i),
        scan_stop(s, i) == MathExpressionTokenizerError::NoToken,
    decreases s.len() - i,
{
    if i < s.len() {
        lemma_sign_text(s, i + 1);
        if is_space(s[i]) {
            lemma_space_is_skipped(s, i);
        } else {
            assert(sign_token(s[i]) is Some);
        }
    }
}

/// A text of operators and whitespace scans to one operator token for each
/// character that is not whitespace, at that character's byte offset; the
/// scanner is then exhausted without error.
pub proof fn lemma_operators_scan_one_by_one(s: Seq<char>)
    requires
        forall|k: int|
            0 <= k < s.len() ==> is_space(#[trigger] s[k]) || s[k] == '+' || s[k] == '-' || s[k]
                == '*' || s[k] == '/',
    ensures
        scanned_tokens(s, 0) == sign_tokens(s, 0),
        forall|k: int| 0 <= k < s.len() && !is_space(s[k]) ==> #[trigger] sign_token(s[k]) == Some(TokenView::Operator(s[k])),
        scan_stop(s, 0) == MathExpressionTokenizerError::NoToken,
{
    assert forall|k: int| 0 <= k < s.len() implies is_space(s[k]) || (#[trigger] sign_token(s[k])) is Some by {
        assert(is_space(s[k]) || s[k] == '+' || s[k] == '-' || s[k] == '*' || s[k] == '/');
    }
    lemma_sign_text(s, 0);
}

/// A text of braces and whitespace scans to an opening-brace token for each
/// `(` and a closing-brace token for each `)`, at that character's byte
/// offset; the scanner is then exhausted without error.
pub proof fn lemma_braces_scan_one_by_one(s: Seq<char>)
    requires
        forall|k: int| 0 <= k < s.len() ==> is_space(#[trigger] s[k]) || s[k] == '(' || s[k] == ')',
    ensures
        scanned_tokens(s, 0) == sign_tokens(s, 0),
        forall|k: int| 0 <= k < s.len() && s[k] == '(' ==> #[trigger] sign_token(s[k]) == Some(TokenView::OpenBrace),
        forall|k: int| 0 <= k < s.len() && s[k] == ')' ==> #[trigger] sign_token(s[k]) == Some(TokenView::CloseBrace),
        scan_stop(s, 0) == MathExpressionTokenizerError::NoToken,
{
    assert forall|k: int| 0 <= k < s.len() implies is_space(s[k]) || (#[trigger] sign_token(s[k])) is Some by {
        assert(is_space(s[k]) || s[k] == '(' || s[k] == ')');
    }
    lemma_sign_text(s, 0);
}

proof fn lemma_numeral_runs_to_end(s: Seq<char>, i: int)
    requires
        0 <= i <= s.len(),
        forall|k: int| 0 <= k < s.len() ==> is_numeral_char(#[trigger] s[k]),
    ensures
        numeral_end(s, i) == s.len(),
    decreases s.len() - i,
{
    if i < s.len() {
        lemma_numeral_runs_to_end(s, i + 1);
    }
}

proof fn lemma_digit_beats_dots(s: Seq<char>, d: int)
    requires
        0 <= d < s.len(),
        is_decimal_digit(s[d]),
    ensures
        dot_count(s) < s.len(),
    decreases s.len(),
{
    lemma_dot_count_bound(s.drop_last());
    if d < s.len() - 1 {
        assert(s.drop_last()[d] == s[d]);
        lemma_digit_beats_dots(s.drop_last(), d);
    }
}

proof fn lemma_dot_count_bound(s: Seq<char>)
    ensures
        dot_count(s) <= s.len(),
    decreases s.len(),
{
    if s.len() > 0 {
        lemma_dot_count_bound(s.drop_last());
    }
}

/// A text of digits with one dot at most and one digit at least scans to a
/// single number token that holds the whole text, at offset 0; the scanner
/// is then exhausted without error.
pub proof fn lemma_number_scans_whole(s: Seq<char>)
    requires
        forall|k: int| 0 <= k < s.len() ==> is_numeral_char(#[trigger] s[k]),
        dot_count(s) <= 1,
        exists|k: int| 0 <= k < s.len() && is_decimal_digit(#[trigger] s[k]),
    ensures
        scanned_tokens(s, 0) == seq![(0usize, TokenView::Digit(s))],
        scan_stop(s, 0) == MathExpressionTokenizerError::NoToken,
{
    let d = choose|k: int| 0 <= k < s.len() && is_decimal_digit(#[trigger] s[k]);
    lemma_digit_beats_dots(s, d);
    assert(is_numeral_char(s[0]));
    lemma_numeral_runs_to_end(s, 0);
    assert(s.subrange(0, s.len() as int) =~= s);
    assert(s.take(0) =~= Seq::<char>::empty());
    assert(byte_offset(s, 0) == 0);
    lemma_scan_advances(s, s.len() as int);
    assert(scanned_tokens(s, s.len() as int) =~= Seq::<(usize, TokenView)>::empty());
    assert(scanned_tokens(s, 0) =~= seq![(0usize, TokenView::Digit(s))]);
    assert(scan_stop(s, s.len() as int) == MathExpressionTokenizerError::NoToken);
    assert(scan_next(s, 0).1 == s.len());
}

proof fn lemma_tokens_point_from(s: Seq<char>, i: int)
    requires
        0 <= i <= s.len(),
        byte_offset(s, s.len() as int) <= usize::MAX,
    ensures
        forall|m: int|
            0 <= m < scanned_tokens(s, i).len() ==> points_at(
                s,
                #[trigger] scanned_tokens(s, i)[m].0,
                scanned_tokens(s, i)[m].1,
            ),
    decreases s.len() - i,
{
    lemma_scan_advances(s, i);
    let (r, n) = scan_next(s, i);
    if r is Ok {
        lemma_tokens_point_from(s, n);
        let j = skip_spaces_from(s, i);
        lemma_skip_spaces_bounds(s, i);
        lemma_byte_offset_mono(s, j, s.len() as int);
        let (off, t) = r->Ok_0;
        if sign_token(s[j]) is None {
            lemma_numeral_end_bounds(s, j);
        } else {
            assert(s.subrange(j, j + 1) =~= seq![s[j]]);
        }
        assert(s.subrange(j, j + lexeme(t).len()) == lexeme(t));
        assert(points_at(s, off, t));
        let tail = scanned_tokens(s, n);
        assert forall|m: int|
            0 <= m < scanned_tokens(s, i).len() implies points_at(
                s,
                #[trigger] scanned_tokens(s, i)[m].0,
                scanned_tokens(s, i)[m].1,
            ) by {
            if m > 0 {
                assert(scanned_tokens(s, i)[m] == tail[m - 1]);
            }
        }
    }
}

proof fn lemma_accepted_are_scanned(
    s: Seq<char>,
    i: int,
    out: Seq<TokenView>,
    braces: Seq<usize>,
)
    requires
        0 <= i <= s.len(),
        validate_from(s, i, out, braces) is Ok,
    ensures
        validate_from(s, i, out, braces)->Ok_0 == out + scanned_tokens(s, i).map_values(
            |p: (usize, TokenView)| p.1,
        ),
    decreases s.len() - i,
{
    lemma_scan_advances(s, i);
    let (r, n) = scan_next(s, i);
    match r {
        Ok((idx, t)) => {
            let next_braces = braces_after(braces, t, idx);
            lemma_accepted_are_scanned(s, n, out.push(t), next_braces);
            let tail = scanned_tokens(s, n).map_values(|p: (usize, TokenView)| p.1);
            assert(scanned_tokens(s, i).map_values(|p: (usize, TokenView)| p.1) =~= seq![t]
                + tail);
            assert(out.push(t) + tail =~= out + (seq![t] + tail));
        },
        Err(_) => {
            assert(scanned_tokens(s, i).map_values(|p: (usize, TokenView)| p.1) =~= Seq::<
                TokenView,
            >::empty());
            assert(out + Seq::<TokenView>::empty() =~= out);
        },
    }
}

/// An accepted expression is exactly the sequence of tokens that the
/// scanner reports, and each of them starts, at its reported byte offset,
/// with the characters it was read from.
pub proof fn lemma_accepted_offsets_point_at_tokens(s: Seq<char>)
    requires
        byte_offset(s, s.len() as int) <= usize::MAX,
        validate(s) is Ok,
    ensures
        validate(s)->Ok_0 == scanned_tokens(s, 0).map_values(|p: (usize, TokenView)| p.1),
        forall|m: int|
            0 <= m < scanned_tokens(s, 0).len() ==> points_at(
                s,
                #[trigger] scanned_tokens(s, 0)[m].0,
                scanned_tokens(s, 0)[m].1,
            ),
{
    lemma_accepted_are_scanned(s, 0, Seq::empty(), Seq::empty());
    assert(Seq::<TokenView>::empty() + scanned_tokens(s, 0).map_values(
        |p: (usize, TokenView)| p.1,
    ) =~= scanned_tokens(s, 0).map_values(|p: (usize, TokenView)| p.1));
    lemma_tokens_point_from(s, 0);
}

/// The number of opening braces in `v` less the number of closing ones.
pub open spec fn brace_depth(v: Seq<TokenView>) -> int
    decreases v.len(),
{
    if v.len() == 0 {
        0
    } else {
        brace_depth(v.drop_last()) + if v.last() is OpenBrace {
            1int
        } else if v.last() is CloseBrace {
            -1int
        } else {
            0int
        }
    }
}

/// Each token of `v` may follow the tokens before it.
pub open spec fn well_placed(v: Seq<TokenView>) -> bool {
    forall|k: int| 0 <= k < v.len() ==> may_follow(v.take(k), #[trigger] v[k])
}

/// No prefix of `v` closes more braces than it opens.
pub open spec fn never_overclosed(v: Seq<TokenView>) -> bool {
    forall|k: int| 0 <= k <= v.len() ==> brace_depth(#[trigger] v.take(k)) >= 0
}

proof fn lemma_accept_one(out: Seq<TokenView>, t: TokenView, braces: Seq<usize>, idx: usize)
    requires
        well_placed(out),
        never_overclosed(out),
        braces.len() == brace_depth(out),
        may_follow(out, t),
        t is CloseBrace ==> braces.len() > 0,
    ensures
        well_placed(out.push(t)),
        never_overclosed(out.push(t)),
        braces_after(braces, t, idx).len() == brace_depth(out.push(t)),
{
    let v = out.push(t);
    assert(v.drop_last() =~= out);
    assert forall|k: int| 0 <= k < v.len() implies may_follow(v.take(k), #[trigger] v[k]) by {
        if k < out.len() {
            assert(v.take(k) =~= out.take(k));
        } else {
            assert(v.take(k) =~= out);
        }
    }
    assert forall|k: int| 0 <= k <= v.len() implies brace_depth(#[trigger] v.take(k)) >= 0 by {
        if k <= out.len() {
            assert(v.take(k) =~= out.take(k));
        } else {
            assert(v.take(k) =~= v);
            assert(out.take(out.len() as int) =~= out);
        }
    }
}

proof fn lemma_accepted_well_formed_from(
    s: Seq<char>,
    i: int,
    out: Seq<TokenView>,
    braces: Seq<usize>,
)
    requires
        0 <= i <= s.len(),
        well_placed(out),
        never_overclosed(out),
        braces.len() == brace_depth(out),
        validate_from(s, i, out, braces) is Ok,
    ensures
        ({
            let v = validate_from(s, i, out, braces)->Ok_0;
            &&& well_placed(v)
            &&& never_overclosed(v)
            &&& brace_depth(v) == 0
            &&& v.len() > 0 ==> !awaits_operand(v.last())
        }),
    decreases s.len() - i,
{
    lemma_scan_advances(s, i);
    let (r, n) = scan_next(s, i);
    if let Ok((idx, t)) = r {
        lemma_accept_one(out, t, braces, idx);
        lemma_accepted_well_formed_from(s, n, out.push(t), braces_after(braces, t, idx));
    } else {
        assert(finish(s, out, braces) is Ok);
    }
}

/// An accepted expression is well formed: every token may follow the one
/// before it (operators and closing braces never come first, numbers and
/// opening braces only first or after an operator or an opening brace), no
/// prefix closes more braces than it opens, all braces are closed, and it
/// does not end with an operator or an opening brace.
pub proof fn lemma_accepted_is_well_formed(s: Seq<char>)
    requires
        validate(s) is Ok,
    ensures
        well_placed(validate(s)->Ok_0),
        never_overclosed(validate(s)->Ok_0),
        brace_depth(validate(s)->Ok_0) == 0,
        validate(s)->Ok_0.len() > 0 ==> !awaits_operand(validate(s)->Ok_0.last()),
{
    let e = Seq::<TokenView>::empty();
    assert forall|k: int| 0 <= k <= e.len() implies brace_depth(#[trigger] e.take(k)) >= 0 by {
        assert(e.take(k) =~= e);
    }
    lemma_accepted_well_formed_from(s, 0, e, Seq::empty());
}

} // verus!
