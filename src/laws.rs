//! Properties of `parse` as a whole, proved from the grammar.
use crate::grammar::{
    array_at, elements, exp_part_end, frac_part_end, int_part_end, is_digit, is_hex, is_space, lit_false,
    lit_null, lit_true, number_end, number_token, parse_chars, skip_digits, skip_space,
    hex_so_far, string_close, string_end, string_token, trim_end, value_at, written_at,
};
use crate::value::{Json, ParseError};
use vstd::prelude::*;

verus! {

/// `n` opening brackets followed by `n` closing ones.
pub open spec fn nested_text(n: nat) -> Seq<char> {
    Seq::new(2 * n, |i: int| if i < n { '[' } else { ']' })
}

/// The value of `nested_text(n)`: an array that holds an array, `n` deep.
pub open spec fn nested_value(n: nat) -> Json
    decreases n,
{
    if n <= 1 {
        Json::Array(Seq::empty())
    } else {
        Json::Array(seq![nested_value((n - 1) as nat)])
    }
}

/// A bracket starts no literal.
proof fn lemma_bracket_no_literal(t: Seq<char>, p: int)
    requires
        0 <= p < t.len(),
        t[p] == '[' || t[p] == ']',
    ensures
        !written_at(t, p, lit_null()),
        !written_at(t, p, lit_true()),
        !written_at(t, p, lit_false()),
{
    if written_at(t, p, lit_null()) {
        assert(t.subrange(p, p + 4)[0] == t[p]);
    }
    if written_at(t, p, lit_true()) {
        assert(t.subrange(p, p + 4)[0] == t[p]);
    }
    if written_at(t, p, lit_false()) {
        assert(t.subrange(p, p + 5)[0] == t[p]);
    }
}

/// The array that opens at the `k`-th bracket of `nested_text(n)`.
proof fn lemma_nested_from(n: nat, k: nat, depth: nat)
    requires
        k < n,
    ensures
        n - k <= depth ==> value_at(nested_text(n), k as int, depth) == Ok::<(Json, int), ParseError>(
            (nested_value((n - k) as nat), 2 * n - k),
        ),
        n - k > depth ==> value_at(nested_text(n), k as int, depth) == Err::<(Json, int), ParseError>(
            ParseError::DepthExceeded,
        ),
    decreases n - k,
{
    let t = nested_text(n);
    let k1 = k + 1int;
    lemma_bracket_no_literal(t, k as int);
    assert(value_at(t, k as int, depth) == array_at(t, k as int, depth));
    if depth > 0 {
        assert(!is_space(t[k1]));
        assert(skip_space(t, k1) == k1);
        if k + 1 < n {
            lemma_nested_from(n, k + 1, (depth - 1) as nat);
            let r = 2 * n - k1;
            assert(!is_space(t[r]));
            assert(skip_space(t, r) == r);
            assert(elements(t, k1, (depth - 1) as nat) == match value_at(
                t,
                k1,
                (depth - 1) as nat,
            ) {
                Err(e) => Err(e),
                Ok((v, q)) => Ok((seq![v], q + 1)),
            });
        }
    }
}

/// An array nested `n` deep parses whole, with nothing left, when `n` is
/// within the depth limit; beyond the limit the parse fails with
/// `DepthExceeded`.
pub proof fn lemma_nesting_depth(n: nat, max_depth: nat)
    requires
        n >= 1,
    ensures
        n <= max_depth ==> parse_chars(nested_text(n), max_depth) == Ok::<
            (Option<Json>, Option<Seq<char>>),
            ParseError,
        >((Some(nested_value(n)), None)),
        n > max_depth ==> parse_chars(nested_text(n), max_depth) == Err::<
            (Option<Json>, Option<Seq<char>>),
            ParseError,
        >(ParseError::DepthExceeded),
{
    let t = nested_text(n);
    assert(!is_space(t[0]));
    assert(skip_space(t, 0) == 0);
    let len = 2 * n as int;
    assert(!is_space(t[len - 1]));
    assert(trim_end(t, len) == len);
    assert(t.take(len) =~= t);
    lemma_nested_from(n, 0, max_depth);
}

/// Whether `s` is whitespace throughout.
pub open spec fn all_space(s: Seq<char>) -> bool {
    forall|i: int| 0 <= i < s.len() ==> is_space(#[trigger] s[i])
}

/// The value of a scalar token that stands alone, with nothing before or
/// after it: `null`, `true`, `false`, a number or a string. `None` where `tok`
/// is no such token.
pub open spec fn scalar_token_value(tok: Seq<char>) -> Option<Json> {
    if tok == lit_null() {
        Some(Json::Null)
    } else if tok == lit_true() {
        Some(Json::Bool(true))
    } else if tok == lit_false() {
        Some(Json::Bool(false))
    } else if number_token(tok) == Ok::<(Seq<char>, Option<Seq<char>>), ParseError>((tok, None)) {
        Some(Json::Number(tok))
    } else {
        match string_token(tok) {
            Ok((body, None)) => Some(Json::Str(body)),
            _ => None,
        }
    }
}

/// `u` holds `b` from offset `w` to its end.
pub open spec fn holds_at(u: Seq<char>, b: Seq<char>, w: int) -> bool {
    &&& 0 <= w
    &&& u.len() == w + b.len()
    &&& forall|i: int| 0 <= i < b.len() ==> u[w + i] == #[trigger] b[i]
}

proof fn lemma_skip_digits_bounds(t: Seq<char>, p: int)
    requires
        0 <= p <= t.len(),
    ensures
        p <= skip_digits(t, p) <= t.len(),
        skip_digits(t, p) > p ==> is_digit(t[skip_digits(t, p) - 1]),
    decreases t.len() - p,
{
    if p < t.len() && is_digit(t[p]) {
        lemma_skip_digits_bounds(t, p + 1);
    }
}

proof fn lemma_skip_digits_shift(u: Seq<char>, b: Seq<char>, w: int, p: int)
    requires
        holds_at(u, b, w),
        0 <= p <= b.len(),
    ensures
        skip_digits(u, w + p) == w + skip_digits(b, p),
    decreases b.len() - p,
{
    if p < b.len() {
        assert(u[w + p] == b[p]);
        if is_digit(b[p]) {
            lemma_skip_digits_shift(u, b, w, p + 1);
        }
    }
}

/// A number read from `b` at 0 reads the same from `u` at `w`, and ends on a digit.
proof fn lemma_number_shift(u: Seq<char>, b: Seq<char>, w: int)
    requires
        holds_at(u, b, w),
        b.len() > 0,
        number_end(b, 0) is Ok,
    ensures
        number_end(u, w) == Ok::<int, ParseError>(w + number_end(b, 0)->Ok_0),
        0 < number_end(b, 0)->Ok_0 <= b.len(),
        is_digit(b[number_end(b, 0)->Ok_0 - 1]),
{
    assert forall|p: int| 0 <= p <= b.len() implies skip_digits(u, w + p) == w + #[trigger] skip_digits(
        b,
        p,
    ) && p <= skip_digits(b, p) <= b.len() && (skip_digits(b, p) > p ==> is_digit(
        b[skip_digits(b, p) - 1],
    )) by {
        lemma_skip_digits_shift(u, b, w, p);
        lemma_skip_digits_bounds(b, p);
    }
    assert forall|i: int| 0 <= i < b.len() implies u[w + i] == b[i] by {}
    let a: int = if b[0] == '-' { 1 } else { 0 };
    let x = int_part_end(b, a)->Ok_0;
    assert(int_part_end(u, w + a) == Ok::<int, ParseError>(w + x));
    let y = frac_part_end(b, x)->Ok_0;
    assert(frac_part_end(u, w + x) == Ok::<int, ParseError>(w + y));
    assert(is_digit(b[y - 1]));
    let z = exp_part_end(b, y)->Ok_0;
    if y < b.len() && (b[y] == 'e' || b[y] == 'E') {
        assert(u[w + y] == b[y]);
        if y + 1 < b.len() {
            assert(u[w + y + 1] == b[y + 1]);
        }
    }
    assert(exp_part_end(u, w + y) == Ok::<int, ParseError>(w + z));
}

/// A string read from `b` reads the same from `u`, and closes on a quote.
proof fn lemma_string_shift(u: Seq<char>, b: Seq<char>, w: int, p: int, open: int)
    requires
        holds_at(u, b, w),
        0 <= p,
        string_close(b, p, open) is Ok,
    ensures
        string_close(u, w + p, w + open) == Ok::<int, ParseError>(w + string_close(b, p, open)->Ok_0),
        p <= string_close(b, p, open)->Ok_0 < b.len(),
        b[string_close(b, p, open)->Ok_0] == '"',
    decreases b.len() - p,
{
    assert(u[w + p] == b[p]);
    if b[p] == '\\' {
        assert(u[w + p + 1] == b[p + 1]);
        if b[p + 1] == 'u' {
            assert(u[w + p + 2] == b[p + 2]);
            assert(u[w + p + 3] == b[p + 3]);
            assert(u[w + p + 4] == b[p + 4]);
            assert(u[w + p + 5] == b[p + 5]);
            assert(hex_so_far(u, w + p + 2)) by {
                assert forall|k: int| 0 <= k < 4 && (w + p + 2) + k < u.len() implies is_hex(
                    #[trigger] u[(w + p + 2) + k],
                ) by {
                    assert(b[(p + 2) + k] == u[w + (p + 2 + k)]);
                }
            }
            lemma_string_shift(u, b, w, p + 6, open);
        } else {
            lemma_string_shift(u, b, w, p + 2, open);
        }
    } else if b[p] != '"' {
        lemma_string_shift(u, b, w, p + 1, open);
    }
}

proof fn lemma_skip_leading_space(s: Seq<char>, w: int, p: int)
    requires
        0 <= p <= w < s.len(),
        forall|i: int| 0 <= i < w ==> is_space(#[trigger] s[i]),
        !is_space(s[w]),
    ensures
        skip_space(s, p) == w,
    decreases w - p,
{
    if p < w {
        lemma_skip_leading_space(s, w, p + 1);
    }
}

proof fn lemma_trim_trailing_space(s: Seq<char>, e: int, h: int)
    requires
        0 < e <= h <= s.len(),
        forall|i: int| e <= i < s.len() ==> is_space(#[trigger] s[i]),
        !is_space(s[e - 1]),
    ensures
        trim_end(s, h) == e,
    decreases h,
{
    if h > e {
        lemma_trim_trailing_space(s, e, h - 1);
    }
}

/// A scalar token with whitespace on either side parses to the token's value,
/// and nothing remains: the whitespace that follows the token is trimmed away
/// with the rest of the surrounding whitespace.
/// The first character of `u` at `w` rules out the literals it does not start.
proof fn lemma_no_other_literal(u: Seq<char>, w: int, lit: Seq<char>)
    requires
        0 <= w < u.len(),
        lit.len() >= 1,
        u[w] != lit[0],
    ensures
        !written_at(u, w, lit),
{
    if written_at(u, w, lit) {
        assert(u.subrange(w, w + lit.len())[0] == u[w]);
    }
}

/// The token `tok`, held by `u` at `w`, reads there as its value and ends
/// where the token ends.
proof fn lemma_token_value(u: Seq<char>, tok: Seq<char>, w: int, depth: nat)
    requires
        holds_at(u, tok, w),
        scalar_token_value(tok) is Some,
    ensures
        tok.len() > 0,
        !is_space(tok[0]),
        !is_space(tok[tok.len() - 1]),
        value_at(u, w, depth) == Ok::<(Json, int), ParseError>(
            (scalar_token_value(tok)->Some_0, w + tok.len()),
        ),
{
    let n = tok.len() as int;
    if tok == lit_null() || tok == lit_true() || tok == lit_false() {
        assert(u[w] == tok[0]);
        assert(u.subrange(w, w + n) =~= tok);
        if tok != lit_null() {
            lemma_no_other_literal(u, w, lit_null());
        }
        if tok == lit_false() {
            lemma_no_other_literal(u, w, lit_true());
        }
    } else if number_token(tok) == Ok::<(Seq<char>, Option<Seq<char>>), ParseError>((tok, None)) {
        lemma_number_shift(u, tok, w);
        assert(tok.subrange(0, number_end(tok, 0)->Ok_0).len() == n);
        assert(u.subrange(w, w + n) =~= tok);
        assert(u[w] == tok[0]);
        lemma_no_other_literal(u, w, lit_null());
        lemma_no_other_literal(u, w, lit_true());
        lemma_no_other_literal(u, w, lit_false());
    } else {
        lemma_string_shift(u, tok, w, 1, 0);
        assert(u.subrange(w + 1, w + string_end(tok, 0)->Ok_0) =~= tok.subrange(
            1,
            string_end(tok, 0)->Ok_0,
        ));
        assert(u[w] == tok[0]);
        lemma_no_other_literal(u, w, lit_null());
        lemma_no_other_literal(u, w, lit_true());
        lemma_no_other_literal(u, w, lit_false());
    }
}

/// A scalar token with whitespace on either side parses to the token's value,
/// and nothing remains: the whitespace that follows the token is trimmed away
/// with the rest of the surrounding whitespace.
pub proof fn lemma_scalar_in_space(w1: Seq<char>, tok: Seq<char>, w2: Seq<char>, max_depth: nat)
    requires
        all_space(w1),
        all_space(w2),
        scalar_token_value(tok) is Some,
    ensures
        parse_chars(w1 + tok + w2, max_depth) == Ok::<(Option<Json>, Option<Seq<char>>), ParseError>(
            (scalar_token_value(tok), None),
        ),
{
    let s = w1 + tok + w2;
    let w = w1.len() as int;
    let n = tok.len() as int;
    let u = w1 + tok;
    assert(holds_at(u, tok, w));
    lemma_token_value(u, tok, w, max_depth);
    assert(s[w] == tok[0]);
    assert(s[w + n - 1] == tok[n - 1]);
    assert forall|i: int| 0 <= i < w implies is_space(#[trigger] s[i]) by {
        assert(s[i] == w1[i]);
    }
    assert forall|i: int| w + n <= i < s.len() implies is_space(#[trigger] s[i]) by {
        assert(s[i] == w2[i - w - n]);
    }
    lemma_skip_leading_space(s, w, 0);
    lemma_trim_trailing_space(s, w + n, s.len() as int);
    assert(s.take(w + n) =~= u);
}

} // verus!
