//! The grammar, stated over the characters of the input. Positions are
//! character offsets; a recognizer returns the value it read and the offset
//! just after it.
use crate::value::{Json, ParseError};
use vstd::prelude::*;

verus! {

/// `char::is_whitespace`: the Unicode `White_Space` property.
pub open spec fn is_space(c: char) -> bool {
    let u = c as u32;
    (0x9 <= u <= 0xd) || u == 0x20 || u == 0x85 || u == 0xa0 || u == 0x1680 || (0x2000 <= u
        <= 0x200a) || u == 0x2028 || u == 0x2029 || u == 0x202f || u == 0x205f || u == 0x3000
}

pub open spec fn is_digit(c: char) -> bool {
    '0' <= c <= '9'
}

pub open spec fn is_hex(c: char) -> bool {
    ('0' <= c <= '9') || ('a' <= c <= 'f') || ('A' <= c <= 'F')
}

/// The characters that may follow a backslash, `u` aside.
pub open spec fn is_short_escape(c: char) -> bool {
    c == '"' || c == '\\' || c == '/' || c == 'b' || c == 'f' || c == 'n' || c == 'r' || c == 't'
}

/// The first offset at or after `p` that holds no whitespace.
pub open spec fn skip_space(t: Seq<char>, p: int) -> int
    decreases t.len() - p,
{
    if 0 <= p < t.len() && is_space(t[p]) {
        skip_space(t, p + 1)
    } else {
        p
    }
}

/// `hi` with the whitespace that ends `t.take(hi)` taken off.
pub open spec fn trim_end(t: Seq<char>, hi: int) -> int
    decreases hi,
{
    if 0 < hi <= t.len() && is_space(t[hi - 1]) {
        trim_end(t, hi - 1)
    } else {
        hi
    }
}

/// The first offset at or after `p` that holds no digit.
pub open spec fn skip_digits(t: Seq<char>, p: int) -> int
    decreases t.len() - p,
{
    if 0 <= p < t.len() && is_digit(t[p]) {
        skip_digits(t, p + 1)
    } else {
        p
    }
}

/// Whether `lit` is written in `t` at `p`.
pub open spec fn written_at(t: Seq<char>, p: int, lit: Seq<char>) -> bool {
    0 <= p && p + lit.len() <= t.len() && t.subrange(p, p + lit.len()) == lit
}

pub open spec fn lit_null() -> Seq<char> {
    seq!['n', 'u', 'l', 'l']
}

pub open spec fn lit_true() -> Seq<char> {
    seq!['t', 'r', 'u', 'e']
}

pub open spec fn lit_false() -> Seq<char> {
    seq!['f', 'a', 'l', 's', 'e']
}

/// The integer part of a number that starts at `p` (after any minus sign).
pub open spec fn int_part_end(t: Seq<char>, p: int) -> Result<int, ParseError> {
    if !(0 <= p < t.len() && is_digit(t[p])) {
        Err(ParseError::InvalidNumberFormat(p as usize))
    } else if t[p] == '0' {
        if p + 1 < t.len() && is_digit(t[p + 1]) {
            Err(ParseError::InvalidNumberFormat((p + 1) as usize))
        } else {
            Ok(p + 1)
        }
    } else {
        Ok(skip_digits(t, p + 1))
    }
}

/// An optional fraction at `p`: a dot and at least one digit.
pub open spec fn frac_part_end(t: Seq<char>, p: int) -> Result<int, ParseError> {
    if 0 <= p < t.len() && t[p] == '.' {
        let e = skip_digits(t, p + 1);
        if e == p + 1 {
            Err(ParseError::InvalidNumberFormat((p + 1) as usize))
        } else {
            Ok(e)
        }
    } else {
        Ok(p)
    }
}

/// An optional exponent at `p`: `e` or `E`, an optional sign, at least one digit.
pub open spec fn exp_part_end(t: Seq<char>, p: int) -> Result<int, ParseError> {
    if 0 <= p < t.len() && (t[p] == 'e' || t[p] == 'E') {
        let d = if p + 1 < t.len() && (t[p + 1] == '+' || t[p + 1] == '-') {
            p + 2
        } else {
            p + 1
        };
        let e = skip_digits(t, d);
        if e == d {
            Err(ParseError::InvalidNumberFormat(d as usize))
        } else {
            Ok(e)
        }
    } else {
        Ok(p)
    }
}

/// The end of the number that starts at `p`.
pub open spec fn number_end(t: Seq<char>, p: int) -> Result<int, ParseError> {
    let a = if 0 <= p < t.len() && t[p] == '-' {
        p + 1
    } else {
        p
    };
    match int_part_end(t, a) {
        Err(e) => Err(e),
        Ok(b) => match frac_part_end(t, b) {
            Err(e) => Err(e),
            Ok(c) => exp_part_end(t, c),
        },
    }
}

/// Whether each of the four characters from `q` on that the text holds is a
/// hex digit; the text may end before the fourth.
pub open spec fn hex_so_far(t: Seq<char>, q: int) -> bool {
    forall|k: int| 0 <= k < 4 && q + k < t.len() ==> is_hex(#[trigger] t[q + k])
}

/// The offset of the quote that closes a string whose body starts at `p`;
/// `open` is the offset of the opening quote.
pub open spec fn string_close(t: Seq<char>, p: int, open: int) -> Result<int, ParseError>
    decreases t.len() - p,
{
    if !(0 <= p < t.len()) {
        Err(ParseError::UnterminatedString(open as usize))
    } else if t[p] == '"' {
        Ok(p)
    } else if t[p] == '\\' {
        if p + 1 >= t.len() {
            Err(ParseError::UnterminatedString(open as usize))
        } else if t[p + 1] == 'u' {
            if !hex_so_far(t, p + 2) {
                Err(ParseError::InvalidEscape(p as usize))
            } else if p + 6 > t.len() {
                Err(ParseError::UnterminatedString(open as usize))
            } else {
                string_close(t, p + 6, open)
            }
        } else if is_short_escape(t[p + 1]) {
            string_close(t, p + 2, open)
        } else {
            Err(ParseError::InvalidEscape(p as usize))
        }
    } else if (t[p] as u32) < 0x20 {
        Err(ParseError::UnexpectedCharacter(p as usize))
    } else {
        string_close(t, p + 1, open)
    }
}

/// The offset of the closing quote of a string that opens at `p`.
pub open spec fn string_end(t: Seq<char>, p: int) -> Result<int, ParseError> {
    string_close(t, p + 1, p)
}

/// Whether a recursive step moves forward and stays inside the text. It always
/// does; stating it lets the recursion below be seen to end.
pub open spec fn advances(t: Seq<char>, p: int, q: int) -> bool {
    0 <= p < q <= t.len()
}

/// The value that starts at `p`, which holds no whitespace, with `depth`
/// levels of arrays and objects still allowed.
pub open spec fn value_at(t: Seq<char>, p: int, depth: nat) -> Result<(Json, int), ParseError>
    decreases depth, t.len() - p, 1int,
{
    if !(0 <= p < t.len()) {
        Err(ParseError::UnexpectedEnd(p as usize))
    } else if written_at(t, p, lit_null()) {
        Ok((Json::Null, p + 4))
    } else if written_at(t, p, lit_true()) {
        Ok((Json::Bool(true), p + 4))
    } else if written_at(t, p, lit_false()) {
        Ok((Json::Bool(false), p + 5))
    } else if t[p] == '-' || is_digit(t[p]) {
        match number_end(t, p) {
            Err(e) => Err(e),
            Ok(e) => Ok((Json::Number(t.subrange(p, e)), e)),
        }
    } else if t[p] == '"' {
        match string_end(t, p) {
            Err(e) => Err(e),
            Ok(e) => Ok((Json::Str(t.subrange(p + 1, e)), e + 1)),
        }
    } else if t[p] == '[' {
        array_at(t, p, depth)
    } else if t[p] == '{' {
        object_at(t, p, depth)
    } else {
        Err(ParseError::UnexpectedCharacter(p as usize))
    }
}

/// The array that opens at `p`.
pub open spec fn array_at(t: Seq<char>, p: int, depth: nat) -> Result<(Json, int), ParseError>
    decreases depth, t.len() - p, 0int,
{
    if depth == 0 {
        Err(ParseError::DepthExceeded)
    } else {
        let q = skip_space(t, p + 1);
        if q < t.len() && t[q] == ']' {
            Ok((Json::Array(Seq::empty()), q + 1))
        } else if advances(t, p, q) {
            match elements(t, q, (depth - 1) as nat) {
                Err(e) => Err(e),
                Ok((items, e)) => Ok((Json::Array(items), e)),
            }
        } else {
            Err(ParseError::UnexpectedEnd(q as usize))
        }
    }
}

/// Puts `items` in front of the items of `r`.
pub open spec fn prepend<A>(items: Seq<A>, r: Result<(Seq<A>, int), ParseError>) -> Result<
    (Seq<A>, int),
    ParseError,
> {
    match r {
        Err(e) => Err(e),
        Ok((rest, e)) => Ok((items + rest, e)),
    }
}

/// The elements of an array from the element at `p` to the closing bracket,
/// each read with `depth` levels allowed.
pub open spec fn elements(t: Seq<char>, p: int, depth: nat) -> Result<(Seq<Json>, int), ParseError>
    decreases depth + 1, t.len() - p, 0int,
{
    if !(0 <= p < t.len()) {
        Err(ParseError::UnexpectedEnd(p as usize))
    } else {
        match value_at(t, p, depth) {
            Err(e) => Err(e),
            Ok((v, q)) => {
                let r = skip_space(t, q);
                if !(0 <= r < t.len()) {
                    Err(ParseError::UnexpectedEnd(r as usize))
                } else if t[r] == ']' {
                    Ok((seq![v], r + 1))
                } else if t[r] == ',' {
                    let s = skip_space(t, r + 1);
                    if s < t.len() && t[s] == ']' {
                        Err(ParseError::TrailingSeparator(r as usize))
                    } else if advances(t, p, s) {
                        prepend(seq![v], elements(t, s, depth))
                    } else {
                        Err(ParseError::UnexpectedEnd(s as usize))
                    }
                } else {
                    Err(ParseError::UnexpectedCharacter(r as usize))
                }
            },
        }
    }
}

/// The index of key `k` among the members `m`, or -1.
pub open spec fn key_index(m: Seq<(Seq<char>, Json)>, k: Seq<char>) -> int
    decreases m.len(),
{
    if m.len() == 0 {
        -1
    } else if m.last().0 == k {
        m.len() - 1
    } else {
        key_index(m.drop_last(), k)
    }
}

/// Sets key `k` to `v`: in place where the key is present, at the end where not.
pub open spec fn put(m: Seq<(Seq<char>, Json)>, k: Seq<char>, v: Json) -> Seq<(Seq<char>, Json)> {
    let i = key_index(m, k);
    if i >= 0 {
        m.update(i, (k, v))
    } else {
        m.push((k, v))
    }
}

/// The members written in `pairs`, one per key, each with the value written last.
pub open spec fn collapse(pairs: Seq<(Seq<char>, Json)>) -> Seq<(Seq<char>, Json)>
    decreases pairs.len(),
{
    if pairs.len() == 0 {
        Seq::empty()
    } else {
        put(collapse(pairs.drop_last()), pairs.last().0, pairs.last().1)
    }
}

/// The object that opens at `p`.
pub open spec fn object_at(t: Seq<char>, p: int, depth: nat) -> Result<(Json, int), ParseError>
    decreases depth, t.len() - p, 0int,
{
    if depth == 0 {
        Err(ParseError::DepthExceeded)
    } else {
        let q = skip_space(t, p + 1);
        if q < t.len() && t[q] == '}' {
            Ok((Json::Object(Seq::empty()), q + 1))
        } else if advances(t, p, q) {
            match members(t, q, (depth - 1) as nat) {
                Err(e) => Err(e),
                Ok((pairs, e)) => Ok((Json::Object(collapse(pairs)), e)),
            }
        } else {
            Err(ParseError::UnexpectedEnd(q as usize))
        }
    }
}

/// The members of an object, as written, from the key at `p` to the closing
/// brace, each value read with `depth` levels allowed.
pub open spec fn members(t: Seq<char>, p: int, depth: nat) -> Result<
    (Seq<(Seq<char>, Json)>, int),
    ParseError,
>
    decreases depth + 1, t.len() - p, 0int,
{
    if !(0 <= p < t.len()) {
        Err(ParseError::UnexpectedEnd(p as usize))
    } else if t[p] != '"' {
        Err(ParseError::UnexpectedCharacter(p as usize))
    } else {
        match string_end(t, p) {
            Err(e) => Err(e),
            Ok(k) => {
                let c = skip_space(t, k + 1);
                if !(0 <= c < t.len()) {
                    Err(ParseError::UnexpectedEnd(c as usize))
                } else if t[c] != ':' {
                    Err(ParseError::UnexpectedCharacter(c as usize))
                } else {
                    let a = skip_space(t, c + 1);
                    match value_at(t, a, depth) {
                        Err(e) => Err(e),
                        Ok((v, q)) => {
                            let key = t.subrange(p + 1, k);
                            let r = skip_space(t, q);
                            if !(0 <= r < t.len()) {
                                Err(ParseError::UnexpectedEnd(r as usize))
                            } else if t[r] == '}' {
                                Ok((seq![(key, v)], r + 1))
                            } else if t[r] == ',' {
                                let s = skip_space(t, r + 1);
                                if s < t.len() && t[s] == '}' {
                                    Err(ParseError::TrailingSeparator(r as usize))
                                } else if advances(t, p, s) {
                                    prepend(seq![(key, v)], members(t, s, depth))
                                } else {
                                    Err(ParseError::UnexpectedEnd(s as usize))
                                }
                            } else {
                                Err(ParseError::UnexpectedCharacter(r as usize))
                            }
                        },
                    }
                }
            },
        }
    }
}

/// What `parse` gives for the characters `s`, with `max_depth` levels of
/// arrays and objects allowed. Whitespace around the text is ignored: blank
/// text holds no value and leaves nothing. Otherwise the first value is read,
/// and the text after it, up to the trailing whitespace, is what remains.
pub open spec fn parse_chars(s: Seq<char>, max_depth: nat) -> Result<
    (Option<Json>, Option<Seq<char>>),
    ParseError,
> {
    let lo = skip_space(s, 0);
    let hi = trim_end(s, s.len() as int);
    if lo >= s.len() {
        Ok((None, None))
    } else {
        match value_at(s.take(hi), lo, max_depth) {
            Err(e) => Err(e),
            Ok((v, e)) => Ok(
                (
                    Some(v),
                    if e >= hi {
                        None
                    } else {
                        Some(s.subrange(e, hi))
                    },
                ),
            ),
        }
    }
}

/// The text of `s` from `e` on, or `None` where nothing is left.
pub open spec fn rest_of(s: Seq<char>, e: int) -> Option<Seq<char>> {
    if e >= s.len() {
        None
    } else {
        Some(s.subrange(e, s.len() as int))
    }
}

/// A number at the start of `s`: its text, then what is left.
pub open spec fn number_token(s: Seq<char>) -> Result<(Seq<char>, Option<Seq<char>>), ParseError> {
    if s.len() > 0 && (s[0] == '-' || is_digit(s[0])) {
        match number_end(s, 0) {
            Err(e) => Err(e),
            Ok(e) => Ok((s.subrange(0, e), rest_of(s, e))),
        }
    } else if s.len() == 0 {
        Err(ParseError::UnexpectedEnd(0))
    } else {
        Err(ParseError::UnexpectedCharacter(0))
    }
}

/// A string at the start of `s`: the raw text between its quotes, then what
/// is left after the closing quote.
pub open spec fn string_token(s: Seq<char>) -> Result<(Seq<char>, Option<Seq<char>>), ParseError> {
    if s.len() > 0 && s[0] == '"' {
        match string_end(s, 0) {
            Err(e) => Err(e),
            Ok(e) => Ok((s.subrange(1, e), rest_of(s, e + 1))),
        }
    } else if s.len() == 0 {
        Err(ParseError::UnexpectedEnd(0))
    } else {
        Err(ParseError::UnexpectedCharacter(0))
    }
}

} // verus!
