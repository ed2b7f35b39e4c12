use crate::grammar::{
    array_at, collapse, elements, frac_part_end, int_part_end, is_digit, is_hex,
    is_short_escape, is_space, key_index, lit_false, lit_null, lit_true, members, number_end,
    number_token, object_at, parse_chars, prepend, put, rest_of, skip_digits, skip_space,
    hex_so_far, string_close, string_end, string_token, trim_end, value_at, written_at,
};
use crate::value::{Json, ParseError, Value};
use vstd::prelude::*;
use vstd::string::StrSliceExecFns;

verus! {

/// How deep arrays and objects may nest when no limit is given.
pub const DEFAULT_MAX_DEPTH: usize = 1000;

/// A position-carrying result, with the position as a mathematical integer.
pub open spec fn pos_view(r: Result<usize, ParseError>) -> Result<int, ParseError> {
    match r {
        Ok(p) => Ok(p as int),
        Err(e) => Err(e),
    }
}

/// `char::is_whitespace`.
fn space(c: char) -> (b: bool)
    ensures
        b == is_space(c),
{
    let u = c as u32;
    (0x9 <= u && u <= 0xd) || u == 0x20 || u == 0x85 || u == 0xa0 || u == 0x1680 || (0x2000 <= u
        && u <= 0x200a) || u == 0x2028 || u == 0x2029 || u == 0x202f || u == 0x205f || u == 0x3000
}

/// An ASCII digit.
fn digit(c: char) -> (b: bool)
    ensures
        b == is_digit(c),
{
    '0' <= c && c <= '9'
}

/// An ASCII hex digit.
fn hex(c: char) -> (b: bool)
    ensures
        b == is_hex(c),
{
    ('0' <= c && c <= '9') || ('a' <= c && c <= 'f') || ('A' <= c && c <= 'F')
}

/// A character that may follow a backslash, `u` aside.
fn short_escape(c: char) -> (b: bool)
    ensures
        b == is_short_escape(c),
{
    c == '"' || c == '\\' || c == '/' || c == 'b' || c == 'f' || c == 'n' || c == 'r' || c == 't'
}

/// The first offset at or after `p` that holds no whitespace.
fn skip_spaces(t: &Vec<char>, p: usize) -> (q: usize)
    requires
        p <= t.len(),
    ensures
        q == skip_space(t@, p as int),
        p <= q <= t.len(),
        q < t.len() ==> !is_space(t@[q as int]),
{
    let mut i = p;
    while i < t.len() && space(t[i])
        invariant
            p <= i <= t.len(),
            skip_space(t@, p as int) == skip_space(t@, i as int),
        decreases t.len() - i,
    {
        i = i + 1;
    }
    i
}

/// The first offset at or after `p` that holds no digit.
fn skip_digit_run(t: &Vec<char>, p: usize) -> (q: usize)
    requires
        p <= t.len(),
    ensures
        q == skip_digits(t@, p as int),
        p <= q <= t.len(),
{
    let mut i = p;
    while i < t.len() && digit(t[i])
        invariant
            p <= i <= t.len(),
            skip_digits(t@, p as int) == skip_digits(t@, i as int),
        decreases t.len() - i,
    {
        i = i + 1;
    }
    i
}

/// Whether `lit` is written in `t` at `p`.
fn literal_at(t: &Vec<char>, p: usize, lit: &[char]) -> (b: bool)
    requires
        p <= t.len(),
    ensures
        b == written_at(t@, p as int, lit@),
{
    if lit.len() > t.len() - p {
        return false;
    }
    let mut i: usize = 0;
    while i < lit.len()
        invariant
            i <= lit.len(),
            p + lit.len() <= t.len(),
            forall|j: int| 0 <= j < i ==> t@[p + j] == lit@[j],
        decreases lit.len() - i,
    {
        if t[p + i] != lit[i] {
            assert(t@.subrange(p as int, p + lit@.len())[i as int] != lit@[i as int]);
            return false;
        }
        i = i + 1;
    }
    assert(t@.subrange(p as int, p + lit@.len()) =~= lit@);
    true
}

/// The end of the number that starts at `p`.
fn scan_number(t: &Vec<char>, p: usize) -> (r: Result<usize, ParseError>)
    requires
        p <= t.len(),
    ensures
        pos_view(r) == number_end(t@, p as int),
        r is Ok ==> p < r->Ok_0 <= t.len(),
{
    let a = if p < t.len() && t[p] == '-' {
        p + 1
    } else {
        p
    };
    if !(a < t.len() && digit(t[a])) {
        return Err(ParseError::InvalidNumberFormat(a));
    }
    let b = if t[a] == '0' {
        if a + 1 < t.len() && digit(t[a + 1]) {
            return Err(ParseError::InvalidNumberFormat(a + 1));
        }
        a + 1
    } else {
        skip_digit_run(t, a + 1)
    };
    assert(int_part_end(t@, a as int) == Ok::<int, ParseError>(b as int));
    let c = if b < t.len() && t[b] == '.' {
        let e = skip_digit_run(t, b + 1);
        if e == b + 1 {
            return Err(ParseError::InvalidNumberFormat(b + 1));
        }
        e
    } else {
        b
    };
    assert(frac_part_end(t@, b as int) == Ok::<int, ParseError>(c as int));
    if c < t.len() && (t[c] == 'e' || t[c] == 'E') {
        let d = if c + 1 < t.len() && (t[c + 1] == '+' || t[c + 1] == '-') {
            c + 2
        } else {
            c + 1
        };
        let e = skip_digit_run(t, d);
        if e == d {
            return Err(ParseError::InvalidNumberFormat(d));
        }
        Ok(e)
    } else {
        Ok(c)
    }
}

/// The offset of the closing quote of the string that opens at `p`.
fn scan_string(t: &Vec<char>, p: usize) -> (r: Result<usize, ParseError>)
    requires
        p < t.len(),
    ensures
        pos_view(r) == string_end(t@, p as int),
        r is Ok ==> p < r->Ok_0 < t.len(),
{
    let mut i = p + 1;
    while i < t.len()
        invariant
            p < i <= t.len(),
            string_close(t@, p + 1, p as int) == string_close(t@, i as int, p as int),
        decreases t.len() - i,
    {
        let c = t[i];
        if c == '"' {
            return Ok(i);
        } else if c == '\\' {
            if i + 1 >= t.len() {
                return Err(ParseError::UnterminatedString(p));
            } else if t[i + 1] == 'u' {
                let mut k: usize = 0;
                while k < 4 && k < t.len() - (i + 2)
                    invariant
                        p < i,
                        i + 2 <= t.len(),
                        t@[i as int] == '\\',
                        t@[i + 1] == 'u',
                        string_close(t@, p + 1, p as int) == string_close(t@, i as int, p as int),
                        k <= 4,
                        forall|m: int| 0 <= m < k ==> is_hex(#[trigger] t@[i + 2 + m]),
                    decreases 4 - k,
                {
                    if !hex(t[i + 2 + k]) {
                        assert(!hex_so_far(t@, i + 2)) by {
                            assert(t@[(i + 2) + k] == t@[i + 2 + k]);
                        }
                        return Err(ParseError::InvalidEscape(i));
                    }
                    k = k + 1;
                }
                assert(hex_so_far(t@, i + 2)) by {
                    assert forall|m: int| 0 <= m < 4 && (i + 2) + m < t@.len() implies is_hex(
                        #[trigger] t@[(i + 2) + m],
                    ) by {
                        assert(t@[i + 2 + m] == t@[(i + 2) + m]);
                    }
                }
                if t.len() - i < 6 {
                    return Err(ParseError::UnterminatedString(p));
                }
                i = i + 6;
            } else if short_escape(t[i + 1]) {
                i = i + 2;
            } else {
                return Err(ParseError::InvalidEscape(i));
            }
        } else if (c as u32) < 0x20 {
            return Err(ParseError::UnexpectedCharacter(i));
        } else {
            i = i + 1;
        }
    }
    Err(ParseError::UnterminatedString(p))
}

/// The models of a run of values.
pub open spec fn views<'a>(items: Seq<Value<'a>>) -> Seq<Json> {
    Seq::new(items.len(), |i: int| items[i]@)
}

/// The models of a run of members, given as keys and values side by side.
pub open spec fn member_views<'a>(names: Seq<&'a str>, vals: Seq<Value<'a>>) -> Seq<
    (Seq<char>, Json),
> {
    Seq::new(names.len(), |i: int| (names[i]@, vals[i]@))
}

/// A value-carrying result, seen through the models.
pub open spec fn value_view<'a>(r: Result<(Value<'a>, usize), ParseError>) -> Result<
    (Json, int),
    ParseError,
> {
    match r {
        Ok((v, p)) => Ok((v@, p as int)),
        Err(e) => Err(e),
    }
}

/// `t` holds the first characters of `src`.
pub open spec fn leads(src: &str, t: Seq<char>) -> bool {
    t.len() <= src@.len() && t == src@.take(t.len() as int)
}

proof fn lemma_array_view<'a>(items: Vec<Value<'a>>)
    ensures
        Value::Array(items)@ == Json::Array(views(items@)),
{
    let s = Value::Array(items)@->Array_0;
    assert(s =~= views(items@));
}

/// The text of `src` between character offsets `a` and `b`, borrowed.
fn span<'a>(src: &'a str, t: &Vec<char>, a: usize, b: usize) -> (s: &'a str)
    requires
        leads(src, t@),
        a <= b <= t.len(),
    ensures
        s@ == t@.subrange(a as int, b as int),
{
    let s = src.substring_char(a, b);
    assert(s@ =~= t@.subrange(a as int, b as int));
    s
}

/// Reads the value at `p`, which holds no whitespace.
fn parse_value<'a>(src: &'a str, t: &Vec<char>, p: usize, depth: usize) -> (r: Result<
    (Value<'a>, usize),
    ParseError,
>)
    requires
        leads(src, t@),
        p <= t.len(),
    ensures
        value_view(r) == value_at(t@, p as int, depth as nat),
        r is Ok ==> p < r->Ok_0.1 <= t.len(),
    decreases depth, t.len() - p, 1int,
{
    if p >= t.len() {
        return Err(ParseError::UnexpectedEnd(p));
    }
    if literal_at(t, p, &['n', 'u', 'l', 'l']) {
        return Ok((Value::Null, p + 4));
    }
    if literal_at(t, p, &['t', 'r', 'u', 'e']) {
        return Ok((Value::Bool(true), p + 4));
    }
    if literal_at(t, p, &['f', 'a', 'l', 's', 'e']) {
        return Ok((Value::Bool(false), p + 5));
    }
    let c = t[p];
    if c == '-' || digit(c) {
        match scan_number(t, p) {
            Err(e) => Err(e),
            Ok(e) => Ok((Value::Number(span(src, t, p, e)), e)),
        }
    } else if c == '"' {
        match scan_string(t, p) {
            Err(e) => Err(e),
            Ok(e) => Ok((Value::String(span(src, t, p + 1, e)), e + 1)),
        }
    } else if c == '[' {
        parse_array(src, t, p, depth)
    } else if c == '{' {
        parse_object(src, t, p, depth)
    } else {
        Err(ParseError::UnexpectedCharacter(p))
    }
}

/// Reads the array that opens at `p`.
fn parse_array<'a>(src: &'a str, t: &Vec<char>, p: usize, depth: usize) -> (r: Result<
    (Value<'a>, usize),
    ParseError,
>)
    requires
        leads(src, t@),
        p < t.len(),
        t@[p as int] == '[',
    ensures
        value_view(r) == array_at(t@, p as int, depth as nat),
        r is Ok ==> p < r->Ok_0.1 <= t.len(),
    decreases depth, t.len() - p, 0int,
{
    if depth == 0 {
        return Err(ParseError::DepthExceeded);
    }
    let inner = depth - 1;
    let q = skip_spaces(t, p + 1);
    if q < t.len() && t[q] == ']' {
        let items: Vec<Value<'a>> = Vec::new();
        proof {
            lemma_array_view(items);
        }
        assert(views(items@) =~= Seq::empty());
        return Ok((Value::Array(items), q + 1));
    }
    let mut items: Vec<Value<'a>> = Vec::new();
    let mut cur = q;
    loop
        invariant
            leads(src, t@),
            p < q <= cur <= t.len(),
            0 < depth,
            inner == depth - 1,
            q == skip_space(t@, p + 1),
            !(q < t.len() && t@[q as int] == ']'),
            elements(t@, q as int, inner as nat) == prepend(
                views(items@),
                elements(t@, cur as int, inner as nat),
            ),
        decreases t.len() - cur,
    {
        if cur >= t.len() {
            return Err(ParseError::UnexpectedEnd(cur));
        }
        let ghost before = items@;
        match parse_value(src, t, cur, inner) {
            Err(e) => {
                return Err(e);
            },
            Ok((v, e)) => {
                let r = skip_spaces(t, e);
                if r >= t.len() {
                    return Err(ParseError::UnexpectedEnd(r));
                }
                if t[r] == ']' {
                    let ghost vm = v@;
                    items.push(v);
                    assert(views(items@) =~= views(before) + seq![vm]);
                    proof {
                        lemma_array_view(items);
                    }
                    return Ok((Value::Array(items), r + 1));
                } else if t[r] == ',' {
                    let s = skip_spaces(t, r + 1);
                    if s < t.len() && t[s] == ']' {
                        return Err(ParseError::TrailingSeparator(r));
                    }
                    let ghost vm = v@;
                    items.push(v);
                    assert(views(items@) =~= views(before) + seq![vm]);
                    assert(prepend(views(before), prepend(seq![vm], elements(t@, s as int, inner as nat)))
                        == prepend(views(items@), elements(t@, s as int, inner as nat))) by {
                        match elements(t@, s as int, inner as nat) {
                            Ok((rest, _)) => {
                                assert(views(before) + (seq![vm] + rest) =~= views(items@) + rest);
                            },
                            Err(_) => {},
                        }
                    }
                    cur = s;
                } else {
                    return Err(ParseError::UnexpectedCharacter(r));
                }
            },
        }
    }
}

/// Whether the text at `[a0, a1)` equals the text at `[b0, b1)`.
fn same_text(t: &Vec<char>, a0: usize, a1: usize, b0: usize, b1: usize) -> (r: bool)
    requires
        a0 <= a1 <= t.len(),
        b0 <= b1 <= t.len(),
    ensures
        r == (t@.subrange(a0 as int, a1 as int) == t@.subrange(b0 as int, b1 as int)),
{
    if a1 - a0 != b1 - b0 {
        assert(t@.subrange(a0 as int, a1 as int).len() != t@.subrange(b0 as int, b1 as int).len());
        return false;
    }
    let n = a1 - a0;
    let mut i: usize = 0;
    while i < n
        invariant
            i <= n,
            n == a1 - a0,
            n == b1 - b0,
            a1 <= t.len(),
            b1 <= t.len(),
            forall|j: int| 0 <= j < i ==> #[trigger] t@[a0 + j] == t@[b0 + j],
        decreases n - i,
    {
        if t[a0 + i] != t[b0 + i] {
            assert(t@.subrange(a0 as int, a1 as int)[i as int] != t@.subrange(
                b0 as int,
                b1 as int,
            )[i as int]);
            return false;
        }
        i = i + 1;
    }
    assert forall|j: int| 0 <= j < n implies t@.subrange(a0 as int, a1 as int)[j] == t@.subrange(
        b0 as int,
        b1 as int,
    )[j] by {
        assert(t@[a0 + j] == t@[b0 + j]);
    }
    assert(t@.subrange(a0 as int, a1 as int) =~= t@.subrange(b0 as int, b1 as int));
    true
}

/// Each recorded key span holds the text of the matching key.
pub open spec fn spans_hold<'a>(t: Seq<char>, keys: Seq<(usize, usize)>, names: Seq<&'a str>) -> bool {
    &&& keys.len() == names.len()
    &&& forall|i: int| 0 <= i < keys.len() ==> #[trigger] span_of(t, keys[i], names[i]@)
}

/// The offsets `k` enclose the text `name` in `t`.
pub open spec fn span_of(t: Seq<char>, k: (usize, usize), name: Seq<char>) -> bool {
    k.0 <= k.1 <= t.len() && t.subrange(k.0 as int, k.1 as int) == name
}

/// Sets the member whose key is written at `[a, b)` to `v`.
fn put_member<'a>(
    t: &Vec<char>,
    names: &mut Vec<&'a str>,
    vals: &mut Vec<Value<'a>>,
    keys: &mut Vec<(usize, usize)>,
    a: usize,
    b: usize,
    key: &'a str,
    v: Value<'a>,
)
    requires
        a <= b <= t.len(),
        key@ == t@.subrange(a as int, b as int),
        spans_hold(t@, old(keys)@, old(names)@),
        old(vals).len() == old(names).len(),
    ensures
        member_views(final(names)@, final(vals)@) == put(
            member_views(old(names)@, old(vals)@),
            key@,
            v@,
        ),
        spans_hold(t@, final(keys)@, final(names)@),
        final(vals).len() == final(names).len(),
{
    let ghost m = member_views(names@, vals@);
    let ghost names0 = names@;
    let ghost keys0 = keys@;
    let mut j = names.len();
    assert(m.take(j as int) =~= m);
    while j > 0
        invariant
            j <= names.len(),
            vals.len() == names.len(),
            m == member_views(names@, vals@),
            m == member_views(old(names)@, old(vals)@),
            names@ == names0,
            keys@ == keys0,
            spans_hold(t@, keys@, names@),
            key@ == t@.subrange(a as int, b as int),
            a <= b <= t.len(),
            key_index(m, key@) == key_index(m.take(j as int), key@),
        decreases j,
    {
        let (x0, x1) = keys[j - 1];
        assert(span_of(t@, keys@[j - 1], names@[j - 1]@));
        if same_text(t, x0, x1, a, b) {
            assert(m.take(j as int).last() == m[j - 1]);
            let ghost vm = v@;
            names.set(j - 1, key);
            vals.set(j - 1, v);
            assert(member_views(names@, vals@) =~= m.update(j - 1, (key@, vm)));
            assert forall|i: int| 0 <= i < keys@.len() implies #[trigger] span_of(
                t@,
                keys@[i],
                names@[i]@,
            ) by {
                assert(span_of(t@, keys0[i], names0[i]@));
            }
            assert(key_index(m, key@) == j - 1);
            return;
        }
        assert(m.take(j as int).drop_last() =~= m.take(j - 1));
        j = j - 1;
    }
    let ghost vm = v@;
    names.push(key);
    vals.push(v);
    keys.push((a, b));
    assert(member_views(names@, vals@) =~= m.push((key@, vm)));
    assert forall|i: int| 0 <= i < keys@.len() implies #[trigger] span_of(
        t@,
        keys@[i],
        names@[i]@,
    ) by {
        if i < keys0.len() {
            assert(span_of(t@, keys0[i], names0[i]@));
        }
    }
}

proof fn lemma_object_view<'a>(names: Vec<&'a str>, vals: Vec<Value<'a>>)
    requires
        names.len() == vals.len(),
    ensures
        Value::Object(names, vals)@ == Json::Object(member_views(names@, vals@)),
{
    let s = Value::Object(names, vals)@->Object_0;
    assert(s =~= member_views(names@, vals@));
}

/// Reads the object that opens at `p`.
fn parse_object<'a>(src: &'a str, t: &Vec<char>, p: usize, depth: usize) -> (r: Result<
    (Value<'a>, usize),
    ParseError,
>)
    requires
        leads(src, t@),
        p < t.len(),
        t@[p as int] == '{',
    ensures
        value_view(r) == object_at(t@, p as int, depth as nat),
        r is Ok ==> p < r->Ok_0.1 <= t.len(),
    decreases depth, t.len() - p, 0int,
{
    if depth == 0 {
        return Err(ParseError::DepthExceeded);
    }
    let inner = depth - 1;
    let q = skip_spaces(t, p + 1);
    let mut names: Vec<&'a str> = Vec::new();
    let mut vals: Vec<Value<'a>> = Vec::new();
    let mut keys: Vec<(usize, usize)> = Vec::new();
    if q < t.len() && t[q] == '}' {
        proof {
            lemma_object_view(names, vals);
        }
        assert(member_views(names@, vals@) =~= Seq::empty());
        return Ok((Value::Object(names, vals), q + 1));
    }
    let ghost mut pairs: Seq<(Seq<char>, Json)> = Seq::empty();
    assert(member_views(names@, vals@) =~= collapse(pairs));
    let mut cur = q;
    loop
        invariant
            leads(src, t@),
            p < q <= cur <= t.len(),
            0 < depth,
            inner == depth - 1,
            q == skip_space(t@, p + 1),
            !(q < t.len() && t@[q as int] == '}'),
            members(t@, q as int, inner as nat) == prepend(
                pairs,
                members(t@, cur as int, inner as nat),
            ),
            member_views(names@, vals@) == collapse(pairs),
            spans_hold(t@, keys@, names@),
            vals.len() == names.len(),
        decreases t.len() - cur,
    {
        if cur >= t.len() {
            return Err(ParseError::UnexpectedEnd(cur));
        }
        if t[cur] != '"' {
            return Err(ParseError::UnexpectedCharacter(cur));
        }
        let k = match scan_string(t, cur) {
            Err(e) => {
                return Err(e);
            },
            Ok(k) => k,
        };
        let c = skip_spaces(t, k + 1);
        if c >= t.len() {
            return Err(ParseError::UnexpectedEnd(c));
        }
        if t[c] != ':' {
            return Err(ParseError::UnexpectedCharacter(c));
        }
        let a = skip_spaces(t, c + 1);
        let (v, e) = match parse_value(src, t, a, inner) {
            Err(e) => {
                return Err(e);
            },
            Ok(x) => x,
        };
        let r = skip_spaces(t, e);
        if r >= t.len() {
            return Err(ParseError::UnexpectedEnd(r));
        }
        let closing = t[r] == '}';
        if !closing && t[r] != ',' {
            return Err(ParseError::UnexpectedCharacter(r));
        }
        let s = if closing {
            r + 1
        } else {
            skip_spaces(t, r + 1)
        };
        if !closing && s < t.len() && t[s] == '}' {
            return Err(ParseError::TrailingSeparator(r));
        }
        let ghost key = t@.subrange(cur + 1, k as int);
        let ghost vm = v@;
        let ghost before = pairs;
        let name = span(src, t, cur + 1, k);
        put_member(t, &mut names, &mut vals, &mut keys, cur + 1, k, name, v);
        proof {
            pairs = pairs.push((key, vm));
            assert(pairs.drop_last() =~= before);
        }
        if closing {
            proof {
                lemma_object_view(names, vals);
                assert(before + seq![(key, vm)] =~= pairs);
            }
            return Ok((Value::Object(names, vals), r + 1));
        }
        assert(prepend(before, prepend(seq![(key, vm)], members(t@, s as int, inner as nat)))
            == prepend(pairs, members(t@, s as int, inner as nat))) by {
            match members(t@, s as int, inner as nat) {
                Ok((rest, _)) => {
                    assert(before + (seq![(key, vm)] + rest) =~= pairs + rest);
                },
                Err(_) => {},
            }
        }
        cur = s;
    }
}

/// What a call of `parse` gives, seen through the models.
pub open spec fn outcome_view<'a>(r: Result<(Option<Value<'a>>, Option<&'a str>), ParseError>) -> Result<
    (Option<Json>, Option<Seq<char>>),
    ParseError,
> {
    match r {
        Err(e) => Err(e),
        Ok((v, rest)) => Ok(
            (
                match v {
                    Some(v) => Some(v@),
                    None => None,
                },
                match rest {
                    Some(rest) => Some(rest@),
                    None => None,
                },
            ),
        ),
    }
}

/// The characters of `s`.
fn chars_of(s: &str) -> (r: Vec<char>)
    ensures
        r@ == s@,
{
    let mut out: Vec<char> = Vec::new();
    for c in it: s.chars()
        invariant
            out@ == it.seq().take(it.index() as int),
    {
        out.push(c);
    }
    out
}

/// The offset that ends `t` once its trailing whitespace is taken off.
fn trimmed_end(t: &Vec<char>) -> (hi: usize)
    ensures
        hi == trim_end(t@, t.len() as int),
        hi <= t.len(),
        forall|p: int| 0 <= p < t.len() && !is_space(t@[p]) ==> p < hi,
{
    let mut hi = t.len();
    while hi > 0 && space(t[hi - 1])
        invariant
            hi <= t.len(),
            trim_end(t@, t.len() as int) == trim_end(t@, hi as int),
            forall|p: int| hi <= p < t.len() ==> is_space(#[trigger] t@[p]),
        decreases hi,
    {
        hi = hi - 1;
    }
    hi
}

/// Reads the first JSON value in `src`, with arrays and objects nested at
/// most `max_depth` deep.
///
/// Whitespace around the text is ignored. Blank text gives no value and no
/// remainder. Otherwise the result is the value and the text that follows
/// it, up to the trailing whitespace: `None` where nothing follows. Every
/// string, number, key and remainder borrows from `src`.
pub fn parse_with_max_depth<'a>(src: &'a str, max_depth: usize) -> (r: Result<
    (Option<Value<'a>>, Option<&'a str>),
    ParseError,
>)
    ensures
        outcome_view(r) == parse_chars(src@, max_depth as nat),
{
    let mut t = chars_of(src);
    let lo = skip_spaces(&t, 0);
    if lo >= t.len() {
        return Ok((None, None));
    }
    let hi = trimmed_end(&t);
    t.truncate(hi);
    assert(t@ =~= src@.take(hi as int));
    match parse_value(src, &t, lo, max_depth) {
        Err(e) => Err(e),
        Ok((v, e)) => {
            if e >= hi {
                Ok((Some(v), None))
            } else {
                let rest = span(src, &t, e, hi);
                assert(rest@ =~= src@.subrange(e as int, hi as int));
                Ok((Some(v), Some(rest)))
            }
        },
    }
}

/// Reads the first JSON value in `src`, with arrays and objects nested at
/// most `DEFAULT_MAX_DEPTH` deep; see `parse_with_max_depth`.
pub fn parse<'a>(src: &'a str) -> (r: Result<(Option<Value<'a>>, Option<&'a str>), ParseError>)
    ensures
        outcome_view(r) == parse_chars(src@, DEFAULT_MAX_DEPTH as nat),
{
    parse_with_max_depth(src, DEFAULT_MAX_DEPTH)
}

/// An optional piece of text, seen as characters.
pub open spec fn opt_view<'a>(o: Option<&'a str>) -> Option<Seq<char>> {
    match o {
        Some(s) => Some(s@),
        None => None,
    }
}

/// A token-carrying result, seen as characters.
pub open spec fn token_view<'a>(r: Result<(&'a str, Option<&'a str>), ParseError>) -> Result<
    (Seq<char>, Option<Seq<char>>),
    ParseError,
> {
    match r {
        Ok((s, rest)) => Ok((s@, opt_view(rest))),
        Err(e) => Err(e),
    }
}

/// The text of `src` from `e` on, or `None` where nothing is left.
fn rest_from<'a>(src: &'a str, t: &Vec<char>, e: usize) -> (r: Option<&'a str>)
    requires
        t@ == src@,
        e <= t.len(),
    ensures
        opt_view(r) == rest_of(src@, e as int),
{
    if e >= t.len() {
        None
    } else {
        assert(t@ =~= src@.take(t.len() as int));
        Some(span(src, t, e, t.len()))
    }
}

/// Recognizes `null` at the very start of `src`; nothing needs to follow it.
/// Gives what is left after it.
pub fn parse_null<'a>(src: &'a str) -> (r: Option<((), Option<&'a str>)>)
    ensures
        r is Some <==> written_at(src@, 0, lit_null()),
        r is Some ==> opt_view(r->Some_0.1) == rest_of(src@, 4),
{
    let t = chars_of(src);
    if literal_at(&t, 0, &['n', 'u', 'l', 'l']) {
        Some(((), rest_from(src, &t, 4)))
    } else {
        None
    }
}

/// Recognizes `true` or `false` at the very start of `src`; nothing needs to
/// follow it. Gives the boolean and what is left after it.
pub fn parse_bool<'a>(src: &'a str) -> (r: Option<(bool, Option<&'a str>)>)
    ensures
        r is Some <==> (written_at(src@, 0, lit_true()) || written_at(src@, 0, lit_false())),
        r matches Some((b, rest)) ==> b == written_at(src@, 0, lit_true()) && opt_view(rest)
            == rest_of(src@, if b { 4 } else { 5 }),
{
    let t = chars_of(src);
    if literal_at(&t, 0, &['t', 'r', 'u', 'e']) {
        Some((true, rest_from(src, &t, 4)))
    } else if literal_at(&t, 0, &['f', 'a', 'l', 's', 'e']) {
        Some((false, rest_from(src, &t, 5)))
    } else {
        None
    }
}

/// Reads the number at the very start of `src`: gives its text, exactly as
/// written, and what is left after it.
pub fn parse_number<'a>(src: &'a str) -> (r: Result<(&'a str, Option<&'a str>), ParseError>)
    ensures
        token_view(r) == number_token(src@),
{
    let t = chars_of(src);
    assert(t@ =~= src@.take(t.len() as int));
    if t.len() == 0 {
        return Err(ParseError::UnexpectedEnd(0));
    }
    if !(t[0] == '-' || digit(t[0])) {
        return Err(ParseError::UnexpectedCharacter(0));
    }
    match scan_number(&t, 0) {
        Err(e) => Err(e),
        Ok(e) => Ok((span(src, &t, 0, e), rest_from(src, &t, e))),
    }
}

/// Reads the string at the very start of `src`: gives the raw text between
/// its quotes, escapes not decoded, and what is left after the closing quote.
/// An escape is a backslash and one of `" \ / b f n r t`, or `u` and four
/// hex digits; a control character below U+0020 may not stand in a string.
pub fn parse_string<'a>(src: &'a str) -> (r: Result<(&'a str, Option<&'a str>), ParseError>)
    ensures
        token_view(r) == string_token(src@),
{
    let t = chars_of(src);
    assert(t@ =~= src@.take(t.len() as int));
    if t.len() == 0 {
        return Err(ParseError::UnexpectedEnd(0));
    }
    if t[0] != '"' {
        return Err(ParseError::UnexpectedCharacter(0));
    }
    match scan_string(&t, 0) {
        Err(e) => Err(e),
        Ok(e) => Ok((span(src, &t, 1, e), rest_from(src, &t, e + 1))),
    }
}

} // verus!
