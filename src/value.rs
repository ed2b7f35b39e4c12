use vstd::prelude::*;
use vstd::string::StringExecFns;

verus! {

/// The mathematical model of a parsed value. Text is kept as it appears in
/// the input: a number is its literal, a string is the raw text between the
/// quotes, escapes untouched.
pub enum Json {
    Null,
    Bool(bool),
    Number(Seq<char>),
    Str(Seq<char>),
    Array(Seq<Json>),
    /// Members in the order their keys first appear; keys are unique.
    Object(Seq<(Seq<char>, Json)>),
}

/// A parsed value. Every piece of text in it borrows from the input.
#[derive(Debug, PartialEq)]
pub enum Value<'a> {
    Null,
    Bool(bool),
    /// The number's literal text, exactly as written.
    Number(&'a str),
    /// The raw text between the quotes, escapes not decoded.
    String(&'a str),
    Array(Vec<Value<'a>>),
    /// Keys, as written between their quotes, and their values, side by
    /// side, in the order the keys first appear; a repeated key keeps the
    /// value written last.
    /// Where the two lengths differ, the members are the pairs that both
    /// vectors reach.
    Object(Vec<&'a str>, Vec<Value<'a>>),
}

impl<'a> View for Value<'a> {
    type V = Json;

    open spec fn view(&self) -> Json
        decreases self,
    {
        match self {
            Value::Null => Json::Null,
            Value::Bool(b) => Json::Bool(*b),
            Value::Number(n) => Json::Number(n@),
            Value::String(s) => Json::Str(s@),
            Value::Array(items) => Json::Array(
                Seq::new(
                    items.len() as nat,
                    |i: int|
                        if 0 <= i < items.len() {
                            items[i].view()
                        } else {
                            Json::Null
                        },
                ),
            ),
            Value::Object(keys, values) => Json::Object(
                Seq::new(
                    if keys.len() <= values.len() {
                        keys.len() as nat
                    } else {
                        values.len() as nat
                    },
                    |i: int|
                        (
                            if 0 <= i < keys.len() {
                                keys[i]@
                            } else {
                                Seq::empty()
                            },
                            if 0 <= i < values.len() {
                                values[i].view()
                            } else {
                                Json::Null
                            },
                        ),
                ),
            ),
        }
    }
}

/// Why a parse failed. Offsets count characters from the start of the input.
#[derive(Debug, Clone, Copy, PartialEq, Eq, Structural)]
pub enum ParseError {
    /// The character at this offset starts no value, or breaks the grammar here.
    UnexpectedCharacter(usize),
    /// The string opened by the quote at this offset is never closed.
    UnterminatedString(usize),
    /// The escape sequence whose backslash stands at this offset is not allowed.
    InvalidEscape(usize),
    /// The number breaks its grammar at this offset.
    InvalidNumberFormat(usize),
    /// The input ends, at this offset, inside an array or an object.
    UnexpectedEnd(usize),
    /// The comma at this offset is followed by a closing bracket or brace.
    TrailingSeparator(usize),
    /// Arrays and objects are nested deeper than the limit allows.
    DepthExceeded,
}

/// The human-readable text of a value: `null`, `true` and `false`; a number
/// or a string as its text is written in the input; an array as `[`, one line
/// per element, each indented by two spaces, and `]`; an object as `{`, one
/// line per member, `key: value`, and `}`. Composites end with a line break.
/// The text is meant for reading and is not JSON.
pub open spec fn render_json(j: Json) -> Seq<char>
    decreases j, 1nat, 0int,
{
    match j {
        Json::Null => seq!['n', 'u', 'l', 'l'],
        Json::Bool(b) => if b {
            seq!['t', 'r', 'u', 'e']
        } else {
            seq!['f', 'a', 'l', 's', 'e']
        },
        Json::Number(n) => n,
        Json::Str(s) => s,
        Json::Array(_) => seq!['[', '\n'] + render_lines(j, 0) + seq![']', '\n'],
        Json::Object(_) => seq!['{', '\n'] + render_lines(j, 0) + seq!['}', '\n'],
    }
}

/// The number of elements or members of `j`.
pub open spec fn width(j: Json) -> int {
    match j {
        Json::Array(items) => items.len() as int,
        Json::Object(members) => members.len() as int,
        _ => 0,
    }
}

/// The lines of the elements or members of `j`, from the `k`-th on.
pub open spec fn render_lines(j: Json, k: nat) -> Seq<char>
    decreases j, 0nat, width(j) - k,
{
    match j {
        Json::Array(items) => if k < items.len() {
            seq![' ', ' '] + render_json(items[k as int]) + seq!['\n'] + render_lines(j, k + 1)
        } else {
            Seq::empty()
        },
        Json::Object(members) => if k < members.len() {
            members[k as int].0 + seq![':', ' '] + render_json(members[k as int].1) + seq!['\n']
                + render_lines(j, k + 1)
        } else {
            Seq::empty()
        },
        _ => Seq::empty(),
    }
}

impl<'a> Value<'a> {
    /// The human-readable text of this value; see `render_json`.
    pub fn render(&self) -> (r: String)
        ensures
            r@ == render_json(self@),
        decreases self,
    {
        match self {
            Value::Null => {
                proof {
                    reveal_strlit("null");
                    assert("null"@ =~= seq!['n', 'u', 'l', 'l']);
                }
                String::from_str("null")
            },
            Value::Bool(b) => {
                proof {
                    reveal_strlit("true");
                    reveal_strlit("false");
                    assert("true"@ =~= seq!['t', 'r', 'u', 'e']);
                    assert("false"@ =~= seq!['f', 'a', 'l', 's', 'e']);
                }
                if *b {
                    String::from_str("true")
                } else {
                    String::from_str("false")
                }
            },
            Value::Number(n) => String::from_str(n),
            Value::String(s) => String::from_str(s),
            Value::Array(items) => {
                proof {
                    reveal_strlit("[\n");
                    reveal_strlit("]\n");
                    assert("[\n"@ =~= seq!['[', '\n']);
                    assert("]\n"@ =~= seq![']', '\n']);
                }
                let ghost j = self@;
                let mut out = String::from_str("[\n");
                let mut i: usize = 0;
                while i < items.len()
                    invariant
                        j == self@,
                        *self == Value::Array(*items),
                        i <= items.len(),
                        seq!['[', '\n'] + render_lines(j, 0) == out@ + render_lines(j, i as nat),
                    decreases items.len() - i,
                {
                    let ghost before = out@;
                    proof {
                        reveal_strlit("  ");
                        reveal_strlit("\n");
                        assert("  "@ =~= seq![' ', ' ']);
                        assert("\n"@ =~= seq!['\n']);
                    }
                    let line = items[i].render();
                    out.append("  ");
                    out.append(line.as_str());
                    out.append("\n");
                    assert(j->Array_0[i as int] == items@[i as int]@);
                    assert(render_lines(j, i as nat) == seq![' ', ' '] + render_json(
                        j->Array_0[i as int],
                    ) + seq!['\n'] + render_lines(j, (i + 1) as nat));
                    assert(before + render_lines(j, i as nat) =~= out@ + render_lines(j, (i + 1) as nat));
                    i = i + 1;
                }
                out.append("]\n");
                assert(out@ =~= render_json(j));
                out
            },
            Value::Object(keys, values) => {
                proof {
                    reveal_strlit("{\n");
                    reveal_strlit("}\n");
                    assert("{\n"@ =~= seq!['{', '\n']);
                    assert("}\n"@ =~= seq!['}', '\n']);
                }
                let ghost j = self@;
                let mut out = String::from_str("{\n");
                let mut i: usize = 0;
                while i < keys.len() && i < values.len()
                    invariant
                        j == self@,
                        *self == Value::Object(*keys, *values),
                        i <= keys.len(),
                        i <= values.len(),
                        seq!['{', '\n'] + render_lines(j, 0) == out@ + render_lines(j, i as nat),
                    decreases keys.len() - i,
                {
                    let ghost before = out@;
                    proof {
                        reveal_strlit(": ");
                        reveal_strlit("\n");
                        assert(": "@ =~= seq![':', ' ']);
                        assert("\n"@ =~= seq!['\n']);
                    }
                    let line = values[i].render();
                    out.append(keys[i]);
                    out.append(": ");
                    out.append(line.as_str());
                    out.append("\n");
                    assert(j->Object_0[i as int] == (keys@[i as int]@, values@[i as int]@));
                    assert(render_lines(j, i as nat) == keys@[i as int]@ + seq![':', ' ']
                        + render_json(values@[i as int]@) + seq!['\n'] + render_lines(
                        j,
                        (i + 1) as nat,
                    ));
                    assert(before + render_lines(j, i as nat) =~= out@ + render_lines(j, (i + 1) as nat));
                    i = i + 1;
                }
                out.append("}\n");
                assert(out@ =~= render_json(j));
                out
            },
        }
    }
}

impl<'a> Value<'a> {
    /// A copy of this value that borrows the same text.
    fn deep_copy(&self) -> (r: Value<'a>)
        ensures
            r@ == self@,
        decreases self,
    {
        match self {
            Value::Null => Value::Null,
            Value::Bool(b) => Value::Bool(*b),
            Value::Number(n) => Value::Number(n),
            Value::String(s) => Value::String(s),
            Value::Array(items) => {
                let mut out: Vec<Value<'a>> = Vec::new();
                let mut i: usize = 0;
                while i < items.len()
                    invariant
                        *self == Value::Array(*items),
                        i <= items.len(),
                        out.len() == i,
                        forall|j: int| 0 <= j < i ==> (#[trigger] out@[j])@ == items@[j]@,
                    decreases items.len() - i,
                {
                    let item = &items[i];
                    proof {
                        vstd::std_specs::vec::axiom_vec_index_decreases(*items, i as int);
                        assert(decreases_to!(*self => (*self)->Array_0));
                        assert(decreases_to!(*self => *item));
                    }
                    out.push(item.deep_copy());
                    i = i + 1;
                }
                let r = Value::Array(out);
                assert(r@->Array_0 =~= self@->Array_0);
                r
            },
            Value::Object(keys, values) => {
                let mut ks: Vec<&'a str> = Vec::new();
                let mut vs: Vec<Value<'a>> = Vec::new();
                let mut i: usize = 0;
                while i < keys.len()
                    invariant
                        *self == Value::Object(*keys, *values),
                        i <= keys.len(),
                        ks@ == keys@.take(i as int),
                        vs.len() == if i <= values.len() { i as int } else { values.len() as int },
                        forall|j: int| 0 <= j < vs.len() ==> (#[trigger] vs@[j])@ == values@[j]@,
                    decreases keys.len() - i,
                {
                    ks.push(keys[i]);
                    if i < values.len() {
                        let item = &values[i];
                        proof {
                            vstd::std_specs::vec::axiom_vec_index_decreases(*values, i as int);
                            assert(decreases_to!(*self => (*self)->Object_1));
                            assert(decreases_to!(*self => *item));
                        }
                        vs.push(item.deep_copy());
                    }
                    i = i + 1;
                    assert(ks@ =~= keys@.take(i as int));
                }
                assert(ks@ =~= keys@);
                let r = Value::Object(ks, vs);
                assert(r@->Object_0 =~= self@->Object_0);
                r
            },
        }
    }
}

impl<'a> Clone for Value<'a> {
    /// A copy of this value that borrows the same text.
    fn clone(&self) -> (r: Self)
        ensures
            r@ == self@,
    {
        self.deep_copy()
    }
}

} // verus!
