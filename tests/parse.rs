use json_parse::{parse, parse_with_max_depth, ParseError, Value};

type Outcome<'a> = Result<(Option<Value<'a>>, Option<&'a str>), ParseError>;

/// The number a parse gave, converted to a float, and what remained.
fn number<'a>(r: Outcome<'a>) -> (f64, Option<&'a str>) {
    match r {
        Ok((Some(Value::Number(text)), rest)) => (text.parse::<f64>().unwrap(), rest),
        other => panic!("not a number: {:?}", other),
    }
}

fn nested(n: usize) -> String {
    let mut s = String::new();
    for _ in 0..n {
        s.push('[');
    }
    for _ in 0..n {
        s.push(']');
    }
    s
}

#[test]
fn parse_nothing() {
    assert_eq!(parse(""), Ok((None, None)))
}

#[test]
fn parse_blank() {
    assert_eq!(parse("   "), Ok((None, None)));
    assert_eq!(parse("\t\n \r"), Ok((None, None)));
}

#[test]
fn parse_null() {
    assert_eq!(parse("  null asd"), Ok((Some(Value::Null), Some(" asd"))))
}

#[test]
fn parse_bool() {
    assert_eq!(parse("false asd"), Ok((Some(Value::Bool(false)), Some(" asd"))));
    assert_eq!(parse("true das"), Ok((Some(Value::Bool(true)), Some(" das"))));
}

#[test]
fn parse_numbers() {
    assert_eq!(number(parse("123")), (123.0, None));
    assert_eq!(number(parse("-123")), (-123.0, None));
    assert_eq!(number(parse("0.123")), (0.123, None));
    assert_eq!(number(parse("-0.123")), (-0.123, None));
    assert_eq!(number(parse("1e1")), (10.0, None));
    assert_eq!(number(parse("1e-1")), (0.1, None));
    assert_eq!(number(parse("-1e-1")), (-0.1, None));
    assert_eq!(number(parse("1.1e1")), (11.0, None));
    assert_eq!(number(parse("-1.1e1")), (-11.0, None));
}

#[test]
fn parse_string() {
    assert_eq!(parse("\"asd\""), Ok((Some(Value::String("asd")), None)));
}

#[test]
fn number_keeps_its_text() {
    assert_eq!(parse("10 11"), Ok((Some(Value::Number("10")), Some(" 11"))));
    assert_eq!(parse("1E+2,"), Ok((Some(Value::Number("1E+2")), Some(","))));
}

#[test]
fn malformed_numbers_fail() {
    assert_eq!(parse("01"), Err(ParseError::InvalidNumberFormat(1)));
    assert_eq!(parse(".5"), Err(ParseError::UnexpectedCharacter(0)));
    assert_eq!(parse("1."), Err(ParseError::InvalidNumberFormat(2)));
    assert_eq!(parse("1e"), Err(ParseError::InvalidNumberFormat(2)));
    assert_eq!(parse("-"), Err(ParseError::InvalidNumberFormat(1)));
}

#[test]
fn scalar_with_surrounding_space() {
    assert_eq!(parse(" \n null \t"), Ok((Some(Value::Null), None)));
    assert_eq!(parse("\u{a0}true\u{3000}"), Ok((Some(Value::Bool(true)), None)));
    assert_eq!(parse("  \"x y\"  "), Ok((Some(Value::String("x y")), None)));
}

#[test]
fn literal_needs_no_boundary() {
    assert_eq!(parse("nullify"), Ok((Some(Value::Null), Some("ify"))));
}

#[test]
fn string_keeps_escapes_raw() {
    assert_eq!(
        parse(r#""a\"b\\c\u00e9" rest"#),
        Ok((Some(Value::String(r#"a\"b\\c\u00e9"#)), Some(" rest")))
    );
    assert_eq!(parse("\"h\u{e9}\""), Ok((Some(Value::String("h\u{e9}")), None)));
}

#[test]
fn string_errors() {
    assert_eq!(parse("\"abc"), Err(ParseError::UnterminatedString(0)));
    assert_eq!(parse(" \"a\\q\""), Err(ParseError::InvalidEscape(3)));
    assert_eq!(parse("\"\\u12g4\""), Err(ParseError::InvalidEscape(1)));
    assert_eq!(parse("\"\\u12"), Err(ParseError::UnterminatedString(0)));
    assert_eq!(parse("\"a\nb\""), Err(ParseError::UnexpectedCharacter(2)));
}

#[test]
fn parse_array() {
    assert_eq!(
        parse("[1,2,3]"),
        Ok((
            Some(Value::Array(vec![
                Value::Number("1"),
                Value::Number("2"),
                Value::Number("3")
            ])),
            None
        ))
    );
    assert_eq!(parse("[ ]"), Ok((Some(Value::Array(vec![])), None)));
    assert_eq!(
        parse("[ null , [true] ]  x"),
        Ok((
            Some(Value::Array(vec![Value::Null, Value::Array(vec![Value::Bool(true)])])),
            Some("  x")
        ))
    );
}

#[test]
fn array_errors() {
    assert_eq!(parse("[1,2,]"), Err(ParseError::TrailingSeparator(4)));
    assert_eq!(parse("[1,2"), Err(ParseError::UnexpectedEnd(4)));
    assert_eq!(parse("[1 2]"), Err(ParseError::UnexpectedCharacter(3)));
    assert_eq!(parse("["), Err(ParseError::UnexpectedEnd(1)));
    assert_eq!(parse("[,1]"), Err(ParseError::UnexpectedCharacter(1)));
}

#[test]
fn object_last_write_wins() {
    assert_eq!(
        parse("{\"a\":1,\"a\":2}"),
        Ok((Some(Value::Object(vec!["a"], vec![Value::Number("2")])), None))
    );
}

#[test]
fn parse_object() {
    assert_eq!(parse("{ }"), Ok((Some(Value::Object(vec![], vec![])), None)));
    assert_eq!(
        parse("{\"b\": [1], \"a\" : {\"c\": null}, \"b\": false} tail"),
        Ok((
            Some(Value::Object(
                vec!["b", "a"],
                vec![
                    Value::Bool(false),
                    Value::Object(vec!["c"], vec![Value::Null])
                ]
            )),
            Some(" tail")
        ))
    );
}

#[test]
fn object_errors() {
    assert_eq!(parse("{\"a\":1,}"), Err(ParseError::TrailingSeparator(6)));
    assert_eq!(parse("{a:1}"), Err(ParseError::UnexpectedCharacter(1)));
    assert_eq!(parse("{\"a\" 1}"), Err(ParseError::UnexpectedCharacter(5)));
    assert_eq!(parse("{\"a\":1"), Err(ParseError::UnexpectedEnd(6)));
    assert_eq!(parse("{\"a\""), Err(ParseError::UnexpectedEnd(4)));
}

#[test]
fn unknown_character_fails() {
    assert_eq!(parse("  @"), Err(ParseError::UnexpectedCharacter(2)));
    assert_eq!(parse("nul"), Err(ParseError::UnexpectedCharacter(0)));
}

#[test]
fn nesting_up_to_the_limit() {
    for n in 1..=5 {
        let text = nested(n);
        let (v, rest) = parse_with_max_depth(&text, 5).unwrap();
        assert!(v.is_some());
        assert_eq!(rest, None);
    }
    assert_eq!(parse_with_max_depth(&nested(6), 5), Err(ParseError::DepthExceeded));
    assert_eq!(parse_with_max_depth("{\"a\":{\"b\":{}}}", 2), Err(ParseError::DepthExceeded));
    assert!(parse_with_max_depth("{\"a\":{\"b\":{}}}", 3).is_ok());
    assert!(parse(&nested(200)).is_ok());
    assert_eq!(parse_with_max_depth("1", 0), Ok((Some(Value::Number("1")), None)));
}

#[test]
fn recognizers_on_their_own() {
    assert_eq!(json_parse::parse_null("null"), Some(((), None)));
    assert_eq!(json_parse::parse_null("nulls"), Some(((), Some("s"))));
    assert_eq!(json_parse::parse_null(" null"), None);
    assert_eq!(json_parse::parse_bool("true"), Some((true, None)));
    assert_eq!(json_parse::parse_bool("false]"), Some((false, Some("]"))));
    assert_eq!(json_parse::parse_bool("fals"), None);
    assert_eq!(json_parse::parse_number("-12.5e3 x"), Ok(("-12.5e3", Some(" x"))));
    assert_eq!(json_parse::parse_number("x"), Err(ParseError::UnexpectedCharacter(0)));
    assert_eq!(json_parse::parse_number(""), Err(ParseError::UnexpectedEnd(0)));
    assert_eq!(json_parse::parse_string("\"ab\":1"), Ok(("ab", Some(":1"))));
    assert_eq!(json_parse::parse_string("\"\""), Ok(("", None)));
    assert_eq!(json_parse::parse_string("ab"), Err(ParseError::UnexpectedCharacter(0)));
}

#[test]
fn render_is_readable_text() {
    assert_eq!(Value::Null.render(), "null");
    assert_eq!(Value::Bool(false).render(), "false");
    assert_eq!(Value::Number("-1.5e3").render(), "-1.5e3");
    assert_eq!(Value::String("a\\nb").render(), "a\\nb");
    let (v, _) = parse("[1, {\"a\": true}]").unwrap();
    assert_eq!(v.unwrap().render(), "[\n  1\n  {\na: true\n}\n\n]\n");
    assert_eq!(Value::Array(vec![]).render(), "[\n]\n");
}

#[test]
fn short_unicode_escape_is_invalid() {
    assert_eq!(json_parse::parse_string(r#""\u41""#), Err(ParseError::InvalidEscape(1)));
    assert_eq!(json_parse::parse_string(r#""\u""#), Err(ParseError::InvalidEscape(1)));
    assert_eq!(json_parse::parse_string(r#""\uabc""#), Err(ParseError::InvalidEscape(1)));
    assert_eq!(parse(r#""\u41""#), Err(ParseError::InvalidEscape(1)));
    assert_eq!(parse(r#"["\u41"]"#), Err(ParseError::InvalidEscape(2)));
    assert_eq!(parse(r#""\u4"#), Err(ParseError::UnterminatedString(0)));
    assert_eq!(parse(r#""\u"#), Err(ParseError::UnterminatedString(0)));
    assert_eq!(parse(r#""Ax""#), Ok((Some(Value::String(r#"Ax"#)), None)));
}

#[test]
fn clone_keeps_the_value() {
    let (v, _) = parse("{\"a\": [1, \"x\"], \"b\": null}").unwrap();
    let v = v.unwrap();
    let c = v.clone();
    assert_eq!(c, v);
    assert_eq!(c.render(), v.render());
}
