use simple_json::lexer::tokenize;
use simple_json::parser::{ParseError, parse, parse_with_limit};
use simple_json::token::Token;
use simple_json::value::Value;
use simple_json::{JsonError, parse_json};

fn text(s: &str) -> String {
    s.to_string()
}

fn parse_text(s: &str) -> Result<Value, ParseError> {
    parse(&tokenize(text(s)).unwrap())
}

fn render(v: &Value) -> String {
    format!("{:?}", v)
}

#[test]
fn trailing_comma_in_object() {
    assert!(matches!(parse_text("{\"a\":1,}"), Err(ParseError::TrailingComma)));
}

#[test]
fn trailing_comma_in_array() {
    assert!(matches!(parse_text("[1,]"), Err(ParseError::TrailingComma)));
}

#[test]
fn unclosed_array() {
    assert!(matches!(parse_text("[1,2"), Err(ParseError::UnexpectedEndOfInput)));
}

#[test]
fn empty_tokens() {
    assert!(matches!(parse(&vec![]), Err(ParseError::UnexpectedEndOfInput)));
}

#[test]
fn duplicate_keys_last_wins() {
    match parse_text("{\"a\":1,\"a\":2}").unwrap() {
        Value::Object(entries) => {
            assert_eq!(entries.len(), 1);
            assert_eq!(entries[0].0, "a");
            assert!(matches!(&entries[0].1, Value::Number(n) if n == "2"));
        }
        other => panic!("not an object: {:?}", other),
    }
}

#[test]
fn duplicate_key_keeps_first_place() {
    let v = parse_text("{\"a\":1,\"b\":2,\"a\":3}").unwrap();
    assert_eq!(
        render(&v),
        render(&Value::Object(vec![
            (text("a"), Value::Number(text("3"))),
            (text("b"), Value::Number(text("2"))),
        ]))
    );
}

#[test]
fn empty_object() {
    assert!(matches!(parse_text("{}").unwrap(), Value::Object(e) if e.is_empty()));
}

#[test]
fn empty_array() {
    assert!(matches!(parse_text("[]").unwrap(), Value::Array(e) if e.is_empty()));
}

#[test]
fn nested_structure() {
    let v = parse_text("{\"x\": [1, {\"y\": null}, \"s\"], \"z\": true}").unwrap();
    let expected = Value::Object(vec![
        (
            text("x"),
            Value::Array(vec![
                Value::Number(text("1")),
                Value::Object(vec![(text("y"), Value::Null)]),
                Value::String(text("s")),
            ]),
        ),
        (text("z"), Value::Boolean(true)),
    ]);
    assert_eq!(render(&v), render(&expected));
}

#[test]
fn whitespace_does_not_change_value() {
    let a = parse_text("{\"x\":[1,2],\"y\":false}").unwrap();
    let b = parse_text(" {\n\t\"x\" : [ 1 ,\r\n 2 ] , \"y\":false }  ").unwrap();
    assert_eq!(render(&a), render(&b));
}

#[test]
fn structural_errors() {
    assert!(matches!(parse_text("{1:2}"), Err(ParseError::ExpectedKey)));
    assert!(matches!(parse_text("{\"a\" 2}"), Err(ParseError::ExpectedColon)));
    assert!(matches!(parse_text("{\"a\":2 \"b\"}"), Err(ParseError::ExpectedCommaOrBraceClose)));
    assert!(matches!(parse_text("[1 2]"), Err(ParseError::ExpectedCommaOrBracketClose)));
    assert!(matches!(parse_text("1 2"), Err(ParseError::TrailingTokens)));
    assert!(matches!(parse_text("[,1]"), Err(ParseError::UnexpectedToken(1))));
    assert!(matches!(parse_text("{\"a\":}"), Err(ParseError::UnexpectedToken(3))));
    assert!(matches!(parse_text("{\"a\""), Err(ParseError::UnexpectedEndOfInput)));
    assert!(matches!(parse_text("{"), Err(ParseError::UnexpectedEndOfInput)));
}

#[test]
fn parse_from_tokens() {
    let ts = vec![Token::BracketOpen, Token::Null, Token::Comma, Token::Boolean(false), Token::BracketClose];
    let v = parse(&ts).unwrap();
    assert_eq!(render(&v), render(&Value::Array(vec![Value::Null, Value::Boolean(false)])));
}

#[test]
fn parse_json_reports_both_stages() {
    assert!(matches!(parse_json(text("\"abc")), Err(JsonError::Lex(_))));
    assert!(matches!(parse_json(text("[1,]")), Err(JsonError::Parse(ParseError::TrailingComma))));
    assert!(matches!(parse_json(text(" \"\\u00e9\" ")).unwrap(), Value::String(s) if s == "é"));
}

#[test]
fn nesting_limit() {
    let ts = tokenize(text("[[{\"a\":[1]}]]")).unwrap();
    assert!(matches!(parse_with_limit(&ts, 3), Err(ParseError::NestingTooDeep)));
    let v = parse_with_limit(&ts, 4).unwrap();
    assert_eq!(render(&v), render(&parse(&ts).unwrap()));
    let closes = tokenize(text("]]]]")).unwrap();
    assert!(matches!(parse_with_limit(&closes, 0), Err(ParseError::UnexpectedToken(0))));
    let flat = tokenize(text("[1,]")).unwrap();
    assert!(matches!(parse_with_limit(&flat, 1), Err(ParseError::TrailingComma)));
    assert!(matches!(parse_with_limit(&flat, 0), Err(ParseError::NestingTooDeep)));
}

#[test]
fn long_array_round_trip() {
    let mut s = String::from("[");
    for i in 0..200 {
        if i > 0 {
            s.push(',');
        }
        s.push_str(&i.to_string());
    }
    s.push(']');
    match parse_text(&s).unwrap() {
        Value::Array(items) => {
            assert_eq!(items.len(), 200);
            assert!(matches!(&items[199], Value::Number(n) if n == "199"));
        }
        other => panic!("not an array: {:?}", other),
    }
}
