use simple_json::lexer::{LexError, is_valid_number, tokenize};
use simple_json::token::Token;

fn text(s: &str) -> String {
    s.to_string()
}

fn number_value(t: &Token) -> f64 {
    match t {
        Token::Number(s) => s.parse::<f64>().unwrap(),
        other => panic!("not a number: {:?}", other),
    }
}

#[test]
fn number_with_fraction_and_exponent() {
    let ts = tokenize(text("-0.5e+3")).unwrap();
    assert_eq!(ts.len(), 1);
    assert_eq!(number_value(&ts[0]), -500.0);
    assert_eq!(ts[0], Token::Number(text("-0.5e+3")));
}

#[test]
fn integer_number() {
    let ts = tokenize(text("42")).unwrap();
    assert_eq!(ts, vec![Token::Number(text("42"))]);
    assert_eq!(number_value(&ts[0]), 42.0);
}

#[test]
fn escaped_quote_in_string() {
    let ts = tokenize(text("\"a\\\"b\"")).unwrap();
    assert_eq!(ts, vec![Token::String(text("a\"b"))]);
}

#[test]
fn unterminated_string() {
    assert_eq!(tokenize(text("\"abc")), Err(LexError::UnterminatedString));
    assert_eq!(tokenize(text("\"abc\\")), Err(LexError::UnterminatedString));
    assert_eq!(tokenize(text("\"\\u12")), Err(LexError::UnterminatedString));
}

#[test]
fn literal_needs_boundary() {
    assert_eq!(tokenize(text("trueish")), Err(LexError::UnknownLiteral));
    assert_eq!(tokenize(text("nul")), Err(LexError::UnknownLiteral));
    assert_eq!(tokenize(text("false1")), Err(LexError::UnknownLiteral));
}

#[test]
fn literals_and_punctuation() {
    let ts = tokenize(text("{\"k\": [true, false, null]}")).unwrap();
    assert_eq!(
        ts,
        vec![
            Token::BraceOpen,
            Token::String(text("k")),
            Token::Colon,
            Token::BracketOpen,
            Token::Boolean(true),
            Token::Comma,
            Token::Boolean(false),
            Token::Comma,
            Token::Null,
            Token::BracketClose,
            Token::BraceClose,
        ]
    );
}

#[test]
fn empty_and_blank_input() {
    assert_eq!(tokenize(text("")), Ok(vec![]));
    assert_eq!(tokenize(text(" \t\r\n ")), Ok(vec![]));
}

#[test]
fn escapes_are_decoded() {
    let ts = tokenize(text("\"\\\\\\/\\b\\f\\n\\r\\t\\u0041\\u00e9\"")).unwrap();
    assert_eq!(ts, vec![Token::String(text("\\/\u{8}\u{c}\n\r\tA\u{e9}"))]);
}

#[test]
fn surrogate_pair_is_one_character() {
    let ts = tokenize(text("\"\\ud83d\\ude00\"")).unwrap();
    assert_eq!(ts, vec![Token::String(text("\u{1f600}"))]);
}

#[test]
fn invalid_escapes() {
    assert_eq!(tokenize(text("\"\\x\"")), Err(LexError::InvalidEscape));
    assert_eq!(tokenize(text("\"\\u12g4\"")), Err(LexError::InvalidEscape));
    assert_eq!(tokenize(text("\"\\udc00\"")), Err(LexError::InvalidEscape));
    assert_eq!(tokenize(text("\"\\ud800x\"")), Err(LexError::InvalidEscape));
    assert_eq!(tokenize(text("\"\\ud800\\u0041\"")), Err(LexError::InvalidEscape));
}

#[test]
fn invalid_numbers() {
    assert_eq!(tokenize(text("1.2.3")), Err(LexError::InvalidNumber));
    assert_eq!(tokenize(text("01")), Err(LexError::InvalidNumber));
    assert_eq!(tokenize(text("-")), Err(LexError::InvalidNumber));
    assert_eq!(tokenize(text("1.")), Err(LexError::InvalidNumber));
    assert_eq!(tokenize(text("1e")), Err(LexError::InvalidNumber));
    assert_eq!(tokenize(text("1e+")), Err(LexError::InvalidNumber));
}

#[test]
fn number_grammar() {
    for ok in ["0", "-0", "10", "1.25", "1e5", "1E-5", "-12.5e+10", "0.0"] {
        let cs: Vec<char> = ok.chars().collect();
        assert!(is_valid_number(&cs), "{}", ok);
    }
    for bad in ["", "+1", "00", "1.", ".5", "1e", "1-2", "--1"] {
        let cs: Vec<char> = bad.chars().collect();
        assert!(!is_valid_number(&cs), "{}", bad);
    }
}

#[test]
fn unexpected_character_has_offset() {
    assert_eq!(tokenize(text("[1, x]")), Err(LexError::UnexpectedCharacter('x', 4)));
    assert_eq!(tokenize(text("é?")), Err(LexError::UnexpectedCharacter('é', 0)));
    assert_eq!(tokenize(text("\"é\" ?")), Err(LexError::UnexpectedCharacter('?', 4)));
}

#[test]
fn first_error_wins() {
    assert_eq!(tokenize(text("trux \"abc")), Err(LexError::UnknownLiteral));
    assert_eq!(tokenize(text("\"abc\\q\" 1.2.3")), Err(LexError::InvalidEscape));
}
