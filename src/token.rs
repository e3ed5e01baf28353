use vstd::prelude::*;

verus! {

/// One lexical unit of JSON text.
///
/// A number keeps the exact text of its literal, which the scanner has
/// checked against the JSON number grammar; turning it into a binary
/// floating-point value is left to the caller.
#[derive(Clone, Debug, PartialEq)]
pub enum Token {
    BraceOpen,
    BraceClose,
    BracketOpen,
    BracketClose,
    String(String),
    Number(String),
    Comma,
    Colon,
    Boolean(bool),
    Null,
}

/// The mathematical model of a token: text is a sequence of characters.
pub enum SpecToken {
    BraceOpen,
    BraceClose,
    BracketOpen,
    BracketClose,
    Str(Seq<char>),
    Number(Seq<char>),
    Comma,
    Colon,
    Boolean(bool),
    Null,
}

impl View for Token {
    type V = SpecToken;

    open spec fn view(&self) -> SpecToken {
        match self {
            Token::BraceOpen => SpecToken::BraceOpen,
            Token::BraceClose => SpecToken::BraceClose,
            Token::BracketOpen => SpecToken::BracketOpen,
            Token::BracketClose => SpecToken::BracketClose,
            Token::String(s) => SpecToken::Str(s@),
            Token::Number(s) => SpecToken::Number(s@),
            Token::Comma => SpecToken::Comma,
            Token::Colon => SpecToken::Colon,
            Token::Boolean(b) => SpecToken::Boolean(*b),
            Token::Null => SpecToken::Null,
        }
    }
}

/// The model of a token sequence.
pub open spec fn tokens_view(ts: Seq<Token>) -> Seq<SpecToken> {
    ts.map_values(|t: Token| t@)
}

} // verus!
