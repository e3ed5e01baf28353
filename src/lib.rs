//! A JSON front end: a scanner from text to tokens and a recursive-descent
//! parser from tokens to a tree of values, each specified by spec functions
//! that spell out the grammar.
use vstd::prelude::*;

pub mod token;
pub mod lexer;
pub mod lexer_laws;
pub mod value;
pub mod parser;
pub mod laws;

use crate::lexer::{LexError, lex, tokenize};
use crate::parser::{ParseError, parse, parse_tokens};
use crate::value::{SpecValue, Value};

verus! {

/// Why a text is not one JSON value: it does not scan, or its tokens do not parse.
#[derive(Clone, Copy, Debug, PartialEq, Eq, Structural)]
pub enum JsonError {
    Lex(LexError),
    Parse(ParseError),
}

/// The value that the text `s` spells.
pub open spec fn parse_text(s: Seq<char>) -> Result<SpecValue, JsonError> {
    match lex(s) {
        Err(e) => Err(JsonError::Lex(e)),
        Ok(ts) => match parse_tokens(ts) {
            Ok(v) => Ok(v),
            Err(x) => Err(JsonError::Parse(x)),
        },
    }
}

/// Scans and parses `input` as one JSON value.
pub fn parse_json(input: String) -> (r: Result<Value, JsonError>)
    ensures
        match r {
            Ok(v) => parse_text(input@) == Ok::<SpecValue, JsonError>(v@),
            Err(e) => parse_text(input@) == Err::<SpecValue, JsonError>(e),
        },
{
    match tokenize(input) {
        Err(e) => Err(JsonError::Lex(e)),
        Ok(tokens) => match parse(&tokens) {
            Ok(v) => Ok(v),
            Err(x) => Err(JsonError::Parse(x)),
        },
    }
}

} // verus!
