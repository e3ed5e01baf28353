//! The recursive-descent parser: a token sequence to a value tree.
use vstd::prelude::*;

use crate::token::{SpecToken, Token, tokens_view};
use crate::value::{
    SpecValue, Value, entries_view, insert_entry, lemma_array_view, lemma_object_view, obj_insert,
    values_view,
};

verus! {

/// Why a token sequence is not one JSON value.
#[derive(Clone, Copy, Debug, PartialEq, Eq, Structural)]
pub enum ParseError {
    /// A token that cannot start a value, and its index.
    UnexpectedToken(usize),
    ExpectedKey,
    ExpectedColon,
    ExpectedCommaOrBraceClose,
    ExpectedCommaOrBracketClose,
    TrailingComma,
    TrailingTokens,
    UnexpectedEndOfInput,
    /// The tokens nest deeper than the limit that the caller set.
    NestingTooDeep,
}

/// The value that starts at token `p`, and the index after it.
pub open spec fn value_at(ts: Seq<SpecToken>, p: int) -> Result<(SpecValue, int), ParseError>
    decreases ts.len() - p, 0int,
{
    if p < 0 || p >= ts.len() {
        Err(ParseError::UnexpectedEndOfInput)
    } else {
        match ts[p] {
            SpecToken::BraceOpen => object_at(ts, p + 1),
            SpecToken::BracketOpen => array_at(ts, p + 1),
            SpecToken::Str(s) => Ok((SpecValue::Str(s), p + 1)),
            SpecToken::Number(s) => Ok((SpecValue::Number(s), p + 1)),
            SpecToken::Boolean(b) => Ok((SpecValue::Boolean(b), p + 1)),
            SpecToken::Null => Ok((SpecValue::Null, p + 1)),
            _ => Err(ParseError::UnexpectedToken(p as usize)),
        }
    }
}

/// The object whose opening brace stands just before token `q`.
pub open spec fn object_at(ts: Seq<SpecToken>, q: int) -> Result<(SpecValue, int), ParseError>
    decreases ts.len() - q, 2int,
{
    if 0 <= q < ts.len() && ts[q] == SpecToken::BraceClose {
        Ok((SpecValue::Object(Seq::empty()), q + 1))
    } else {
        members_at(ts, q, Seq::empty())
    }
}

/// The members of an object from the key at token `q` on, added to `acc`.
pub open spec fn members_at(
    ts: Seq<SpecToken>,
    q: int,
    acc: Seq<(Seq<char>, SpecValue)>,
) -> Result<(SpecValue, int), ParseError>
    decreases ts.len() - q, 1int,
{
    if q < 0 || q >= ts.len() {
        Err(ParseError::UnexpectedEndOfInput)
    } else if !(ts[q] is Str) {
        Err(ParseError::ExpectedKey)
    } else if q + 1 >= ts.len() {
        Err(ParseError::UnexpectedEndOfInput)
    } else if ts[q + 1] != SpecToken::Colon {
        Err(ParseError::ExpectedColon)
    } else {
        match value_at(ts, q + 2) {
            Err(x) => Err(x),
            Ok((v, e)) => {
                let m = obj_insert(acc, ts[q]->Str_0, v);
                // a value spans at least one token
                if e <= q || e >= ts.len() {
                    Err(ParseError::UnexpectedEndOfInput)
                } else if ts[e] == SpecToken::BraceClose {
                    Ok((SpecValue::Object(m), e + 1))
                } else if ts[e] != SpecToken::Comma {
                    Err(ParseError::ExpectedCommaOrBraceClose)
                } else if e + 1 < ts.len() && ts[e + 1] == SpecToken::BraceClose {
                    Err(ParseError::TrailingComma)
                } else {
                    members_at(ts, e + 1, m)
                }
            },
        }
    }
}

/// The array whose opening bracket stands just before token `q`.
pub open spec fn array_at(ts: Seq<SpecToken>, q: int) -> Result<(SpecValue, int), ParseError>
    decreases ts.len() - q, 2int,
{
    if 0 <= q < ts.len() && ts[q] == SpecToken::BracketClose {
        Ok((SpecValue::Array(Seq::empty()), q + 1))
    } else {
        elements_at(ts, q, Seq::empty())
    }
}

/// The elements of an array from token `q` on, added to `acc`.
pub open spec fn elements_at(ts: Seq<SpecToken>, q: int, acc: Seq<SpecValue>) -> Result<
    (SpecValue, int),
    ParseError,
>
    decreases ts.len() - q, 1int,
{
    match value_at(ts, q) {
        Err(x) => Err(x),
        Ok((v, e)) => {
            // a value spans at least one token
            if e <= q || e >= ts.len() {
                Err(ParseError::UnexpectedEndOfInput)
            } else if ts[e] == SpecToken::BracketClose {
                Ok((SpecValue::Array(acc.push(v)), e + 1))
            } else if ts[e] != SpecToken::Comma {
                Err(ParseError::ExpectedCommaOrBracketClose)
            } else if e + 1 < ts.len() && ts[e + 1] == SpecToken::BracketClose {
                Err(ParseError::TrailingComma)
            } else {
                elements_at(ts, e + 1, acc.push(v))
            }
        },
    }
}

/// The one value that the whole token sequence spells.
pub open spec fn parse_tokens(ts: Seq<SpecToken>) -> Result<SpecValue, ParseError> {
    match value_at(ts, 0) {
        Err(x) => Err(x),
        Ok((v, e)) => if e == ts.len() {
            Ok(v)
        } else {
            Err(ParseError::TrailingTokens)
        },
    }
}

fn parse_value(ts: &Vec<Token>, p: usize) -> (r: Result<(Value, usize), ParseError>)
    requires
        p <= ts.len(),
    ensures
        match r {
            Ok((v, e)) => value_at(tokens_view(ts@), p as int) == Ok::<
                (SpecValue, int),
                ParseError,
            >((v@, e as int)) && p < e <= ts.len(),
            Err(x) => value_at(tokens_view(ts@), p as int) == Err::<(SpecValue, int), ParseError>(
                x,
            ),
        },
    decreases ts.len() - p, 0int,
{
    if p >= ts.len() {
        return Err(ParseError::UnexpectedEndOfInput);
    }
    match &ts[p] {
        Token::BraceOpen => parse_object(ts, p + 1),
        Token::BracketOpen => parse_array(ts, p + 1),
        Token::String(s) => Ok((Value::String(s.clone()), p + 1)),
        Token::Number(s) => Ok((Value::Number(s.clone()), p + 1)),
        Token::Boolean(b) => Ok((Value::Boolean(*b), p + 1)),
        Token::Null => Ok((Value::Null, p + 1)),
        _ => Err(ParseError::UnexpectedToken(p)),
    }
}

fn parse_object(ts: &Vec<Token>, q: usize) -> (r: Result<(Value, usize), ParseError>)
    requires
        1 <= q <= ts.len(),
    ensures
        match r {
            Ok((v, e)) => object_at(tokens_view(ts@), q as int) == Ok::<
                (SpecValue, int),
                ParseError,
            >((v@, e as int)) && q < e <= ts.len(),
            Err(x) => object_at(tokens_view(ts@), q as int) == Err::<(SpecValue, int), ParseError>(
                x,
            ),
        },
    decreases ts.len() - q, 1int,
{
    let ghost tv = tokens_view(ts@);
    let n = ts.len();
    if q < n {
        if let Token::BraceClose = &ts[q] {
            let empty: Vec<(String, Value)> = Vec::new();
            proof {
                lemma_object_view(empty);
                assert(entries_view(empty@) =~= Seq::empty());
            }
            let r = Value::Object(empty);
            return Ok((r, q + 1));
        }
    }
    let mut entries: Vec<(String, Value)> = Vec::new();
    let mut x: usize = q;
    assert(entries_view(entries@) =~= Seq::empty());
    loop
        invariant
            q <= x <= n == ts.len(),
            tv == tokens_view(ts@),
            object_at(tv, q as int) == members_at(tv, x as int, entries_view(entries@)),
        decreases n - x,
    {
        if x >= n {
            return Err(ParseError::UnexpectedEndOfInput);
        }
        let key = match &ts[x] {
            Token::String(k) => k.clone(),
            _ => return Err(ParseError::ExpectedKey),
        };
        if x + 1 >= n {
            return Err(ParseError::UnexpectedEndOfInput);
        }
        match &ts[x + 1] {
            Token::Colon => {},
            _ => return Err(ParseError::ExpectedColon),
        }
        let (v, e) = match parse_value(ts, x + 2) {
            Err(err) => return Err(err),
            Ok(res) => res,
        };
        insert_entry(&mut entries, key, v);
        if e >= n {
            return Err(ParseError::UnexpectedEndOfInput);
        }
        match &ts[e] {
            Token::BraceClose => {
                proof {
                    lemma_object_view(entries);
                }
                let r = Value::Object(entries);
                return Ok((r, e + 1));
            },
            Token::Comma => {},
            _ => return Err(ParseError::ExpectedCommaOrBraceClose),
        }
        if e + 1 < n {
            if let Token::BraceClose = &ts[e + 1] {
                return Err(ParseError::TrailingComma);
            }
        }
        x = e + 1;
    }
}

fn parse_array(ts: &Vec<Token>, q: usize) -> (r: Result<(Value, usize), ParseError>)
    requires
        1 <= q <= ts.len(),
    ensures
        match r {
            Ok((v, e)) => array_at(tokens_view(ts@), q as int) == Ok::<
                (SpecValue, int),
                ParseError,
            >((v@, e as int)) && q < e <= ts.len(),
            Err(x) => array_at(tokens_view(ts@), q as int) == Err::<(SpecValue, int), ParseError>(
                x,
            ),
        },
    decreases ts.len() - q, 1int,
{
    let ghost tv = tokens_view(ts@);
    let n = ts.len();
    if q < n {
        if let Token::BracketClose = &ts[q] {
            let empty: Vec<Value> = Vec::new();
            proof {
                lemma_array_view(empty);
                assert(values_view(empty@) =~= Seq::empty());
            }
            let r = Value::Array(empty);
            return Ok((r, q + 1));
        }
    }
    let mut items: Vec<Value> = Vec::new();
    let mut x: usize = q;
    assert(values_view(items@) =~= Seq::empty());
    loop
        invariant
            q <= x <= n == ts.len(),
            tv == tokens_view(ts@),
            array_at(tv, q as int) == elements_at(tv, x as int, values_view(items@)),
        decreases n - x,
    {
        let (v, e) = match parse_value(ts, x) {
            Err(err) => return Err(err),
            Ok(res) => res,
        };
        let ghost before = values_view(items@);
        items.push(v);
        assert(values_view(items@) =~= before.push(v@));
        if e >= n {
            return Err(ParseError::UnexpectedEndOfInput);
        }
        match &ts[e] {
            Token::BracketClose => {
                proof {
                    lemma_array_view(items);
                }
                let r = Value::Array(items);
                return Ok((r, e + 1));
            },
            Token::Comma => {},
            _ => return Err(ParseError::ExpectedCommaOrBracketClose),
        }
        if e + 1 < n {
            if let Token::BracketClose = &ts[e + 1] {
                return Err(ParseError::TrailingComma);
            }
        }
        x = e + 1;
    }
}

/// Parses a token sequence as exactly one JSON value.
pub fn parse(tokens: &Vec<Token>) -> (r: Result<Value, ParseError>)
    ensures
        match r {
            Ok(v) => parse_tokens(tokens_view(tokens@)) == Ok::<SpecValue, ParseError>(v@),
            Err(x) => parse_tokens(tokens_view(tokens@)) == Err::<SpecValue, ParseError>(x),
        },
{
    match parse_value(tokens, 0) {
        Err(x) => Err(x),
        Ok((v, e)) => if e == tokens.len() {
            Ok(v)
        } else {
            Err(ParseError::TrailingTokens)
        },
    }
}

pub open spec fn opens(t: SpecToken) -> bool {
    t == SpecToken::BraceOpen || t == SpecToken::BracketOpen
}

pub open spec fn closes(t: SpecToken) -> bool {
    t == SpecToken::BraceClose || t == SpecToken::BracketClose
}

/// The nesting depth after the first `n` tokens: an opening brace or
/// bracket adds a level, a closing one takes a level away while one is open.
pub open spec fn depth_after(ts: Seq<SpecToken>, n: int) -> int
    decreases n,
{
    if n <= 0 {
        0
    } else {
        let d = depth_after(ts, n - 1);
        if opens(ts[n - 1]) {
            d + 1
        } else if closes(ts[n - 1]) && d > 0 {
            d - 1
        } else {
            d
        }
    }
}

/// Some prefix of the tokens nests deeper than `limit`.
pub open spec fn too_deep(ts: Seq<SpecToken>, limit: int) -> bool {
    exists|n: int| 0 <= n <= ts.len() && #[trigger] depth_after(ts, n) > limit
}

/// Parses like `parse`, but first refuses tokens that nest deeper than
/// `max_depth`, which bounds the depth of the recursion.
pub fn parse_with_limit(tokens: &Vec<Token>, max_depth: usize) -> (r: Result<Value, ParseError>)
    ensures
        too_deep(tokens_view(tokens@), max_depth as int) ==> r == Err::<Value, ParseError>(
            ParseError::NestingTooDeep,
        ),
        !too_deep(tokens_view(tokens@), max_depth as int) ==> match r {
            Ok(v) => parse_tokens(tokens_view(tokens@)) == Ok::<SpecValue, ParseError>(v@),
            Err(x) => parse_tokens(tokens_view(tokens@)) == Err::<SpecValue, ParseError>(x),
        },
{
    let ghost tv = tokens_view(tokens@);
    let mut depth: usize = 0;
    let mut i: usize = 0;
    while i < tokens.len()
        invariant
            i <= tokens.len(),
            tv == tokens_view(tokens@),
            depth as int == depth_after(tv, i as int),
            depth <= i,
            forall|n: int| 0 <= n <= i ==> #[trigger] depth_after(tv, n) <= max_depth,
        decreases tokens.len() - i,
    {
        match &tokens[i] {
            Token::BraceOpen | Token::BracketOpen => {
                depth = depth + 1;
            },
            Token::BraceClose | Token::BracketClose => {
                if depth > 0 {
                    depth = depth - 1;
                }
            },
            _ => {},
        }
        i = i + 1;
        if depth > max_depth {
            assert(depth_after(tv, i as int) > max_depth);
            return Err(ParseError::NestingTooDeep);
        }
    }
    parse(tokens)
}

} // verus!
