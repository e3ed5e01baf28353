//! The scanner: JSON text to a sequence of tokens.
use vstd::prelude::*;

use crate::token::{SpecToken, Token, tokens_view};

verus! {

/// Why a text could not be scanned.
#[derive(Clone, Copy, Debug, PartialEq, Eq, Structural)]
pub enum LexError {
    UnterminatedString,
    InvalidEscape,
    UnknownLiteral,
    InvalidNumber,
    /// A character that starts no token, and its offset in characters.
    UnexpectedCharacter(char, usize),
}

/// The character classes whose maximal runs the scanner reads.
#[derive(Clone, Copy, Debug, PartialEq, Eq, Structural)]
pub enum CharClass {
    /// ASCII letters, digits and `_`: the run that a literal word spans.
    Word,
    /// Digits, signs, `.`, `e` and `E`: the run that a number spans.
    Numeric,
    /// The decimal digits.
    Digit,
}

pub open spec fn is_ws(c: char) -> bool {
    c == ' ' || c == '\t' || c == '\n' || c == '\r'
}

pub open spec fn is_digit(c: char) -> bool {
    '0' <= c && c <= '9'
}

pub open spec fn is_hex(c: char) -> bool {
    is_digit(c) || ('a' <= c && c <= 'f') || ('A' <= c && c <= 'F')
}

pub open spec fn hex_val(c: char) -> int {
    if is_digit(c) {
        c as int - '0' as int
    } else if 'a' <= c && c <= 'f' {
        c as int - 'a' as int + 10
    } else {
        c as int - 'A' as int + 10
    }
}

pub open spec fn in_class(c: char, k: CharClass) -> bool {
    match k {
        CharClass::Word => ('a' <= c && c <= 'z') || ('A' <= c && c <= 'Z') || is_digit(c) || c
            == '_',
        CharClass::Numeric => is_digit(c) || c == '-' || c == '+' || c == '.' || c == 'e' || c
            == 'E',
        CharClass::Digit => is_digit(c),
    }
}

/// The end of the maximal run of characters of class `k` that starts at `i`.
pub open spec fn run_end(s: Seq<char>, i: int, k: CharClass) -> int
    decreases s.len() - i,
{
    if 0 <= i < s.len() && in_class(s[i], k) {
        run_end(s, i + 1, k)
    } else {
        i
    }
}

/// The JSON number grammar:
/// `-`? (`0` | [1-9][0-9]*) (`.` [0-9]+)? ([eE] [+-]? [0-9]+)?
pub open spec fn valid_number(t: Seq<char>) -> bool {
    let a = if t.len() > 0 && t[0] == '-' { 1int } else { 0int };
    let b = run_end(t, a, CharClass::Digit);
    let int_ok = b > a && (t[a] != '0' || b == a + 1);
    let has_frac = b < t.len() && t[b] == '.';
    let c = if has_frac { run_end(t, b + 1, CharClass::Digit) } else { b };
    let frac_ok = !has_frac || c > b + 1;
    let has_exp = c < t.len() && (t[c] == 'e' || t[c] == 'E');
    let d = if has_exp && c + 1 < t.len() && (t[c + 1] == '+' || t[c + 1] == '-') {
        c + 2
    } else if has_exp {
        c + 1
    } else {
        c
    };
    let e = if has_exp { run_end(t, d, CharClass::Digit) } else { d };
    let exp_ok = !has_exp || e > d;
    int_ok && frac_ok && exp_ok && e == t.len()
}

/// The token that a literal word stands for, if any.
pub open spec fn literal(w: Seq<char>) -> Option<SpecToken> {
    if w == seq!['t', 'r', 'u', 'e'] {
        Some(SpecToken::Boolean(true))
    } else if w == seq!['f', 'a', 'l', 's', 'e'] {
        Some(SpecToken::Boolean(false))
    } else if w == seq!['n', 'u', 'l', 'l'] {
        Some(SpecToken::Null)
    } else {
        None
    }
}

/// The token of a structural character, if it is one.
pub open spec fn punct(c: char) -> Option<SpecToken> {
    if c == '{' {
        Some(SpecToken::BraceOpen)
    } else if c == '}' {
        Some(SpecToken::BraceClose)
    } else if c == '[' {
        Some(SpecToken::BracketOpen)
    } else if c == ']' {
        Some(SpecToken::BracketClose)
    } else if c == ',' {
        Some(SpecToken::Comma)
    } else if c == ':' {
        Some(SpecToken::Colon)
    } else {
        None
    }
}

/// What the escape `\c` stands for, for the one-letter escapes.
pub open spec fn simple_escape(c: char) -> Option<char> {
    if c == '"' {
        Some('"')
    } else if c == '\\' {
        Some('\\')
    } else if c == '/' {
        Some('/')
    } else if c == 'b' {
        Some('\u{8}')
    } else if c == 'f' {
        Some('\u{c}')
    } else if c == 'n' {
        Some('\n')
    } else if c == 'r' {
        Some('\r')
    } else if c == 't' {
        Some('\t')
    } else {
        None
    }
}

/// The scalar value of a character.
pub open spec fn code_of(c: char) -> int {
    c as int
}

/// The character whose scalar value is `code`.
pub open spec fn char_of(code: int) -> char {
    choose|c: char| #[trigger] code_of(c) == code
}

pub open spec fn is_high_surrogate(u: int) -> bool {
    0xD800 <= u <= 0xDBFF
}

pub open spec fn is_low_surrogate(u: int) -> bool {
    0xDC00 <= u <= 0xDFFF
}

/// The value of the `n` hex digits at `j`, read onto `acc`; the input may
/// end first, or hold a character that is no hex digit.
pub open spec fn hex_value(s: Seq<char>, j: int, n: nat, acc: int) -> Result<int, LexError>
    decreases n,
{
    if n == 0 {
        Ok(acc)
    } else if j < 0 || j >= s.len() {
        Err(LexError::UnterminatedString)
    } else if !is_hex(s[j]) {
        Err(LexError::InvalidEscape)
    } else {
        hex_value(s, j + 1, (n - 1) as nat, acc * 16 + hex_val(s[j]))
    }
}

/// The character that the escape starting with the backslash at `i` stands
/// for, and the position after the escape. A `\u` escape of a high
/// surrogate must be followed by a `\u` escape of a low surrogate; the two
/// stand for one character.
pub open spec fn escape_at(s: Seq<char>, i: int) -> Result<(char, int), LexError> {
    if i + 1 >= s.len() {
        Err(LexError::UnterminatedString)
    } else if simple_escape(s[i + 1]) is Some {
        Ok((simple_escape(s[i + 1])->0, i + 2))
    } else if s[i + 1] != 'u' {
        Err(LexError::InvalidEscape)
    } else {
        match hex_value(s, i + 2, 4, 0) {
            Err(e) => Err(e),
            Ok(hi) => {
                if is_low_surrogate(hi) {
                    Err(LexError::InvalidEscape)
                } else if !is_high_surrogate(hi) {
                    Ok((char_of(hi), i + 6))
                } else if i + 6 >= s.len() {
                    Err(LexError::UnterminatedString)
                } else if s[i + 6] != '\\' {
                    Err(LexError::InvalidEscape)
                } else if i + 7 >= s.len() {
                    Err(LexError::UnterminatedString)
                } else if s[i + 7] != 'u' {
                    Err(LexError::InvalidEscape)
                } else {
                    match hex_value(s, i + 8, 4, 0) {
                        Err(e) => Err(e),
                        Ok(lo) => {
                            if !is_low_surrogate(lo) {
                                Err(LexError::InvalidEscape)
                            } else {
                                Ok(
                                    (
                                        char_of(0x10000 + (hi - 0xD800) * 1024 + (lo - 0xDC00)),
                                        i + 12,
                                    ),
                                )
                            }
                        },
                    }
                }
            },
        }
    }
}

/// The text of a string literal whose body starts at `i`, decoded onto
/// `acc`, and the position after its closing quote.
pub open spec fn scan_string(s: Seq<char>, i: int, acc: Seq<char>) -> Result<
    (Seq<char>, int),
    LexError,
>
    decreases s.len() - i,
{
    if i < 0 || i >= s.len() {
        Err(LexError::UnterminatedString)
    } else if s[i] == '"' {
        Ok((acc, i + 1))
    } else if s[i] == '\\' {
        match escape_at(s, i) {
            Err(e) => Err(e),
            Ok((c, j)) => {
                proof {
                    lemma_escape_advances(s, i);
                }
                scan_string(s, j, acc.push(c))
            },
        }
    } else {
        scan_string(s, i + 1, acc.push(s[i]))
    }
}

/// `r` with the tokens `done` put in front, if it is a success.
pub open spec fn lex_with(done: Seq<SpecToken>, r: Result<Seq<SpecToken>, LexError>) -> Result<
    Seq<SpecToken>,
    LexError,
> {
    match r {
        Ok(ts) => Ok(done + ts),
        Err(e) => Err(e),
    }
}

/// The tokens of `s` from position `i` on.
pub open spec fn lex_from(s: Seq<char>, i: int) -> Result<Seq<SpecToken>, LexError>
    decreases s.len() - i,
{
    if i < 0 || i >= s.len() {
        Ok(Seq::empty())
    } else {
        let c = s[i];
        if is_ws(c) {
            lex_from(s, i + 1)
        } else if punct(c) is Some {
            lex_with(seq![punct(c)->0], lex_from(s, i + 1))
        } else if c == '"' {
            match scan_string(s, i + 1, Seq::empty()) {
                Err(e) => Err(e),
                Ok((text, j)) => {
                    proof {
                        lemma_scan_string_advances(s, i + 1, Seq::empty());
                    }
                    lex_with(seq![SpecToken::Str(text)], lex_from(s, j))
                },
            }
        } else if c == 't' || c == 'f' || c == 'n' {
            let j = run_end(s, i, CharClass::Word);
            proof {
                lemma_run_end(s, i + 1, CharClass::Word);
            }
            match literal(s.subrange(i, j)) {
                Some(t) => lex_with(seq![t], lex_from(s, j)),
                None => Err(LexError::UnknownLiteral),
            }
        } else if is_digit(c) || c == '-' {
            let j = run_end(s, i, CharClass::Numeric);
            proof {
                lemma_run_end(s, i + 1, CharClass::Numeric);
            }
            if valid_number(s.subrange(i, j)) {
                lex_with(seq![SpecToken::Number(s.subrange(i, j))], lex_from(s, j))
            } else {
                Err(LexError::InvalidNumber)
            }
        } else {
            Err(LexError::UnexpectedCharacter(c, i as usize))
        }
    }
}

/// The tokens of the text `s`.
pub open spec fn lex(s: Seq<char>) -> Result<Seq<SpecToken>, LexError> {
    lex_from(s, 0)
}

pub proof fn lemma_run_end(s: Seq<char>, i: int, k: CharClass)
    requires
        0 <= i <= s.len(),
    ensures
        i <= run_end(s, i, k) <= s.len(),
        forall|m: int| i <= m < run_end(s, i, k) ==> in_class(#[trigger] s[m], k),
        run_end(s, i, k) < s.len() ==> !in_class(s[run_end(s, i, k)], k),
    decreases s.len() - i,
{
    if i < s.len() && in_class(s[i], k) {
        lemma_run_end(s, i + 1, k);
    }
}

pub proof fn lemma_escape_advances(s: Seq<char>, i: int)
    ensures
        escape_at(s, i) matches Ok((_, j)) ==> i + 2 <= j <= s.len(),
{
    if i + 1 < s.len() && simple_escape(s[i + 1]) is None && s[i + 1] == 'u' {
        lemma_hex_value_in_range(s, i + 2, 4, 0);
        if hex_value(s, i + 2, 4, 0) is Ok {
            lemma_hex_value_in_range(s, i + 8, 4, 0);
        }
    }
}

pub proof fn lemma_hex_value_in_range(s: Seq<char>, j: int, n: nat, acc: int)
    ensures
        hex_value(s, j, n, acc) is Ok && n > 0 ==> j + n <= s.len(),
    decreases n,
{
    if n > 0 && 0 <= j < s.len() && is_hex(s[j]) {
        lemma_hex_value_in_range(s, j + 1, (n - 1) as nat, acc * 16 + hex_val(s[j]));
    }
}

pub proof fn lemma_scan_string_advances(s: Seq<char>, i: int, acc: Seq<char>)
    ensures
        scan_string(s, i, acc) matches Ok((_, j)) ==> i < j <= s.len(),
    decreases s.len() - i,
{
    if 0 <= i < s.len() && s[i] != '"' {
        if s[i] == '\\' {
            lemma_escape_advances(s, i);
            if let Ok((c, j)) = escape_at(s, i) {
                lemma_scan_string_advances(s, j, acc.push(c));
            }
        } else {
            lemma_scan_string_advances(s, i + 1, acc.push(s[i]));
        }
    }
}

pub proof fn lemma_lex_with_push(done: Seq<SpecToken>, t: SpecToken, r: Result<Seq<SpecToken>, LexError>)
    ensures
        lex_with(done, lex_with(seq![t], r)) == lex_with(done.push(t), r),
{
    if let Ok(ts) = r {
        assert(done + (seq![t] + ts) =~= done.push(t) + ts);
    }
}

/// Relies on `char::from_u32`: `Some` exactly for the Unicode scalar values,
/// holding the character of that value.
#[verifier::external_body]
fn char_from_u32(v: u32) -> (r: Option<char>)
    ensures
        r is Some <==> (v <= 0x10FFFF && !(0xD800 <= v <= 0xDFFF)),
        r matches Some(c) ==> code_of(c) == v as int,
{
    char::from_u32(v)
}

/// Relies on `String`'s `FromIterator<&char>`: the string of the characters in order.
#[verifier::external_body]
fn string_from_chars(cs: &Vec<char>) -> (r: String)
    ensures
        r@ == cs@,
{
    String::from_iter(cs.iter())
}

/// The characters of `input`, in order.
fn chars_of(input: &str) -> (r: Vec<char>)
    ensures
        r@ == input@,
{
    let mut out: Vec<char> = Vec::new();
    for c in it: input.chars()
        invariant
            it.seq() == input@,
            out@ == input@.take(it.index() as int),
    {
        out.push(c);
        proof {
            assert(out@ =~= input@.take(it.index() as int + 1));
        }
    }
    assert(out@ =~= input@);
    out
}

fn class_member(c: char, k: CharClass) -> (r: bool)
    ensures
        r == in_class(c, k),
{
    match k {
        CharClass::Word => ('a' <= c && c <= 'z') || ('A' <= c && c <= 'Z') || ('0' <= c && c
            <= '9') || c == '_',
        CharClass::Numeric => ('0' <= c && c <= '9') || c == '-' || c == '+' || c == '.' || c
            == 'e' || c == 'E',
        CharClass::Digit => '0' <= c && c <= '9',
    }
}

fn run_end_of(v: &Vec<char>, i: usize, k: CharClass) -> (j: usize)
    requires
        i <= v.len(),
    ensures
        j == run_end(v@, i as int, k),
{
    let mut j: usize = i;
    while j < v.len() && class_member(v[j], k)
        invariant
            i <= j <= v.len(),
            run_end(v@, i as int, k) == run_end(v@, j as int, k),
        decreases v.len() - j,
    {
        j = j + 1;
    }
    j
}

/// The characters of `v` from `i` up to `j`.
fn slice_chars(v: &Vec<char>, i: usize, j: usize) -> (r: Vec<char>)
    requires
        i <= j <= v.len(),
    ensures
        r@ == v@.subrange(i as int, j as int),
{
    let mut out: Vec<char> = Vec::new();
    let mut m: usize = i;
    while m < j
        invariant
            i <= m <= j <= v.len(),
            out@ == v@.subrange(i as int, m as int),
        decreases j - m,
    {
        out.push(v[m]);
        m = m + 1;
        proof {
            assert(out@ =~= v@.subrange(i as int, m as int));
        }
    }
    out
}

/// Whether `t` is a number in the JSON grammar.
pub fn is_valid_number(t: &Vec<char>) -> (r: bool)
    ensures
        r == valid_number(t@),
{
    let n = t.len();
    let a: usize = if n > 0 && t[0] == '-' { 1 } else { 0 };
    let b = run_end_of(t, a, CharClass::Digit);
    proof {
        lemma_run_end(t@, a as int, CharClass::Digit);
    }
    let int_ok = b > a && (t[a] != '0' || b == a + 1);
    let has_frac = b < n && t[b] == '.';
    let c = if has_frac {
        run_end_of(t, b + 1, CharClass::Digit)
    } else {
        b
    };
    proof {
        if has_frac {
            lemma_run_end(t@, b as int + 1, CharClass::Digit);
        }
    }
    let frac_ok = !has_frac || c > b + 1;
    let has_exp = c < n && (t[c] == 'e' || t[c] == 'E');
    let d = if has_exp && c + 1 < n && (t[c + 1] == '+' || t[c + 1] == '-') {
        c + 2
    } else if has_exp {
        c + 1
    } else {
        c
    };
    let e = if has_exp {
        run_end_of(t, d, CharClass::Digit)
    } else {
        d
    };
    let exp_ok = !has_exp || e > d;
    int_ok && frac_ok && exp_ok && e == n
}

fn literal_token(w: &Vec<char>) -> (r: Option<Token>)
    ensures
        match r {
            Some(t) => literal(w@) == Some(t@),
            None => literal(w@) is None,
        },
{
    let n = w.len();
    if n == 4 && w[0] == 't' && w[1] == 'r' && w[2] == 'u' && w[3] == 'e' {
        assert(w@ =~= seq!['t', 'r', 'u', 'e']);
        Some(Token::Boolean(true))
    } else if n == 5 && w[0] == 'f' && w[1] == 'a' && w[2] == 'l' && w[3] == 's' && w[4] == 'e' {
        assert(w@ =~= seq!['f', 'a', 'l', 's', 'e']);
        Some(Token::Boolean(false))
    } else if n == 4 && w[0] == 'n' && w[1] == 'u' && w[2] == 'l' && w[3] == 'l' {
        assert(w@ =~= seq!['n', 'u', 'l', 'l']);
        Some(Token::Null)
    } else {
        proof {
            if w@ == seq!['t', 'r', 'u', 'e'] {
                assert(w@[0] == 't' && w@[1] == 'r' && w@[2] == 'u' && w@[3] == 'e');
            }
            if w@ == seq!['f', 'a', 'l', 's', 'e'] {
                assert(w@[0] == 'f' && w@[1] == 'a' && w@[2] == 'l' && w@[3] == 's' && w@[4]
                    == 'e');
            }
            if w@ == seq!['n', 'u', 'l', 'l'] {
                assert(w@[0] == 'n' && w@[1] == 'u' && w@[2] == 'l' && w@[3] == 'l');
            }
        }
        None
    }
}

fn punct_token(c: char) -> (r: Option<Token>)
    ensures
        match r {
            Some(t) => punct(c) == Some(t@),
            None => punct(c) is None,
        },
{
    if c == '{' {
        Some(Token::BraceOpen)
    } else if c == '}' {
        Some(Token::BraceClose)
    } else if c == '[' {
        Some(Token::BracketOpen)
    } else if c == ']' {
        Some(Token::BracketClose)
    } else if c == ',' {
        Some(Token::Comma)
    } else if c == ':' {
        Some(Token::Colon)
    } else {
        None
    }
}

fn simple_escape_of(c: char) -> (r: Option<char>)
    ensures
        r == simple_escape(c),
{
    if c == '"' {
        Some('"')
    } else if c == '\\' {
        Some('\\')
    } else if c == '/' {
        Some('/')
    } else if c == 'b' {
        Some('\u{8}')
    } else if c == 'f' {
        Some('\u{c}')
    } else if c == 'n' {
        Some('\n')
    } else if c == 'r' {
        Some('\r')
    } else if c == 't' {
        Some('\t')
    } else {
        None
    }
}

fn hex_digit_value(c: char) -> (r: u32)
    requires
        is_hex(c),
    ensures
        r as int == hex_val(c),
        r < 16,
{
    if '0' <= c && c <= '9' {
        (c as u32) - ('0' as u32)
    } else if 'a' <= c && c <= 'f' {
        (c as u32) - ('a' as u32) + 10
    } else {
        (c as u32) - ('A' as u32) + 10
    }
}

/// The value of the four hex digits at `j`.
fn hex4(v: &Vec<char>, j: usize) -> (r: Result<u32, LexError>)
    requires
        j <= v.len(),
    ensures
        match r {
            Ok(x) => hex_value(v@, j as int, 4, 0) == Ok::<int, LexError>(x as int) && x < 0x10000,
            Err(e) => hex_value(v@, j as int, 4, 0) == Err::<int, LexError>(e),
        },
{
    let mut acc: u32 = 0;
    let mut pos: usize = j;
    let mut k: usize = 0;
    while k < 4
        invariant
            k <= 4,
            pos == j + k,
            pos <= v.len(),
            hex_value(v@, j as int, 4, 0) == hex_value(v@, pos as int, (4 - k) as nat, acc as int),
            k == 0 ==> acc == 0,
            k == 1 ==> acc < 0x10,
            k == 2 ==> acc < 0x100,
            k == 3 ==> acc < 0x1000,
            k == 4 ==> acc < 0x10000,
        decreases 4 - k,
    {
        if pos >= v.len() {
            return Err(LexError::UnterminatedString);
        }
        let c = v[pos];
        if !(('0' <= c && c <= '9') || ('a' <= c && c <= 'f') || ('A' <= c && c <= 'F')) {
            return Err(LexError::InvalidEscape);
        }
        let d = hex_digit_value(c);
        acc = acc * 16 + d;
        pos = pos + 1;
        k = k + 1;
    }
    Ok(acc)
}

/// The character of a scalar value that is known to be one.
fn scalar_char(code: u32) -> (c: char)
    requires
        code <= 0x10FFFF,
        !(0xD800 <= code <= 0xDFFF),
    ensures
        c == char_of(code as int),
{
    match char_from_u32(code) {
        Some(c) => {
            assert(code_of(c) == code as int);
            let ghost d = char_of(code as int);
            assert(code_of(d) == code as int);
            assert(c == d);
            c
        },
        None => {
            assert(false);
            ' '
        },
    }
}

/// The escape that starts with the backslash at `i`.
fn read_escape(v: &Vec<char>, i: usize) -> (r: Result<(char, usize), LexError>)
    requires
        i < v.len(),
    ensures
        match r {
            Ok((c, j)) => escape_at(v@, i as int) == Ok::<(char, int), LexError>((c, j as int)),
            Err(e) => escape_at(v@, i as int) == Err::<(char, int), LexError>(e),
        },
{
    let n = v.len();
    if i + 1 >= n {
        return Err(LexError::UnterminatedString);
    }
    if let Some(c) = simple_escape_of(v[i + 1]) {
        return Ok((c, i + 2));
    }
    if v[i + 1] != 'u' {
        return Err(LexError::InvalidEscape);
    }
    let hi = match hex4(v, i + 2) {
        Err(e) => return Err(e),
        Ok(x) => x,
    };
    proof {
        lemma_hex_value_in_range(v@, i + 2, 4, 0);
    }
    if 0xDC00 <= hi && hi <= 0xDFFF {
        return Err(LexError::InvalidEscape);
    }
    if !(0xD800 <= hi && hi <= 0xDBFF) {
        return Ok((scalar_char(hi), i + 6));
    }
    if i + 6 >= n {
        return Err(LexError::UnterminatedString);
    }
    if v[i + 6] != '\\' {
        return Err(LexError::InvalidEscape);
    }
    if i + 7 >= n {
        return Err(LexError::UnterminatedString);
    }
    if v[i + 7] != 'u' {
        return Err(LexError::InvalidEscape);
    }
    let lo = match hex4(v, i + 8) {
        Err(e) => return Err(e),
        Ok(x) => x,
    };
    proof {
        lemma_hex_value_in_range(v@, i + 8, 4, 0);
    }
    if !(0xDC00 <= lo && lo <= 0xDFFF) {
        return Err(LexError::InvalidEscape);
    }
    let code: u32 = 0x10000 + (hi - 0xD800) * 1024 + (lo - 0xDC00);
    Ok((scalar_char(code), i + 12))
}

/// The string literal whose body starts at `start`: its decoded text and
/// the position after its closing quote.
fn read_string(v: &Vec<char>, start: usize) -> (r: Result<(String, usize), LexError>)
    requires
        start <= v.len(),
    ensures
        match r {
            Ok((text, j)) => scan_string(v@, start as int, Seq::empty()) == Ok::<
                (Seq<char>, int),
                LexError,
            >((text@, j as int)),
            Err(e) => scan_string(v@, start as int, Seq::empty()) == Err::<
                (Seq<char>, int),
                LexError,
            >(e),
        },
{
    let mut acc: Vec<char> = Vec::new();
    let mut i: usize = start;
    while i < v.len()
        invariant
            start <= i <= v.len(),
            scan_string(v@, start as int, Seq::empty()) == scan_string(v@, i as int, acc@),
        decreases v.len() - i,
    {
        let c = v[i];
        if c == '"' {
            let text = string_from_chars(&acc);
            return Ok((text, i + 1));
        } else if c == '\\' {
            match read_escape(v, i) {
                Err(e) => return Err(e),
                Ok((d, j)) => {
                    proof {
                        lemma_escape_advances(v@, i as int);
                    }
                    acc.push(d);
                    i = j;
                },
            }
        } else {
            acc.push(c);
            i = i + 1;
        }
    }
    Err(LexError::UnterminatedString)
}

/// Scans `input` into tokens: whitespace between tokens is dropped, and the
/// first character that breaks the token grammar decides the error.
pub fn tokenize(input: String) -> (r: Result<Vec<Token>, LexError>)
    ensures
        match r {
            Ok(ts) => lex(input@) == Ok::<Seq<SpecToken>, LexError>(tokens_view(ts@)),
            Err(e) => lex(input@) == Err::<Seq<SpecToken>, LexError>(e),
        },
{
    let s = chars_of(input.as_str());
    let n = s.len();
    let mut tokens: Vec<Token> = Vec::new();
    let mut i: usize = 0;
    while i < n
        invariant
            i <= n == s.len(),
            s@ == input@,
            lex(s@) == lex_with(tokens_view(tokens@), lex_from(s@, i as int)),
        decreases n - i,
    {
        let c = s[i];
        let ghost done = tokens_view(tokens@);
        if c == ' ' || c == '\t' || c == '\n' || c == '\r' {
            i = i + 1;
        } else if let Some(t) = punct_token(c) {
            proof {
                lemma_lex_with_push(done, t@, lex_from(s@, i + 1));
            }
            tokens.push(t);
            i = i + 1;
        } else if c == '"' {
            match read_string(&s, i + 1) {
                Err(e) => return Err(e),
                Ok((text, j)) => {
                    proof {
                        lemma_scan_string_advances(s@, i + 1, Seq::empty());
                        lemma_lex_with_push(done, SpecToken::Str(text@), lex_from(s@, j as int));
                    }
                    tokens.push(Token::String(text));
                    i = j;
                },
            }
        } else if c == 't' || c == 'f' || c == 'n' {
            let j = run_end_of(&s, i, CharClass::Word);
            proof {
                lemma_run_end(s@, i + 1, CharClass::Word);
            }
            let w = slice_chars(&s, i, j);
            match literal_token(&w) {
                None => return Err(LexError::UnknownLiteral),
                Some(t) => {
                    proof {
                        lemma_lex_with_push(done, t@, lex_from(s@, j as int));
                    }
                    tokens.push(t);
                    i = j;
                },
            }
        } else if ('0' <= c && c <= '9') || c == '-' {
            let j = run_end_of(&s, i, CharClass::Numeric);
            proof {
                lemma_run_end(s@, i + 1, CharClass::Numeric);
            }
            let w = slice_chars(&s, i, j);
            if !is_valid_number(&w) {
                return Err(LexError::InvalidNumber);
            }
            let text = string_from_chars(&w);
            proof {
                lemma_lex_with_push(done, SpecToken::Number(text@), lex_from(s@, j as int));
            }
            tokens.push(Token::Number(text));
            i = j;
        } else {
            return Err(LexError::UnexpectedCharacter(c, i));
        }
        proof {
            assert(tokens_view(tokens@) =~= done.push(tokens@.last()@) || tokens_view(tokens@)
                =~= done);
        }
    }
    Ok(tokens)
}

} // verus!
