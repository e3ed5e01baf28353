//! Laws of the scanner: what lies on either side of whitespace is scanned
//! on its own.
use vstd::prelude::*;

use crate::lexer::{
    CharClass, LexError, escape_at, hex_val, hex_value, in_class, is_digit, is_high_surrogate,
    is_ws, lemma_escape_advances, lemma_run_end, lemma_scan_string_advances, lex, lex_from,
    lex_with, literal, punct, run_end, scan_string, simple_escape, valid_number,
};
use crate::laws::lemma_window;
use crate::token::SpecToken;

verus! {

proof fn lemma_lex_with_concat(x: Seq<SpecToken>, y: Seq<SpecToken>, r: Result<Seq<SpecToken>, LexError>)
    ensures
        lex_with(x, lex_with(y, r)) == lex_with(x + y, r),
{
    if let Ok(ts) = r {
        assert(x + (y + ts) =~= (x + y) + ts);
    }
}

proof fn lemma_run_prefix(a: Seq<char>, r: Seq<char>, i: int, k: CharClass)
    requires
        0 <= i <= a.len(),
        r.len() > 0,
        !in_class(r[0], k),
    ensures
        run_end(a + r, i, k) == run_end(a, i, k),
    decreases a.len() - i,
{
    if i < a.len() {
        assert((a + r)[i] == a[i]);
        lemma_run_prefix(a, r, i + 1, k);
    } else {
        assert((a + r)[i] == r[0]);
    }
}

proof fn lemma_hex_prefix(a: Seq<char>, r: Seq<char>, j: int, n: nat, acc: int)
    requires
        hex_value(a, j, n, acc) is Ok,
    ensures
        hex_value(a + r, j, n, acc) == hex_value(a, j, n, acc),
    decreases n,
{
    if n > 0 {
        assert((a + r)[j] == a[j]);
        lemma_hex_prefix(a, r, j + 1, (n - 1) as nat, acc * 16 + hex_val(a[j]));
    }
}

proof fn lemma_escape_prefix(a: Seq<char>, r: Seq<char>, i: int)
    requires
        0 <= i,
        escape_at(a, i) is Ok,
    ensures
        escape_at(a + r, i) == escape_at(a, i),
{
    let s = a + r;
    assert(s[i + 1] == a[i + 1]);
    if simple_escape(a[i + 1]) is None {
        lemma_hex_prefix(a, r, i + 2, 4, 0);
        if let Ok(hi) = hex_value(a, i + 2, 4, 0) {
            if is_high_surrogate(hi) {
                assert(s[i + 6] == a[i + 6]);
                assert(s[i + 7] == a[i + 7]);
                lemma_hex_prefix(a, r, i + 8, 4, 0);
            }
        }
    }
}

proof fn lemma_scan_prefix(a: Seq<char>, r: Seq<char>, i: int, acc: Seq<char>)
    requires
        0 <= i,
        scan_string(a, i, acc) is Ok,
    ensures
        scan_string(a + r, i, acc) == scan_string(a, i, acc),
    decreases a.len() - i,
{
    assert((a + r)[i] == a[i]);
    if a[i] == '\\' {
        lemma_escape_prefix(a, r, i);
        lemma_escape_advances(a, i);
        if let Ok((c, j)) = escape_at(a, i) {
            lemma_scan_prefix(a, r, j, acc.push(c));
        }
    } else if a[i] != '"' {
        lemma_scan_prefix(a, r, i + 1, acc.push(a[i]));
    }
}

/// Scanning `a` followed by text that starts with whitespace: the tokens of
/// `a` come first, whatever follows.
proof fn lemma_lex_prefix(a: Seq<char>, r: Seq<char>, i: int)
    requires
        0 <= i <= a.len(),
        lex_from(a, i) is Ok,
        r.len() > 0,
        is_ws(r[0]),
    ensures
        lex_from(a + r, i) == lex_with(lex_from(a, i)->Ok_0, lex_from(a + r, a.len() as int)),
    decreases a.len() - i,
{
    let s = a + r;
    if i == a.len() {
        if let Ok(ts) = lex_from(s, i) {
            assert(Seq::<SpecToken>::empty() + ts =~= ts);
        }
    } else {
        let c = a[i];
        assert(s[i] == c);
        let rest = lex_from(s, a.len() as int);
        if is_ws(c) {
            lemma_lex_prefix(a, r, i + 1);
        } else if punct(c) is Some {
            lemma_lex_prefix(a, r, i + 1);
            lemma_lex_with_concat(seq![punct(c)->0], lex_from(a, i + 1)->Ok_0, rest);
        } else if c == '"' {
            lemma_scan_prefix(a, r, i + 1, Seq::empty());
            lemma_scan_string_advances(a, i + 1, Seq::empty());
            let (text, j) = scan_string(a, i + 1, Seq::empty())->Ok_0;
            lemma_lex_prefix(a, r, j);
            lemma_lex_with_concat(seq![SpecToken::Str(text)], lex_from(a, j)->Ok_0, rest);
        } else {
            let k = if c == 't' || c == 'f' || c == 'n' {
                CharClass::Word
            } else {
                CharClass::Numeric
            };
            lemma_run_prefix(a, r, i, k);
            lemma_run_end(a, i + 1, k);
            let j = run_end(a, i, k);
            assert(s.subrange(i, j) =~= a.subrange(i, j));
            lemma_lex_prefix(a, r, j);
            if c == 't' || c == 'f' || c == 'n' {
                let t = literal(a.subrange(i, j))->0;
                lemma_lex_with_concat(seq![t], lex_from(a, j)->Ok_0, rest);
            } else {
                lemma_lex_with_concat(
                    seq![SpecToken::Number(a.subrange(i, j))],
                    lex_from(a, j)->Ok_0,
                    rest,
                );
            }
        }
    }
}

proof fn lemma_skip_ws(s: Seq<char>, i: int, j: int)
    requires
        0 <= i <= j <= s.len(),
        forall|m: int| i <= m < j ==> is_ws(#[trigger] s[m]),
    ensures
        lex_from(s, i) == lex_from(s, j),
    decreases j - i,
{
    if i < j {
        lemma_skip_ws(s, i + 1, j);
    }
}

proof fn lemma_run_shift(p: Seq<char>, b: Seq<char>, i: int, k: CharClass)
    requires
        0 <= i <= b.len(),
    ensures
        run_end(p + b, p.len() + i, k) == p.len() + run_end(b, i, k),
    decreases b.len() - i,
{
    if i < b.len() {
        assert((p + b)[p.len() + i] == b[i]);
        lemma_run_shift(p, b, i + 1, k);
    }
}

proof fn lemma_hex_shift(p: Seq<char>, b: Seq<char>, j: int, n: nat, acc: int)
    requires
        0 <= j,
    ensures
        hex_value(p + b, p.len() + j, n, acc) == hex_value(b, j, n, acc),
    decreases n,
{
    if n > 0 && j < b.len() {
        assert((p + b)[p.len() + j] == b[j]);
        lemma_hex_shift(p, b, j + 1, (n - 1) as nat, acc * 16 + hex_val(b[j]));
    }
}

proof fn lemma_escape_shift(p: Seq<char>, b: Seq<char>, i: int)
    requires
        0 <= i < b.len(),
    ensures
        match escape_at(b, i) {
            Ok((c, j)) => escape_at(p + b, p.len() + i) == Ok::<(char, int), LexError>(
                (c, j + p.len()),
            ),
            Err(e) => escape_at(p + b, p.len() + i) == Err::<(char, int), LexError>(e),
        },
{
    let s = p + b;
    let d = p.len() as int;
    if i + 1 < b.len() {
        assert(s[d + i + 1] == b[i + 1]);
        lemma_hex_shift(p, b, i + 2, 4, 0);
        lemma_hex_shift(p, b, i + 8, 4, 0);
        if i + 6 < b.len() {
            assert(s[d + i + 6] == b[i + 6]);
        }
        if i + 7 < b.len() {
            assert(s[d + i + 7] == b[i + 7]);
        }
        assert(d + i + 2 == d + (i + 2));
        assert(d + i + 8 == d + (i + 8));
    }
}

proof fn lemma_scan_shift(p: Seq<char>, b: Seq<char>, i: int, acc: Seq<char>)
    requires
        0 <= i,
    ensures
        match scan_string(b, i, acc) {
            Ok((text, j)) => scan_string(p + b, p.len() + i, acc) == Ok::<
                (Seq<char>, int),
                LexError,
            >((text, j + p.len())),
            Err(e) => scan_string(p + b, p.len() + i, acc) == Err::<(Seq<char>, int), LexError>(
                e,
            ),
        },
    decreases b.len() - i,
{
    let s = p + b;
    let d = p.len() as int;
    if i < b.len() {
        assert(s[d + i] == b[i]);
        if b[i] == '\\' {
            lemma_escape_shift(p, b, i);
            lemma_escape_advances(b, i);
            if let Ok((c, j)) = escape_at(b, i) {
                lemma_scan_shift(p, b, j, acc.push(c));
            }
        } else if b[i] != '"' {
            lemma_scan_shift(p, b, i + 1, acc.push(b[i]));
        }
    }
}

proof fn lemma_lex_shift(p: Seq<char>, b: Seq<char>, i: int)
    requires
        0 <= i <= b.len(),
        lex_from(b, i) is Ok,
    ensures
        lex_from(p + b, p.len() + i) == lex_from(b, i),
    decreases b.len() - i,
{
    let s = p + b;
    let d = p.len() as int;
    if i < b.len() {
        let c = b[i];
        assert(s[d + i] == c);
        if is_ws(c) || punct(c) is Some {
            lemma_lex_shift(p, b, i + 1);
        } else if c == '"' {
            lemma_scan_shift(p, b, i + 1, Seq::empty());
            lemma_scan_string_advances(b, i + 1, Seq::empty());
            let j = scan_string(b, i + 1, Seq::empty())->Ok_0.1;
            lemma_lex_shift(p, b, j);
        } else {
            let k = if c == 't' || c == 'f' || c == 'n' {
                CharClass::Word
            } else {
                CharClass::Numeric
            };
            lemma_run_shift(p, b, i, k);
            lemma_run_end(b, i + 1, k);
            let j = run_end(b, i, k);
            assert(s.subrange(d + i, d + j) =~= b.subrange(i, j));
            lemma_lex_shift(p, b, j);
        }
    }
}

/// Whitespace between two texts that each scan: the tokens of the whole
/// are those of the first text followed by those of the second, so runs of
/// whitespace put between tokens leave the tokens, and the parsed value,
/// unchanged.
pub proof fn lemma_whitespace_between(a: Seq<char>, w: Seq<char>, b: Seq<char>)
    requires
        lex(a) is Ok,
        lex(b) is Ok,
        w.len() > 0,
        forall|m: int| 0 <= m < w.len() ==> is_ws(#[trigger] w[m]),
    ensures
        lex(a + w + b) == Ok::<Seq<SpecToken>, LexError>(lex(a)->Ok_0 + lex(b)->Ok_0),
{
    let s = a + w + b;
    assert(s =~= a + (w + b));
    assert((w + b)[0] == w[0]);
    lemma_lex_prefix(a, w + b, 0);
    assert forall|m: int| a.len() <= m < a.len() + w.len() implies is_ws(#[trigger] s[m]) by {
        assert(s[m] == w[m - a.len()]);
    }
    lemma_skip_ws(s, a.len() as int, (a.len() + w.len()) as int);
    lemma_lex_shift(a + w, b, 0);
}

/// The text of a character inside a string literal: a quote or a
/// backslash is escaped, any other character stands for itself.
pub open spec fn escape_char(c: char) -> Seq<char> {
    if c == '"' || c == '\\' {
        seq!['\\', c]
    } else {
        seq![c]
    }
}

/// The text of the body of a string literal for `s`.
pub open spec fn escape_text(s: Seq<char>) -> Seq<char>
    decreases s.len(),
{
    if s.len() == 0 {
        Seq::empty()
    } else {
        escape_char(s[0]) + escape_text(s.subrange(1, s.len() as int))
    }
}

/// The text of one token.
pub open spec fn token_text(t: SpecToken) -> Seq<char> {
    match t {
        SpecToken::BraceOpen => seq!['{'],
        SpecToken::BraceClose => seq!['}'],
        SpecToken::BracketOpen => seq!['['],
        SpecToken::BracketClose => seq![']'],
        SpecToken::Comma => seq![','],
        SpecToken::Colon => seq![':'],
        SpecToken::Str(s) => seq!['"'] + escape_text(s) + seq!['"'],
        SpecToken::Number(s) => s,
        SpecToken::Boolean(b) => if b {
            seq!['t', 'r', 'u', 'e']
        } else {
            seq!['f', 'a', 'l', 's', 'e']
        },
        SpecToken::Null => seq!['n', 'u', 'l', 'l'],
    }
}

/// The text of a token sequence, one space between each two tokens.
pub open spec fn tokens_text(ts: Seq<SpecToken>) -> Seq<char>
    decreases ts.len(),
{
    if ts.len() == 0 {
        Seq::empty()
    } else if ts.len() == 1 {
        token_text(ts[0])
    } else {
        token_text(ts[0]) + seq![' '] + tokens_text(ts.subrange(1, ts.len() as int))
    }
}

/// A token that the scanner can produce: a number holds a literal of the
/// JSON number grammar.
pub open spec fn token_ok(t: SpecToken) -> bool {
    t is Number ==> valid_number(t->Number_0)
}

proof fn lemma_run_all(s: Seq<char>, i: int, k: CharClass)
    requires
        0 <= i <= s.len(),
        forall|m: int| i <= m < s.len() ==> in_class(#[trigger] s[m], k),
    ensures
        run_end(s, i, k) == s.len(),
    decreases s.len() - i,
{
    if i < s.len() {
        lemma_run_all(s, i + 1, k);
    }
}

proof fn lemma_number_chars(t: Seq<char>)
    requires
        valid_number(t),
    ensures
        t.len() > 0,
        is_digit(t[0]) || t[0] == '-',
        forall|m: int| 0 <= m < t.len() ==> in_class(#[trigger] t[m], CharClass::Numeric),
{
    let a = if t.len() > 0 && t[0] == '-' { 1int } else { 0int };
    lemma_run_end(t, a, CharClass::Digit);
    let b = run_end(t, a, CharClass::Digit);
    let has_frac = b < t.len() && t[b] == '.';
    if has_frac {
        lemma_run_end(t, b + 1, CharClass::Digit);
    }
    let c = if has_frac { run_end(t, b + 1, CharClass::Digit) } else { b };
    let has_exp = c < t.len() && (t[c] == 'e' || t[c] == 'E');
    let d = if has_exp && c + 1 < t.len() && (t[c + 1] == '+' || t[c + 1] == '-') {
        c + 2
    } else if has_exp {
        c + 1
    } else {
        c
    };
    if has_exp {
        lemma_run_end(t, d, CharClass::Digit);
    }
    assert forall|m: int| 0 <= m < t.len() implies in_class(#[trigger] t[m], CharClass::Numeric) by {
        if m < a {
        } else if m < b {
            assert(in_class(t[m], CharClass::Digit));
        } else if has_frac && m == b {
        } else if has_frac && m < c {
            assert(in_class(t[m], CharClass::Digit));
        } else if m == c {
        } else if m < d {
        } else {
            assert(in_class(t[m], CharClass::Digit));
        }
    }
}

/// The body of a string literal for `x`, closed by a quote, is read back as `x`.
proof fn lemma_scan_escaped(s: Seq<char>, i: int, acc: Seq<char>, x: Seq<char>)
    requires
        0 <= i,
        i + escape_text(x).len() < s.len(),
        s.subrange(i, i + escape_text(x).len()) == escape_text(x),
        s[i + escape_text(x).len()] == '"',
    ensures
        scan_string(s, i, acc) == Ok::<(Seq<char>, int), LexError>(
            (acc + x, i + escape_text(x).len() + 1),
        ),
    decreases x.len(),
{
    let ex = escape_text(x);
    if x.len() == 0 {
        assert(acc + x =~= acc);
    } else {
        let c = x[0];
        let rest = x.subrange(1, x.len() as int);
        let ec = escape_char(c);
        let er = escape_text(rest);
        assert(ex == ec + er);
        assert(ex.subrange(ec.len() as int, ec.len() as int + er.len() as int) =~= er);
        lemma_window(s, i, ex, ec.len() as int, er);
        assert(s[i] == s.subrange(i, i + ex.len())[0]);
        if c == '"' || c == '\\' {
            assert(ex[1] == c);
            assert(s[i + 1] == s.subrange(i, i + ex.len())[1]);
        }
        assert(s[i + ex.len()] == s[i + ec.len() + er.len()]);
        lemma_scan_escaped(s, i + ec.len(), acc.push(c), rest);
        assert(acc.push(c) + rest =~= acc + x);
    }
}

proof fn lemma_lex_token(t: SpecToken)
    requires
        token_ok(t),
    ensures
        lex(token_text(t)) == Ok::<Seq<SpecToken>, LexError>(seq![t]),
{
    let s = token_text(t);
    assert(seq![t] + Seq::<SpecToken>::empty() =~= seq![t]);
    match t {
        SpecToken::Str(x) => {
            let ex = escape_text(x);
            assert(s.subrange(1, 1 + ex.len() as int) =~= ex);
            assert(s[1 + ex.len() as int] == '"');
            lemma_scan_escaped(s, 1, Seq::empty(), x);
            assert(Seq::<char>::empty() + x =~= x);
            assert(s.len() == ex.len() + 2);
            assert(s[0] == '"');
            assert(lex_from(s, s.len() as int) == Ok::<Seq<SpecToken>, LexError>(Seq::empty()));
            assert(lex_from(s, 0) == lex_with(seq![t], lex_from(s, s.len() as int)));
        },
        SpecToken::Number(x) => {
            lemma_number_chars(x);
            lemma_run_all(x, 0, CharClass::Numeric);
            assert(x.subrange(0, x.len() as int) =~= x);
        },
        SpecToken::Boolean(b) => {
            lemma_run_all(s, 0, CharClass::Word);
            assert(s.subrange(0, s.len() as int) =~= s);
        },
        SpecToken::Null => {
            lemma_run_all(s, 0, CharClass::Word);
            assert(s.subrange(0, s.len() as int) =~= s);
        },
        _ => {},
    }
}

/// Scanning the text of a token sequence, with a space between each two
/// tokens, gives the sequence back.
pub proof fn lemma_lex_tokens_text(ts: Seq<SpecToken>)
    requires
        forall|i: int| 0 <= i < ts.len() ==> token_ok(#[trigger] ts[i]),
    ensures
        lex(tokens_text(ts)) == Ok::<Seq<SpecToken>, LexError>(ts),
    decreases ts.len(),
{
    if ts.len() == 0 {
        assert(lex(tokens_text(ts)) == Ok::<Seq<SpecToken>, LexError>(Seq::empty()));
        assert(ts =~= Seq::empty());
    } else if ts.len() == 1 {
        lemma_lex_token(ts[0]);
        assert(ts =~= seq![ts[0]]);
    } else {
        let rest = ts.subrange(1, ts.len() as int);
        assert forall|i: int| 0 <= i < rest.len() implies token_ok(#[trigger] rest[i]) by {
            assert(rest[i] == ts[i + 1]);
        }
        lemma_lex_token(ts[0]);
        lemma_lex_tokens_text(rest);
        lemma_whitespace_between(token_text(ts[0]), seq![' '], tokens_text(rest));
        assert(seq![ts[0]] + rest =~= ts);
    }
}

} // verus!
