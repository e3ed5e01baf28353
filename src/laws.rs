//! Laws that relate the functions of the library.
use vstd::prelude::*;

use crate::lexer::{LexError, is_ws, lex};
use crate::lexer_laws::lemma_whitespace_between;
use crate::parser::{
    ParseError, array_at, elements_at, members_at, object_at, parse_tokens, value_at,
};
use crate::lexer_laws::{lemma_lex_tokens_text, token_ok, tokens_text};
use crate::token::SpecToken;
use crate::{JsonError, parse_text};
use crate::value::{SpecValue, is_first_key, keys_unique, lookup, obj_insert};

verus! {

/// A value whose objects each hold every key once, at every depth.
pub open spec fn wf(v: SpecValue) -> bool
    decreases v,
{
    match v {
        SpecValue::Array(items) => forall|i: int| 0 <= i < items.len() ==> wf(#[trigger] items[i]),
        SpecValue::Object(m) => keys_unique(m) && forall|i: int|
            0 <= i < m.len() ==> wf(#[trigger] m[i].1),
        _ => true,
    }
}

/// The tokens that spell `v`.
pub open spec fn tokens_of(v: SpecValue) -> Seq<SpecToken>
    decreases v,
{
    match v {
        SpecValue::Null => seq![SpecToken::Null],
        SpecValue::Boolean(b) => seq![SpecToken::Boolean(b)],
        SpecValue::Number(s) => seq![SpecToken::Number(s)],
        SpecValue::Str(s) => seq![SpecToken::Str(s)],
        SpecValue::Array(items) => seq![SpecToken::BracketOpen] + items_tokens(items) + seq![
            SpecToken::BracketClose,
        ],
        SpecValue::Object(m) => seq![SpecToken::BraceOpen] + members_tokens(m) + seq![
            SpecToken::BraceClose,
        ],
    }
}

/// The tokens of the values `items`, with a comma between each two.
pub open spec fn items_tokens(items: Seq<SpecValue>) -> Seq<SpecToken>
    decreases items,
{
    if items.len() == 0 {
        Seq::empty()
    } else if items.len() == 1 {
        tokens_of(items[0])
    } else {
        tokens_of(items[0]) + seq![SpecToken::Comma] + items_tokens(items.subrange(1, items.len() as int))
    }
}

/// The tokens of the entries `m`, each as key, colon and value, with a
/// comma between each two.
pub open spec fn members_tokens(m: Seq<(Seq<char>, SpecValue)>) -> Seq<SpecToken>
    decreases m,
{
    if m.len() == 0 {
        Seq::empty()
    } else {
        let head = seq![SpecToken::Str(m[0].0), SpecToken::Colon] + tokens_of(m[0].1);
        if m.len() == 1 {
            head
        } else {
            head + seq![SpecToken::Comma] + members_tokens(m.subrange(1, m.len() as int))
        }
    }
}

/// Setting a key in an object: afterwards the key maps to the new value,
/// every other key keeps its value, and no key occurs twice.
pub proof fn lemma_last_write_wins(
    m: Seq<(Seq<char>, SpecValue)>,
    k: Seq<char>,
    v: SpecValue,
    other: Seq<char>,
)
    requires
        keys_unique(m),
        other != k,
    ensures
        keys_unique(obj_insert(m, k, v)),
        lookup(obj_insert(m, k, v), k) == Some(v),
        lookup(obj_insert(m, k, v), other) == lookup(m, other),
{
    let r = obj_insert(m, k, v);
    if exists|j: int| is_first_key(m, k, j) {
        let j = choose|j: int| is_first_key(m, k, j);
        assert(r == m.update(j, (k, v)));
        assert(r[j].0 == k);
        if lookup(m, other) is Some {
            let a = choose|a: int| 0 <= a < m.len() && m[a].0 == other;
            assert(r[a].0 == other);
            let b = choose|b: int| 0 <= b < r.len() && r[b].0 == other;
            assert(b == a);
        }
        if exists|b: int| 0 <= b < r.len() && r[b].0 == other {
            let b = choose|b: int| 0 <= b < r.len() && r[b].0 == other;
            assert(m[b].0 == other);
        }
    } else {
        assert forall|j: int| 0 <= j < m.len() implies m[j].0 != k by {
            if m[j].0 == k {
                assert(is_first_key(m, k, j));
            }
        }
        assert(r == m.push((k, v)));
        assert(r[m.len() as int].0 == k);
        if lookup(m, other) is Some {
            let a = choose|a: int| 0 <= a < m.len() && m[a].0 == other;
            assert(r[a].0 == other);
        }
        if exists|b: int| 0 <= b < r.len() && r[b].0 == other {
            let b = choose|b: int| 0 <= b < r.len() && r[b].0 == other;
            assert(m[b].0 == other);
        }
    }
}

pub(crate) proof fn lemma_window<A>(ts: Seq<A>, q: int, x: Seq<A>, off: int, y: Seq<A>)
    requires
        0 <= q,
        q + x.len() <= ts.len(),
        ts.subrange(q, q + x.len()) == x,
        0 <= off,
        off + y.len() <= x.len(),
        x.subrange(off, off + y.len()) == y,
    ensures
        ts.subrange(q + off, q + off + y.len()) == y,
{
    assert forall|i: int| 0 <= i < y.len() implies #[trigger] ts.subrange(
        q + off,
        q + off + y.len(),
    )[i] == y[i] by {
        assert(ts.subrange(q, q + x.len())[off + i] == x[off + i]);
        assert(x.subrange(off, off + y.len())[i] == x[off + i]);
    }
    assert(ts.subrange(q + off, q + off + y.len()) =~= y);
}

proof fn lemma_first_token(v: SpecValue)
    ensures
        tokens_of(v).len() >= 1,
        tokens_of(v)[0] != SpecToken::BracketClose,
        tokens_of(v)[0] != SpecToken::BraceClose,
{
}

proof fn lemma_items_first(items: Seq<SpecValue>)
    requires
        items.len() >= 1,
    ensures
        items_tokens(items).len() >= 1,
        items_tokens(items)[0] == tokens_of(items[0])[0],
{
    lemma_first_token(items[0]);
}

proof fn lemma_insert_new(m: Seq<(Seq<char>, SpecValue)>, k: Seq<char>, v: SpecValue)
    requires
        forall|j: int| 0 <= j < m.len() ==> m[j].0 != k,
    ensures
        obj_insert(m, k, v) == m.push((k, v)),
{
    assert(!exists|j: int| is_first_key(m, k, j));
}

proof fn lemma_value_at(ts: Seq<SpecToken>, p: int, v: SpecValue)
    requires
        wf(v),
        0 <= p,
        p + tokens_of(v).len() <= ts.len(),
        ts.subrange(p, p + tokens_of(v).len()) == tokens_of(v),
    ensures
        value_at(ts, p) == Ok::<(SpecValue, int), ParseError>((v, p + tokens_of(v).len())),
    decreases v,
{
    let t = tokens_of(v);
    assert(ts[p] == ts.subrange(p, p + t.len())[0]);
    match v {
        SpecValue::Array(items) => {
            let it = items_tokens(items);
            assert(t[0] == SpecToken::BracketOpen);
            if items.len() == 0 {
                assert(items =~= Seq::empty());
                assert(t =~= seq![SpecToken::BracketOpen, SpecToken::BracketClose]);
                assert(ts[p + 1] == ts.subrange(p, p + t.len())[1]);
            } else {
                lemma_items_first(items);
                assert(t.subrange(1, 1 + it.len() as int) =~= it);
                lemma_window(ts, p, t, 1, it);
                assert(ts[p + 1] == ts.subrange(p + 1, p + 1 + it.len() as int)[0]);
                assert(ts[p + 1 + it.len() as int] == ts.subrange(p, p + t.len())[1 + it.len() as int]);
                lemma_elements_at(ts, p + 1, Seq::empty(), items);
                assert(Seq::<SpecValue>::empty() + items =~= items);
            }
        },
        SpecValue::Object(m) => {
            let mt = members_tokens(m);
            assert(t[0] == SpecToken::BraceOpen);
            if m.len() == 0 {
                assert(m =~= Seq::empty());
                assert(t =~= seq![SpecToken::BraceOpen, SpecToken::BraceClose]);
                assert(ts[p + 1] == ts.subrange(p, p + t.len())[1]);
            } else {
                assert(t.subrange(1, 1 + mt.len() as int) =~= mt);
                lemma_window(ts, p, t, 1, mt);
                assert(ts[p + 1] == ts.subrange(p + 1, p + 1 + mt.len() as int)[0]);
                assert(ts[p + 1 + mt.len() as int] == ts.subrange(p, p + t.len())[1 + mt.len() as int]);
                assert(Seq::<(Seq<char>, SpecValue)>::empty() + m =~= m);
                lemma_members_at(ts, p + 1, Seq::empty(), m);
            }
        },
        _ => {},
    }
}

proof fn lemma_elements_at(ts: Seq<SpecToken>, q: int, acc: Seq<SpecValue>, items: Seq<SpecValue>)
    requires
        items.len() >= 1,
        forall|i: int| 0 <= i < items.len() ==> wf(#[trigger] items[i]),
        0 <= q,
        q + items_tokens(items).len() < ts.len(),
        ts.subrange(q, q + items_tokens(items).len()) == items_tokens(items),
        ts[q + items_tokens(items).len()] == SpecToken::BracketClose,
    ensures
        elements_at(ts, q, acc) == Ok::<(SpecValue, int), ParseError>(
            (SpecValue::Array(acc + items), q + items_tokens(items).len() + 1),
        ),
    decreases items,
{
    let it = items_tokens(items);
    let t0 = tokens_of(items[0]);
    lemma_first_token(items[0]);
    assert(wf(items[0]));
    if items.len() == 1 {
        assert(it == t0);
        lemma_value_at(ts, q, items[0]);
        assert(acc.push(items[0]) =~= acc + items);
    } else {
        let rest = items.subrange(1, items.len() as int);
        let rt = items_tokens(rest);
        assert(it == t0 + seq![SpecToken::Comma] + rt);
        assert(it.subrange(0, t0.len() as int) =~= t0);
        lemma_window(ts, q, it, 0, t0);
        lemma_value_at(ts, q, items[0]);
        let e = q + t0.len();
        assert(ts[e] == ts.subrange(q, q + it.len())[t0.len() as int]);
        assert(it.subrange(t0.len() as int + 1, t0.len() as int + 1 + rt.len() as int) =~= rt);
        lemma_window(ts, q, it, t0.len() as int + 1, rt);
        lemma_items_first(rest);
        assert(ts[e + 1] == ts.subrange(e + 1, e + 1 + rt.len() as int)[0]);
        assert forall|i: int| 0 <= i < rest.len() implies wf(#[trigger] rest[i]) by {
            assert(rest[i] == items[i + 1]);
        }
        lemma_elements_at(ts, e + 1, acc.push(items[0]), rest);
        assert(acc.push(items[0]) + rest =~= acc + items);
    }
}

proof fn lemma_members_at(
    ts: Seq<SpecToken>,
    q: int,
    acc: Seq<(Seq<char>, SpecValue)>,
    m: Seq<(Seq<char>, SpecValue)>,
)
    requires
        m.len() >= 1,
        keys_unique(acc + m),
        forall|i: int| 0 <= i < m.len() ==> wf(#[trigger] m[i].1),
        0 <= q,
        q + members_tokens(m).len() < ts.len(),
        ts.subrange(q, q + members_tokens(m).len()) == members_tokens(m),
        ts[q + members_tokens(m).len()] == SpecToken::BraceClose,
    ensures
        members_at(ts, q, acc) == Ok::<(SpecValue, int), ParseError>(
            (SpecValue::Object(acc + m), q + members_tokens(m).len() + 1),
        ),
    decreases m,
{
    let mt = members_tokens(m);
    let k = m[0].0;
    let v = m[0].1;
    let t0 = tokens_of(v);
    let head = seq![SpecToken::Str(k), SpecToken::Colon] + t0;
    lemma_first_token(v);
    assert(wf(m[0].1));
    assert(mt.subrange(0, head.len() as int) =~= head);
    lemma_window(ts, q, mt, 0, head);
    assert(ts[q] == ts.subrange(q, q + head.len())[0]);
    assert(ts[q + 1] == ts.subrange(q, q + head.len())[1]);
    assert(head.subrange(2, 2 + t0.len() as int) =~= t0);
    lemma_window(ts, q, head, 2, t0);
    lemma_value_at(ts, q + 2, v);
    assert forall|j: int| 0 <= j < acc.len() implies acc[j].0 != k by {
        assert((acc + m)[j] == acc[j]);
        assert((acc + m)[acc.len() as int] == m[0]);
    }
    lemma_insert_new(acc, k, v);
    let e = q + head.len();
    if m.len() == 1 {
        assert(mt == head);
        assert(acc.push((k, v)) =~= acc + m);
    } else {
        let rest = m.subrange(1, m.len() as int);
        let rt = members_tokens(rest);
        assert(mt == head + seq![SpecToken::Comma] + rt);
        assert(ts[e] == ts.subrange(q, q + mt.len())[head.len() as int]);
        assert(mt.subrange(head.len() as int + 1, head.len() as int + 1 + rt.len() as int) =~= rt);
        lemma_window(ts, q, mt, head.len() as int + 1, rt);
        assert(rt[0] == SpecToken::Str(rest[0].0));
        assert(ts[e + 1] == ts.subrange(e + 1, e + 1 + rt.len() as int)[0]);
        assert forall|i: int| 0 <= i < rest.len() implies wf(#[trigger] rest[i].1) by {
            assert(rest[i] == m[i + 1]);
        }
        assert(acc.push((k, v)) + rest =~= acc + m);
        lemma_members_at(ts, e + 1, acc.push((k, v)), rest);
    }
}

/// Reading back: the tokens that spell a value whose objects hold each key
/// once parse to that same value, at every depth.
pub proof fn lemma_parse_tokens_of(v: SpecValue)
    requires
        wf(v),
    ensures
        parse_tokens(tokens_of(v)) == Ok::<SpecValue, ParseError>(v),
{
    let t = tokens_of(v);
    assert(t.subrange(0, t.len() as int) =~= t);
    lemma_value_at(t, 0, v);
}

/// A value that JSON text can spell: its objects hold each key once, and
/// each number among its tokens is a literal of the JSON number grammar.
pub open spec fn is_json_value(v: SpecValue) -> bool {
    &&& wf(v)
    &&& forall|i: int| 0 <= i < tokens_of(v).len() ==> token_ok(#[trigger] tokens_of(v)[i])
}

/// Round trip: the text of a JSON value, written as its tokens with a space
/// between each two, scans and parses back to exactly that value, with the
/// same nesting, keys, order of elements and leaves.
pub proof fn lemma_round_trip(v: SpecValue)
    requires
        is_json_value(v),
    ensures
        parse_text(tokens_text(tokens_of(v))) == Ok::<SpecValue, JsonError>(v),
{
    lemma_lex_tokens_text(tokens_of(v));
    lemma_parse_tokens_of(v);
}

/// Whitespace between tokens: where `a + b` splits between two tokens (each
/// part scans, and the whole scans as the tokens of the first part followed
/// by those of the second), putting a run of whitespace between the parts
/// leaves the parsed value, or the error, unchanged.
pub proof fn lemma_whitespace_keeps_value(a: Seq<char>, w: Seq<char>, b: Seq<char>)
    requires
        lex(a) is Ok,
        lex(b) is Ok,
        lex(a + b) == Ok::<Seq<SpecToken>, LexError>(lex(a)->Ok_0 + lex(b)->Ok_0),
        forall|m: int| 0 <= m < w.len() ==> is_ws(#[trigger] w[m]),
    ensures
        parse_text(a + w + b) == parse_text(a + b),
{
    if w.len() == 0 {
        assert(a + w + b =~= a + b);
    } else {
        lemma_whitespace_between(a, w, b);
    }
}

proof fn lemma_insert_wf(m: Seq<(Seq<char>, SpecValue)>, k: Seq<char>, v: SpecValue)
    requires
        keys_unique(m),
        forall|i: int| 0 <= i < m.len() ==> wf(#[trigger] m[i].1),
        wf(v),
    ensures
        keys_unique(obj_insert(m, k, v)),
        forall|i: int|
            0 <= i < obj_insert(m, k, v).len() ==> wf(#[trigger] obj_insert(m, k, v)[i].1),
{
    let r = obj_insert(m, k, v);
    if exists|j: int| is_first_key(m, k, j) {
        let j = choose|j: int| is_first_key(m, k, j);
        assert(r == m.update(j, (k, v)));
    } else {
        assert forall|j: int| 0 <= j < m.len() implies m[j].0 != k by {
            if m[j].0 == k {
                assert(is_first_key(m, k, j));
            }
        }
        assert(r == m.push((k, v)));
    }
}

proof fn lemma_value_at_wf(ts: Seq<SpecToken>, p: int)
    ensures
        value_at(ts, p) matches Ok((v, _)) ==> wf(v),
    decreases ts.len() - p, 0int,
{
    if 0 <= p < ts.len() {
        if ts[p] == SpecToken::BraceOpen {
            lemma_object_at_wf(ts, p + 1);
        } else if ts[p] == SpecToken::BracketOpen {
            lemma_array_at_wf(ts, p + 1);
        }
    }
}

proof fn lemma_object_at_wf(ts: Seq<SpecToken>, q: int)
    ensures
        object_at(ts, q) matches Ok((v, _)) ==> wf(v),
    decreases ts.len() - q, 2int,
{
    if !(0 <= q < ts.len() && ts[q] == SpecToken::BraceClose) {
        lemma_members_at_wf(ts, q, Seq::empty());
    }
}

proof fn lemma_members_at_wf(ts: Seq<SpecToken>, q: int, acc: Seq<(Seq<char>, SpecValue)>)
    requires
        keys_unique(acc),
        forall|i: int| 0 <= i < acc.len() ==> wf(#[trigger] acc[i].1),
    ensures
        members_at(ts, q, acc) matches Ok((v, _)) ==> wf(v),
    decreases ts.len() - q, 1int,
{
    if 0 <= q && q + 1 < ts.len() && ts[q] is Str && ts[q + 1] == SpecToken::Colon {
        lemma_value_at_wf(ts, q + 2);
        if let Ok((v, e)) = value_at(ts, q + 2) {
            let m = obj_insert(acc, ts[q]->Str_0, v);
            lemma_insert_wf(acc, ts[q]->Str_0, v);
            if q < e < ts.len() && ts[e] == SpecToken::Comma && !(e + 1 < ts.len() && ts[e + 1]
                == SpecToken::BraceClose) {
                lemma_members_at_wf(ts, e + 1, m);
            }
        }
    }
}

proof fn lemma_array_at_wf(ts: Seq<SpecToken>, q: int)
    ensures
        array_at(ts, q) matches Ok((v, _)) ==> wf(v),
    decreases ts.len() - q, 2int,
{
    if !(0 <= q < ts.len() && ts[q] == SpecToken::BracketClose) {
        lemma_elements_at_wf(ts, q, Seq::empty());
    }
}

proof fn lemma_elements_at_wf(ts: Seq<SpecToken>, q: int, acc: Seq<SpecValue>)
    requires
        forall|i: int| 0 <= i < acc.len() ==> wf(#[trigger] acc[i]),
    ensures
        elements_at(ts, q, acc) matches Ok((v, _)) ==> wf(v),
    decreases ts.len() - q, 1int,
{
    lemma_value_at_wf(ts, q);
    if let Ok((v, e)) = value_at(ts, q) {
        let next = acc.push(v);
        assert forall|i: int| 0 <= i < next.len() implies wf(#[trigger] next[i]) by {
            if i < acc.len() {
                assert(next[i] == acc[i]);
            }
        }
        if q < e < ts.len() && ts[e] == SpecToken::Comma && !(e + 1 < ts.len() && ts[e + 1]
            == SpecToken::BracketClose) {
            lemma_elements_at_wf(ts, e + 1, next);
        }
    }
}

/// Every value that the parser builds holds each key of each of its
/// objects once, at every depth.
pub proof fn lemma_parsed_keys_unique(ts: Seq<SpecToken>)
    ensures
        parse_tokens(ts) matches Ok(v) ==> wf(v),
{
    lemma_value_at_wf(ts, 0);
}

} // verus!
