//! The tree of JSON values that the parser builds.
use vstd::prelude::*;

verus! {

/// A JSON value. A number keeps the text of its literal; an object keeps
/// its entries in the order in which their keys first appeared, each key
/// once.
#[derive(Debug)]
pub enum Value {
    Null,
    Boolean(bool),
    Number(String),
    String(String),
    Array(Vec<Value>),
    Object(Vec<(String, Value)>),
}

/// The mathematical model of a value.
pub enum SpecValue {
    Null,
    Boolean(bool),
    Number(Seq<char>),
    Str(Seq<char>),
    Array(Seq<SpecValue>),
    Object(Seq<(Seq<char>, SpecValue)>),
}

impl View for Value {
    type V = SpecValue;

    open spec fn view(&self) -> SpecValue
        decreases self,
    {
        match self {
            Value::Null => SpecValue::Null,
            Value::Boolean(b) => SpecValue::Boolean(*b),
            Value::Number(s) => SpecValue::Number(s@),
            Value::String(s) => SpecValue::Str(s@),
            Value::Array(items) => SpecValue::Array(
                Seq::new(
                    items@.len(),
                    |i: int|
                        if 0 <= i < items@.len() {
                            items@[i].view()
                        } else {
                            SpecValue::Null
                        },
                ),
            ),
            Value::Object(entries) => SpecValue::Object(
                Seq::new(
                    entries@.len(),
                    |i: int|
                        (
                            entries@[i].0@,
                            if 0 <= i < entries@.len() {
                                entries@[i].1.view()
                            } else {
                                SpecValue::Null
                            },
                        ),
                ),
            ),
        }
    }
}

/// The model of a sequence of values.
pub open spec fn values_view(vs: Seq<Value>) -> Seq<SpecValue> {
    vs.map_values(|v: Value| v@)
}

/// The model of a sequence of object entries.
pub open spec fn entries_view(es: Seq<(String, Value)>) -> Seq<(Seq<char>, SpecValue)> {
    es.map_values(|e: (String, Value)| (e.0@, e.1@))
}

pub proof fn lemma_array_view(items: Vec<Value>)
    ensures
        Value::Array(items)@ == SpecValue::Array(values_view(items@)),
{
    let s = Value::Array(items)@->Array_0;
    assert(s =~= values_view(items@));
}

pub proof fn lemma_object_view(entries: Vec<(String, Value)>)
    ensures
        Value::Object(entries)@ == SpecValue::Object(entries_view(entries@)),
{
    let s = Value::Object(entries)@->Object_0;
    assert forall|i: int| 0 <= i < s.len() implies s[i] == entries_view(entries@)[i] by {
        assert(s[i] == (entries@[i].0@, entries@[i].1@));
    }
    assert(s =~= entries_view(entries@));
}

/// `j` is the first position of an entry with key `k`.
pub open spec fn is_first_key(m: Seq<(Seq<char>, SpecValue)>, k: Seq<char>, j: int) -> bool {
    0 <= j < m.len() && m[j].0 == k && forall|i: int| 0 <= i < j ==> m[i].0 != k
}

/// The entries `m` with `k` set to `v`: a key already present keeps its
/// place and takes the new value; a new key goes at the end.
pub open spec fn obj_insert(m: Seq<(Seq<char>, SpecValue)>, k: Seq<char>, v: SpecValue) -> Seq<
    (Seq<char>, SpecValue),
> {
    if exists|j: int| is_first_key(m, k, j) {
        m.update(choose|j: int| is_first_key(m, k, j), (k, v))
    } else {
        m.push((k, v))
    }
}

/// No key occurs twice among the entries.
pub open spec fn keys_unique(m: Seq<(Seq<char>, SpecValue)>) -> bool {
    forall|i: int, j: int| 0 <= i < j < m.len() ==> m[i].0 != m[j].0
}

/// The value of key `k` among the entries, if it occurs.
pub open spec fn lookup(m: Seq<(Seq<char>, SpecValue)>, k: Seq<char>) -> Option<SpecValue> {
    if exists|j: int| 0 <= j < m.len() && m[j].0 == k {
        Some(m[choose|j: int| 0 <= j < m.len() && m[j].0 == k].1)
    } else {
        None
    }
}

/// Sets `k` to `v` among `entries`, in the way `obj_insert` says.
pub fn insert_entry(entries: &mut Vec<(String, Value)>, k: String, v: Value)
    ensures
        entries_view(final(entries)@) == obj_insert(entries_view(old(entries)@), k@, v@),
{
    let ghost m = entries_view(entries@);
    let mut j: usize = 0;
    while j < entries.len()
        invariant
            j <= entries.len(),
            m == entries_view(entries@),
            m == entries_view(old(entries)@),
            forall|i: int| 0 <= i < j ==> m[i].0 != k@,
        decreases entries.len() - j,
    {
        if entries[j].0 == k {
            proof {
                assert(is_first_key(m, k@, j as int));
                let c = choose|c: int| is_first_key(m, k@, c);
                assert(c == j);
            }
            let ghost kv = k@;
            let ghost vv = v@;
            entries.set(j, (k, v));
            proof {
                assert(entries_view(entries@) =~= m.update(j as int, (kv, vv)));
                assert(obj_insert(m, kv, vv) == m.update(j as int, (kv, vv)));
            }
            return;
        }
        j = j + 1;
    }
    proof {
        assert(!exists|c: int| is_first_key(m, k@, c));
    }
    let ghost kv = k@;
    let ghost vv = v@;
    entries.push((k, v));
    proof {
        assert(entries_view(entries@) =~= m.push((kv, vv)));
    }
}

} // verus!
