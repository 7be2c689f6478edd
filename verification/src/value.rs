//! The ordinary value domain: what a record file holds once read, with Python's
//! reading of truth, equality and text.
use vstd::prelude::*;
use crate::text::{chars_lt, chars_of, same, seq_lt, string_of};

verus! {

broadcast use vstd::std_specs::vec::group_vec_axioms;

/// A failure, named by its code or by a sentence for a person.
#[derive(Debug, PartialEq)]
pub struct Error(pub String);

/// The three floating values that have no finite reading.
#[derive(Clone, Copy, Debug, PartialEq, Eq)]
pub enum NonFinite {
    NaN,
    Infinity,
    NegInfinity,
}

/// A value read from an ordinary record. Integers keep their decimal text; a
/// mapping keeps its entries in key order, each key once.
#[derive(Debug, PartialEq)]
pub enum Value {
    Null,
    Bool(bool),
    Integer(String),
    NonFinite(NonFinite),
    Text(String),
    List(Vec<Value>),
    Mapping(Vec<(String, Value)>),
}

/// The mathematical reading of a `Value`.
pub enum Model {
    Null,
    Bool(bool),
    Integer(Seq<char>),
    NonFinite(NonFinite),
    Text(Seq<char>),
    List(Seq<Model>),
    Mapping(Seq<(Seq<char>, Model)>),
}

pub open spec fn model(v: Value) -> Model
    decreases v, 0nat,
{
    match v {
        Value::Null => Model::Null,
        Value::Bool(b) => Model::Bool(b),
        Value::Integer(t) => Model::Integer(t@),
        Value::NonFinite(n) => Model::NonFinite(n),
        Value::Text(t) => Model::Text(t@),
        Value::List(xs) => Model::List(models(xs@)),
        Value::Mapping(es) => Model::Mapping(entries(es@)),
    }
}

pub open spec fn models(s: Seq<Value>) -> Seq<Model>
    decreases s, s.len(),
{
    if s.len() == 0 {
        Seq::empty()
    } else {
        proof {
            assert(decreases_to!(s => s[s.len() - 1]));
        }
        models(s.drop_last()).push(model(s.last()))
    }
}

pub open spec fn entries(s: Seq<(String, Value)>) -> Seq<(Seq<char>, Model)>
    decreases s, s.len(),
{
    if s.len() == 0 {
        Seq::empty()
    } else {
        proof {
            assert(decreases_to!(s => s[s.len() - 1]));
            assert(decreases_to!(s[s.len() - 1] => s[s.len() - 1].1));
        }
        entries(s.drop_last()).push((s.last().0@, model(s.last().1)))
    }
}

impl View for Value {
    type V = Model;

    open spec fn view(&self) -> Model {
        model(*self)
    }
}

pub broadcast proof fn lemma_models(s: Seq<Value>)
    ensures
        #[trigger] models(s).len() == s.len(),
        forall|i: int| 0 <= i < s.len() ==> #[trigger] models(s)[i] == model(s[i]),
    decreases s.len(),
{
    if s.len() > 0 {
        lemma_models(s.drop_last());
        assert forall|i: int| 0 <= i < s.len() implies #[trigger] models(s)[i] == model(s[i]) by {
            if i < s.len() - 1 {
                assert(s.drop_last()[i] == s[i]);
            }
        }
    }
}

pub broadcast proof fn lemma_entries(s: Seq<(String, Value)>)
    ensures
        #[trigger] entries(s).len() == s.len(),
        forall|i: int|
            0 <= i < s.len() ==> #[trigger] entries(s)[i] == (s[i].0@, model(s[i].1)),
    decreases s.len(),
{
    if s.len() > 0 {
        lemma_entries(s.drop_last());
        assert forall|i: int| 0 <= i < s.len() implies #[trigger] entries(s)[i] == (
            s[i].0@,
            model(s[i].1),
        ) by {
            if i < s.len() - 1 {
                assert(s.drop_last()[i] == s[i]);
            }
        }
    }
}

/// `i` is the first place of key `k` in the entries `m`.
pub open spec fn first_key<V>(m: Seq<(Seq<char>, V)>, k: Seq<char>, i: int) -> bool {
    &&& 0 <= i < m.len()
    &&& m[i].0 == k
    &&& forall|j: int| 0 <= j < i ==> #[trigger] m[j].0 != k
}

pub open spec fn has_key<V>(m: Seq<(Seq<char>, V)>, k: Seq<char>) -> bool {
    exists|i: int| 0 <= i < m.len() && #[trigger] m[i].0 == k
}

/// Where key `k` stands in `m`, or -1.
pub open spec fn key_index<V>(m: Seq<(Seq<char>, V)>, k: Seq<char>) -> int {
    if has_key(m, k) {
        choose|i: int| first_key(m, k, i)
    } else {
        -1
    }
}

/// The value that a mapping's entries hold under `k`.
pub open spec fn lookup<V>(m: Seq<(Seq<char>, V)>, k: Seq<char>) -> Option<V> {
    if has_key(m, k) {
        Some(m[key_index(m, k)].1)
    } else {
        None
    }
}

pub proof fn lemma_key_index<V>(m: Seq<(Seq<char>, V)>, k: Seq<char>, i: int)
    requires
        first_key(m, k, i),
    ensures
        has_key(m, k),
        key_index(m, k) == i,
        lookup(m, k) == Some(m[i].1),
{
    assert(m[i].0 == k);
    assert(has_key(m, k));
    let j = choose|j: int| first_key(m, k, j);
    assert(exists|j: int| first_key(m, k, j)) by {
        assert(first_key(m, k, i));
    }
    assert(first_key(m, k, j));
    if j < i {
        assert(m[j].0 != k);
    }
    if i < j {
        assert(m[i].0 != k);
    }
}

pub proof fn lemma_no_key<V>(m: Seq<(Seq<char>, V)>, k: Seq<char>)
    requires
        forall|j: int| 0 <= j < m.len() ==> #[trigger] m[j].0 != k,
    ensures
        !has_key(m, k),
        lookup(m, k) is None,
{
}

/// The entries of a mapping model (empty for anything else).
pub open spec fn map_entries(m: Model) -> Seq<(Seq<char>, Model)> {
    match m {
        Model::Mapping(es) => es,
        _ => Seq::empty(),
    }
}

/// `get(value, key)`: the field of a mapping, and Null otherwise.
pub open spec fn field_of(m: Model, k: Seq<char>) -> Model {
    match lookup(map_entries(m), k) {
        Some(v) => v,
        None => Model::Null,
    }
}

/// A deep copy of a value.
pub fn copy(v: &Value) -> (r: Value)
    ensures
        r@ == v@,
    decreases v,
{
    match v {
        Value::Null => Value::Null,
        Value::Bool(b) => Value::Bool(*b),
        Value::Integer(t) => Value::Integer(t.clone()),
        Value::NonFinite(n) => Value::NonFinite(*n),
        Value::Text(t) => Value::Text(t.clone()),
        Value::List(xs) => {
            let mut out: Vec<Value> = Vec::new();
            let mut i: usize = 0;
            while i < xs.len()
                invariant
                    0 <= i <= xs.len(),
                    *v == Value::List(*xs),
                    models(out@) == models(xs@.take(i as int)),
                decreases xs.len() - i,
            {
                proof {
                    assert(decreases_to!(*v => (*v)->List_0));
                    assert(decreases_to!((*v)->List_0 => xs@[i as int]));
                }
                let c = copy(&xs[i]);
                let ghost before = out@;
                out.push(c);
                proof {
                    assert(xs@.take(i + 1).drop_last() =~= xs@.take(i as int));
                    assert(out@.drop_last() =~= before);
                }
                i = i + 1;
            }
            assert(xs@.take(xs.len() as int) =~= xs@);
            Value::List(out)
        },
        Value::Mapping(es) => {
            let mut out: Vec<(String, Value)> = Vec::new();
            let mut i: usize = 0;
            while i < es.len()
                invariant
                    0 <= i <= es.len(),
                    *v == Value::Mapping(*es),
                    entries(out@) == entries(es@.take(i as int)),
                decreases es.len() - i,
            {
                proof {
                    assert(decreases_to!(*v => (*v)->Mapping_0));
                    assert(decreases_to!((*v)->Mapping_0 => es@[i as int]));
                    assert(decreases_to!(es@[i as int] => es@[i as int].1));
                }
                let c = copy(&es[i].1);
                let k = es[i].0.clone();
                let ghost before = out@;
                out.push((k, c));
                proof {
                    assert(es@.take(i + 1).drop_last() =~= es@.take(i as int));
                    assert(out@.drop_last() =~= before);
                }
                i = i + 1;
            }
            assert(es@.take(es.len() as int) =~= es@);
            Value::Mapping(out)
        },
    }
}

/// Whether a string's characters are exactly `key`'s.
pub fn text_is(s: &String, key: &str) -> (r: bool)
    ensures
        r == (s@ == key@),
{
    let a = chars_of(s.as_str());
    let b = chars_of(key);
    same(&a, &b)
}

/// The first place of `key` among a mapping's entries.
pub fn find(m: &Vec<(String, Value)>, key: &str) -> (r: Option<usize>)
    ensures
        match r {
            Some(i) => first_key(entries(m@), key@, i as int),
            None => !has_key(entries(m@), key@),
        },
{
    proof {
        lemma_entries(m@);
    }
    let mut i: usize = 0;
    while i < m.len()
        invariant
            0 <= i <= m.len(),
            entries(m@).len() == m@.len(),
            forall|j: int| 0 <= j < m@.len() ==> #[trigger] entries(m@)[j] == (m@[j].0@, model(m@[j].1)),
            forall|j: int| 0 <= j < i ==> #[trigger] entries(m@)[j].0 != key@,
        decreases m.len() - i,
    {
        if text_is(&m[i].0, key) {
            return Some(i);
        }
        i = i + 1;
    }
    None
}

/// The value a mapping's entries hold under `key`.
pub fn get<'a>(m: &'a Vec<(String, Value)>, key: &str) -> (r: Option<&'a Value>)
    ensures
        match r {
            Some(v) => lookup(entries(m@), key@) == Some(v@),
            None => lookup(entries(m@), key@) is None,
        },
{
    broadcast use lemma_entries;

    match find(m, key) {
        Some(i) => {
            proof {
                lemma_key_index(entries(m@), key@, i as int);
            }
            Some(&m[i].1)
        },
        None => None,
    }
}

/// The field `key` of a mapping value, and Null for anything else.
pub fn field<'a>(v: &'a Value, key: &str) -> (r: Option<&'a Value>)
    ensures
        match r {
            Some(x) => field_of(v@, key@) == x@ && lookup(map_entries(v@), key@) == Some(x@),
            None => lookup(map_entries(v@), key@) is None,
        },
{
    match v {
        Value::Mapping(m) => get(m, key),
        _ => None,
    }
}

/// Python's truth of a value.
pub open spec fn truthy(m: Model) -> bool {
    match m {
        Model::Null => false,
        Model::Bool(b) => b,
        Model::Integer(t) => t != "0"@,
        Model::NonFinite(_) => true,
        Model::Text(t) => t.len() > 0,
        Model::List(xs) => xs.len() > 0,
        Model::Mapping(es) => es.len() > 0,
    }
}

pub fn truth(v: &Value) -> (r: bool)
    ensures
        r == truthy(v@),
{
    broadcast use lemma_models, lemma_entries;

    match v {
        Value::Null => false,
        Value::Bool(b) => *b,
        Value::Integer(t) => !text_is(t, "0"),
        Value::NonFinite(_) => true,
        Value::Text(t) => {
            let cs = chars_of(t.as_str());
            cs.len() > 0
        },
        Value::List(xs) => xs.len() > 0,
        Value::Mapping(es) => es.len() > 0,
    }
}

/// Whether a value is the text `s`.
pub fn string_is(v: &Value, s: &str) -> (r: bool)
    ensures
        r == (v@ == Model::Text(s@)),
{
    match v {
        Value::Text(t) => text_is(t, s),
        _ => false,
    }
}

/// Whether a value is the integer written `digits`.
pub fn is_int(v: &Value, digits: &str) -> (r: bool)
    ensures
        r == (v@ == Model::Integer(digits@)),
{
    match v {
        Value::Integer(t) => text_is(t, digits),
        _ => false,
    }
}

/// The text of a text value.
pub open spec fn text_of(m: Model) -> Option<Seq<char>> {
    match m {
        Model::Text(t) => Some(t),
        _ => None,
    }
}

pub fn text(v: &Value) -> (r: Option<&String>)
    ensures
        match r {
            Some(s) => text_of(v@) == Some(s@),
            None => text_of(v@) is None,
        },
{
    match v {
        Value::Text(t) => Some(t),
        _ => None,
    }
}

/// A new text value.
pub fn s(t: &str) -> (r: Value)
    ensures
        r@ == Model::Text(t@),
{
    Value::Text(string_of(&chars_of(t)))
}

/// Where `k` goes among sorted entries: the first key not below it.
pub open spec fn insert_at<V>(m: Seq<(Seq<char>, V)>, k: Seq<char>, p: int) -> bool {
    &&& 0 <= p <= m.len()
    &&& forall|j: int| 0 <= j < p ==> seq_lt(#[trigger] m[j].0, k)
    &&& p < m.len() ==> !seq_lt(m[p].0, k)
}

/// The entries with `k` set to `v`: replaced where the key stands, else
/// inserted before the first key that does not sort below it.
pub open spec fn put<V>(m: Seq<(Seq<char>, V)>, k: Seq<char>, v: V) -> Seq<(Seq<char>, V)> {
    if has_key(m, k) {
        m.update(key_index(m, k), (k, v))
    } else {
        m.insert(choose|p: int| insert_at(m, k, p), (k, v))
    }
}

pub proof fn lemma_insert_at_unique<V>(m: Seq<(Seq<char>, V)>, k: Seq<char>, p: int, q: int)
    requires
        insert_at(m, k, p),
        insert_at(m, k, q),
    ensures
        p == q,
{
    if p < q {
        assert(seq_lt(m[p].0, k));
    }
    if q < p {
        assert(seq_lt(m[q].0, k));
    }
}

/// A key a mapping has stands first somewhere.
pub proof fn lemma_first_key_exists<V>(m: Seq<(Seq<char>, V)>, k: Seq<char>)
    requires
        has_key(m, k),
    ensures
        exists|i: int| first_key(m, k, i),
        first_key(m, k, key_index(m, k)),
    decreases m.len(),
{
    let d = m.drop_last();
    assert forall|j: int| 0 <= j < d.len() implies #[trigger] d[j] == m[j] by {}
    if has_key(d, k) {
        lemma_first_key_exists(d, k);
        let i = choose|i: int| first_key(d, k, i);
        assert(first_key(m, k, i)) by {
            assert(d[i] == m[i]);
            assert forall|j: int| 0 <= j < i implies #[trigger] m[j].0 != k by {
                assert(d[j] == m[j]);
            }
        }
    } else {
        let w = choose|w: int| 0 <= w < m.len() && #[trigger] m[w].0 == k;
        if w < d.len() {
            assert(d[w] == m[w]);
        }
        assert(first_key(m, k, m.len() - 1)) by {
            assert forall|j: int| 0 <= j < m.len() - 1 implies #[trigger] m[j].0 != k by {
                assert(d[j] == m[j]);
            }
        }
    }
}

/// Some place suits a new key: the first key that does not sort below it,
/// or the end.
pub proof fn lemma_insert_at_exists<V>(m: Seq<(Seq<char>, V)>, k: Seq<char>)
    ensures
        exists|p: int| insert_at(m, k, p),
    decreases m.len(),
{
    if m.len() == 0 {
        assert(insert_at(m, k, 0));
    } else {
        let d = m.drop_last();
        lemma_insert_at_exists(d, k);
        let p = choose|p: int| insert_at(d, k, p);
        assert forall|j: int| 0 <= j < d.len() implies #[trigger] d[j] == m[j] by {}
        if p < d.len() {
            assert(insert_at(m, k, p)) by {
                assert forall|j: int| 0 <= j < p implies seq_lt(#[trigger] m[j].0, k) by {
                    assert(d[j] == m[j]);
                    assert(seq_lt(d[j].0, k));
                }
                assert(d[p] == m[p]);
            }
        } else {
            assert forall|j: int| 0 <= j < d.len() implies seq_lt(#[trigger] m[j].0, k) by {
                assert(d[j] == m[j]);
                assert(seq_lt(d[j].0, k));
            }
            if seq_lt(m.last().0, k) {
                assert(insert_at(m, k, m.len() as int)) by {
                    assert forall|j: int| 0 <= j < m.len() implies seq_lt(#[trigger] m[j].0, k) by {
                        if j == m.len() - 1 {
                            assert(m[j] == m.last());
                        }
                    }
                }
            } else {
                assert(insert_at(m, k, d.len() as int)) by {
                    assert(m[d.len() as int] == m.last());
                }
            }
        }
    }
}

/// After `put`, the key holds the value put.
pub proof fn lemma_put_same<V>(m: Seq<(Seq<char>, V)>, k: Seq<char>, v: V)
    ensures
        lookup(put(m, k, v), k) == Some(v),
        has_key(put(m, k, v), k),
{
    if has_key(m, k) {
        lemma_first_key_exists(m, k);
        let i = key_index(m, k);
        lemma_key_index(m, k, i);
        let u = m.update(i, (k, v));
        assert forall|j: int| 0 <= j < i implies #[trigger] u[j].0 != k by {
            assert(u[j] == m[j]);
        }
        assert(first_key(u, k, i));
        lemma_key_index(u, k, i);
    } else {
        lemma_insert_at_exists(m, k);
        let p = choose|p: int| insert_at(m, k, p);
        let u = m.insert(p, (k, v));
        assert forall|j: int| 0 <= j < p implies #[trigger] u[j].0 != k by {
            assert(u[j] == m[j]);
        }
        assert(first_key(u, k, p));
        lemma_key_index(u, k, p);
    }
}

/// After `put`, every other key holds what it held.
pub proof fn lemma_put_other<V>(m: Seq<(Seq<char>, V)>, k: Seq<char>, v: V, k2: Seq<char>)
    requires
        k2 != k,
    ensures
        lookup(put(m, k, v), k2) == lookup(m, k2),
        has_key(put(m, k, v), k2) == has_key(m, k2),
{
    let u = put(m, k, v);
    if has_key(m, k) {
        lemma_first_key_exists(m, k);
        let i = key_index(m, k);
        lemma_key_index(m, k, i);
        if has_key(m, k2) {
            lemma_first_key_exists(m, k2);
            let q = key_index(m, k2);
            lemma_key_index(m, k2, q);
            assert(first_key(u, k2, q)) by {
                assert forall|j: int| 0 <= j < q implies #[trigger] u[j].0 != k2 by {
                    if j != i {
                        assert(u[j] == m[j]);
                    }
                }
            }
            lemma_key_index(u, k2, q);
        } else {
            assert forall|q: int| 0 <= q < u.len() implies #[trigger] u[q].0 != k2 by {
                if q != i {
                    assert(u[q] == m[q]);
                }
            }
            lemma_no_key(u, k2);
        }
    } else {
        lemma_insert_at_exists(m, k);
        let p = choose|p: int| insert_at(m, k, p);
        if has_key(m, k2) {
            lemma_first_key_exists(m, k2);
            let q = key_index(m, k2);
            lemma_key_index(m, k2, q);
            if q < p {
                assert(first_key(u, k2, q)) by {
                    assert(u[q] == m[q]);
                    assert forall|j: int| 0 <= j < q implies #[trigger] u[j].0 != k2 by {
                        assert(u[j] == m[j]);
                    }
                }
                lemma_key_index(u, k2, q);
            } else {
                assert(first_key(u, k2, q + 1)) by {
                    assert(u[q + 1] == m[q]);
                    assert forall|j: int| 0 <= j < q + 1 implies #[trigger] u[j].0 != k2 by {
                        if j < p {
                            assert(u[j] == m[j]);
                        } else if j > p {
                            assert(u[j] == m[j - 1]);
                        }
                    }
                }
                lemma_key_index(u, k2, q + 1);
            }
        } else {
            assert forall|q: int| 0 <= q < u.len() implies #[trigger] u[q].0 != k2 by {
                if q < p {
                    assert(u[q] == m[q]);
                } else if q > p {
                    assert(u[q] == m[q - 1]);
                }
            }
            lemma_no_key(u, k2);
        }
    }
}

/// A mapping's entries as a `BTreeMap` keeps them: keys strictly ascending,
/// so each key once.
pub open spec fn keyed<V>(m: Seq<(Seq<char>, V)>) -> bool {
    forall|i: int, j: int| 0 <= i < j < m.len() ==> seq_lt(#[trigger] m[i].0, #[trigger] m[j].0)
}

/// Setting a key keeps a mapping keyed.
pub proof fn lemma_put_keyed<V>(m: Seq<(Seq<char>, V)>, k: Seq<char>, v: V)
    requires
        keyed(m),
    ensures
        keyed(put(m, k, v)),
{
    if has_key(m, k) {
        let i = key_index(m, k);
        lemma_first_key_exists(m, k);
        let r = m.update(i, (k, v));
        assert forall|a: int, b: int| 0 <= a < b < r.len() implies seq_lt(#[trigger] r[a].0, #[trigger] r[b].0) by {
            assert(r[a].0 == m[a].0);
            assert(r[b].0 == m[b].0);
        }
    } else {
        lemma_insert_at_exists(m, k);
        let p = choose|p: int| insert_at(m, k, p);
        let r = m.insert(p, (k, v));
        if p < m.len() {
            assert(m[p].0 != k) by {
                if m[p].0 == k {
                    assert(has_key(m, k));
                }
            }
            crate::text::lemma_seq_lt_total(m[p].0, k);
        }
        assert forall|a: int, b: int| 0 <= a < b < r.len() implies seq_lt(#[trigger] r[a].0, #[trigger] r[b].0) by {
            if b < p {
                assert(r[a] == m[a] && r[b] == m[b]);
            } else if b == p {
                assert(r[a] == m[a]);
            } else if a < p {
                assert(r[a] == m[a] && r[b] == m[b - 1]);
                if b - 1 > p {
                    crate::text::lemma_seq_lt_transitive(k, m[p].0, m[b - 1].0);
                }
                crate::text::lemma_seq_lt_transitive(m[a].0, k, m[b - 1].0);
            } else if a == p {
                assert(r[b] == m[b - 1]);
                if b - 1 > p {
                    crate::text::lemma_seq_lt_transitive(k, m[p].0, m[b - 1].0);
                }
            } else {
                assert(r[a] == m[a - 1] && r[b] == m[b - 1]);
            }
        }
    }
}

/// Set `key` to `value` in a mapping's entries: replaced where the key stands,
/// and otherwise inserted before the first key that does not sort below it.
pub fn insert(m: &mut Vec<(String, Value)>, key: &str, value: Value)
    ensures
        ({
            let old_es = entries(old(m)@);
            let new_es = entries(final(m)@);
            if has_key(old_es, key@) {
                new_es == old_es.update(key_index(old_es, key@), (key@, value@))
            } else {
                exists|p: int|
                    insert_at(old_es, key@, p) && new_es == old_es.insert(p, (key@, value@))
            }
        }),
        entries(final(m)@) == put(entries(old(m)@), key@, value@),
        keyed(entries(old(m)@)) ==> keyed(entries(final(m)@)),
{
    broadcast use lemma_entries;

    let ghost old_es = entries(m@);
    match find(m, key) {
        Some(i) => {
            proof {
                lemma_key_index(old_es, key@, i as int);
            }
            let k = string_of(&chars_of(key));
            m.set(i, (k, value));
            proof {
                assert(entries(m@) =~= old_es.update(i as int, (key@, value@)));
            }
        },
        None => {
            let kc = chars_of(key);
            let mut p: usize = 0;
            proof {
                lemma_entries(m@);
            }
            while p < m.len() && chars_lt(&chars_of(m[p].0.as_str()), &kc)
                invariant
                    0 <= p <= m.len(),
                    entries(m@).len() == m@.len(),
                    forall|j: int| 0 <= j < m@.len() ==> #[trigger] entries(m@)[j] == (m@[j].0@, model(m@[j].1)),
                    m@ == old(m)@,
                    kc@ == key@,
                    old_es == entries(m@),
                    forall|j: int| 0 <= j < p ==> seq_lt(#[trigger] old_es[j].0, key@),
                decreases m.len() - p,
            {
                p = p + 1;
            }
            let k = string_of(&kc);
            m.insert(p, (k, value));
            proof {
                assert(insert_at(old_es, key@, p as int));
                assert(entries(m@) =~= old_es.insert(p as int, (key@, value@)));
                let q = choose|q: int| insert_at(old_es, key@, q);
                lemma_insert_at_unique(old_es, key@, p as int, q);
            }
        },
    }
    proof {
        if keyed(old_es) {
            lemma_put_keyed(old_es, key@, value@);
        }
    }
}

} // verus!

verus! {

/// Whether two values read the same.
pub fn same_value(a: &Value, b: &Value) -> (r: bool)
    ensures
        r == (a@ == b@),
    decreases a,
{
    match (a, b) {
        (Value::Null, Value::Null) => true,
        (Value::Bool(x), Value::Bool(y)) => *x == *y,
        (Value::Integer(x), Value::Integer(y)) => same(&chars_of(x.as_str()), &chars_of(y.as_str())),
        (Value::NonFinite(x), Value::NonFinite(y)) => match (x, y) {
            (NonFinite::NaN, NonFinite::NaN) => true,
            (NonFinite::Infinity, NonFinite::Infinity) => true,
            (NonFinite::NegInfinity, NonFinite::NegInfinity) => true,
            _ => false,
        },
        (Value::Text(x), Value::Text(y)) => same(&chars_of(x.as_str()), &chars_of(y.as_str())),
        (Value::List(xs), Value::List(ys)) => {
            proof {
                lemma_models(xs@);
                lemma_models(ys@);
            }
            if xs.len() != ys.len() {
                return false;
            }
            let mut i: usize = 0;
            while i < xs.len()
                invariant
                    0 <= i <= xs.len(),
                    xs.len() == ys.len(),
                    *a == Value::List(*xs),
                    *b == Value::List(*ys),
                    models(xs@).len() == xs@.len(),
                    models(ys@).len() == ys@.len(),
                    forall|j: int| 0 <= j < xs@.len() ==> #[trigger] models(xs@)[j] == model(xs@[j]),
                    forall|j: int| 0 <= j < ys@.len() ==> #[trigger] models(ys@)[j] == model(ys@[j]),
                    forall|j: int| 0 <= j < i ==> models(xs@)[j] == models(ys@)[j],
                decreases xs.len() - i,
            {
                proof {
                    assert(decreases_to!(*a => (*a)->List_0));
                    assert(decreases_to!((*a)->List_0 => xs@[i as int]));
                }
                if !same_value(&xs[i], &ys[i]) {
                    assert(models(xs@)[i as int] != models(ys@)[i as int]);
                    return false;
                }
                i = i + 1;
            }
            assert(models(xs@) =~= models(ys@));
            assert(a@ == Model::List(models(xs@)));
            assert(b@ == Model::List(models(ys@)));
            true
        },
        (Value::Mapping(xs), Value::Mapping(ys)) => {
            proof {
                lemma_entries(xs@);
                lemma_entries(ys@);
            }
            if xs.len() != ys.len() {
                return false;
            }
            let mut i: usize = 0;
            while i < xs.len()
                invariant
                    0 <= i <= xs.len(),
                    xs.len() == ys.len(),
                    *a == Value::Mapping(*xs),
                    *b == Value::Mapping(*ys),
                    entries(xs@).len() == xs@.len(),
                    entries(ys@).len() == ys@.len(),
                    forall|j: int| 0 <= j < xs@.len() ==> #[trigger] entries(xs@)[j] == (xs@[j].0@, model(xs@[j].1)),
                    forall|j: int| 0 <= j < ys@.len() ==> #[trigger] entries(ys@)[j] == (ys@[j].0@, model(ys@[j].1)),
                    forall|j: int| 0 <= j < i ==> entries(xs@)[j] == entries(ys@)[j],
                decreases xs.len() - i,
            {
                proof {
                    assert(decreases_to!(*a => (*a)->Mapping_0));
                    assert(decreases_to!((*a)->Mapping_0 => xs@[i as int]));
                    assert(decreases_to!(xs@[i as int] => xs@[i as int].1));
                }
                if !same(&chars_of(xs[i].0.as_str()), &chars_of(ys[i].0.as_str())) || !same_value(&xs[i].1, &ys[i].1) {
                    assert(entries(xs@)[i as int] != entries(ys@)[i as int]);
                    return false;
                }
                i = i + 1;
            }
            assert(entries(xs@) =~= entries(ys@));
            assert(a@ == Model::Mapping(entries(xs@)));
            assert(b@ == Model::Mapping(entries(ys@)));
            true
        },
        _ => false,
    }
}

} // verus!

verus! {

/// A deep copy of a mapping's entries.
pub fn copy_entries(es: &Vec<(String, Value)>) -> (r: Vec<(String, Value)>)
    ensures
        entries(r@) == entries(es@),
{
    let mut out: Vec<(String, Value)> = Vec::new();
    let mut i: usize = 0;
    while i < es.len()
        invariant
            0 <= i <= es.len(),
            entries(out@) == entries(es@.take(i as int)),
        decreases es.len() - i,
    {
        let c = copy(&es[i].1);
        let k = es[i].0.clone();
        let ghost before = out@;
        out.push((k, c));
        proof {
            assert(es@.take(i + 1).drop_last() =~= es@.take(i as int));
            assert(out@.drop_last() =~= before);
        }
        i = i + 1;
    }
    assert(es@.take(es.len() as int) =~= es@);
    out
}

/// A copy of a string.
pub fn copy_string(t: &String) -> (r: String)
    ensures
        r@ == t@,
{
    t.clone()
}

} // verus!
