//! How a record's files combine into one document: each file's collections
//! are merged into what came before, and the file each member came from is
//! remembered.
use vstd::prelude::*;
use crate::text::{chars_lt, chars_of, ends_with, has_suffix, seq_lt, string_of};
use crate::value::{
    Error, Model, Value, copy, copy_entries, entries, find, first_key, has_key, insert_at, key_index, lemma_entries,
    lemma_first_key_exists, lemma_insert_at_unique, lemma_key_index, lemma_no_key, lookup, model, put, text_is,
};

verus! {

broadcast use vstd::std_specs::vec::group_vec_axioms;

/// The entries with `k` set to `v`: replaced where the key stands, else added
/// at the end.
pub open spec fn updated<V>(es: Seq<(Seq<char>, V)>, k: Seq<char>, v: V) -> Seq<(Seq<char>, V)> {
    if has_key(es, k) {
        es.update(key_index(es, k), (k, v))
    } else {
        es.push((k, v))
    }
}

/// The entries without key `k`.
pub open spec fn removed<V>(es: Seq<(Seq<char>, V)>, k: Seq<char>) -> Seq<(Seq<char>, V)> {
    if has_key(es, k) {
        es.remove(key_index(es, k))
    } else {
        es
    }
}

/// Sets `key` to `value` among a mapping's entries: replaced where the key
/// stands, and otherwise added at the end.
pub fn update_entry(es: &mut Vec<(String, Value)>, key: &str, value: Value)
    ensures
        entries(final(es)@) == updated(entries(old(es)@), key@, value@),
{
    broadcast use lemma_entries;

    let ghost old_es = entries(es@);
    match find(es, key) {
        Some(i) => {
            proof {
                lemma_key_index(old_es, key@, i as int);
            }
            es.set(i, (string_of(&chars_of(key)), value));
            proof {
                assert(entries(es@) =~= old_es.update(i as int, (key@, value@)));
            }
        },
        None => {
            es.push((string_of(&chars_of(key)), value));
            proof {
                assert(entries(es@) =~= old_es.push((key@, value@)));
            }
        },
    }
}


/// The first place of `key` among named entries.
fn find_key<V: DeepView>(m: &Vec<(String, V)>, key: &str) -> (r: Option<usize>)
    ensures
        match r {
            Some(i) => first_key(m.deep_view(), key@, i as int),
            None => !has_key(m.deep_view(), key@),
        },
{
    let ghost d = m.deep_view();
    let mut i: usize = 0;
    while i < m.len()
        invariant
            0 <= i <= m.len(),
            d == m.deep_view(),
            d.len() == m@.len(),
            forall|j: int| 0 <= j < i ==> #[trigger] d[j].0 != key@,
        decreases m.len() - i,
    {
        assert(d[i as int].0 == m@[i as int].0@);
        if text_is(&m[i].0, key) {
            return Some(i);
        }
        i = i + 1;
    }
    None
}

/// Sets `key` to `v` among sorted named entries: replaced where the key
/// stands, else inserted before the first key that does not sort below it.
fn put_entry<V: DeepView>(m: &mut Vec<(String, V)>, key: &str, v: V)
    ensures
        final(m).deep_view() == put(old(m).deep_view(), key@, v.deep_view()),
{
    let ghost d = m.deep_view();
    let ghost vd = v.deep_view();
    match find_key(m, key) {
        Some(i) => {
            proof {
                lemma_key_index(d, key@, i as int);
            }
            m.set(i, (string_of(&chars_of(key)), v));
            proof {
                assert(m.deep_view() =~= d.update(i as int, (key@, vd)));
            }
        },
        None => {
            let kc = chars_of(key);
            let mut p: usize = 0;
            while p < m.len() && chars_lt(&chars_of(m[p].0.as_str()), &kc)
                invariant
                    0 <= p <= m.len(),
                    d == m.deep_view(),
                    d.len() == m@.len(),
                    kc@ == key@,
                    forall|j: int| 0 <= j < p ==> seq_lt(#[trigger] d[j].0, key@),
                decreases m.len() - p,
            {
                assert(d[p as int].0 == m@[p as int].0@);
                p = p + 1;
            }
            proof {
                if p < m.len() {
                    assert(d[p as int].0 == m@[p as int].0@);
                }
                assert(insert_at(d, key@, p as int));
                let q = choose|q: int| insert_at(d, key@, q);
                lemma_insert_at_unique(d, key@, p as int, q);
            }
            m.insert(p, (string_of(&kc), v));
            proof {
                assert(m.deep_view() =~= d.insert(p as int, (key@, vd)));
            }
        },
    }
}

/// Removes `key` from named entries, where it stands.
fn remove_entry<V: DeepView>(m: &mut Vec<(String, V)>, key: &str)
    ensures
        final(m).deep_view() == removed(old(m).deep_view(), key@),
{
    let ghost d = m.deep_view();
    match find_key(m, key) {
        Some(i) => {
            proof {
                lemma_key_index(d, key@, i as int);
            }
            m.remove(i);
            proof {
                assert(m.deep_view() =~= d.remove(i as int));
            }
        },
        None => {},
    }
}


/// For each collection, the file that each of its members came from.
pub type Origins = Seq<(Seq<char>, Seq<(Seq<char>, Seq<char>)>)>;

/// The entries with each of `add` set in turn.
pub open spec fn updated_all(es: Seq<(Seq<char>, Model)>, add: Seq<(Seq<char>, Model)>) -> Seq<(Seq<char>, Model)>
    decreases add.len(),
{
    if add.len() == 0 {
        es
    } else {
        let p = updated_all(es, add.drop_last());
        updated(p, add.last().0, add.last().1)
    }
}

/// One field of an incoming mapping set into the mapping `key` held: the
/// prefixes of `meta` are merged word by word, anything else replaces.
pub open spec fn merge_field(old: Seq<(Seq<char>, Model)>, key: Seq<char>, field: Seq<char>, item: Model) -> Seq<(Seq<char>, Model)> {
    match (item, lookup(old, field)) {
        (Model::Mapping(add), Some(Model::Mapping(existing))) if key == "meta"@ && field == "prefixes"@ => updated(
            old,
            field,
            Model::Mapping(updated_all(existing, add)),
        ),
        _ => updated(old, field, item),
    }
}

pub open spec fn merge_fields(old: Seq<(Seq<char>, Model)>, key: Seq<char>, new: Seq<(Seq<char>, Model)>) -> Seq<(Seq<char>, Model)>
    decreases new.len(),
{
    if new.len() == 0 {
        old
    } else {
        let p = merge_fields(old, key, new.drop_last());
        merge_field(p, key, new.last().0, new.last().1)
    }
}

/// One top-level entry of a file merged into the document: a mapping the
/// document already holds as a mapping takes the file's fields one by one;
/// anything else is set.
pub open spec fn merge_entry(t: Seq<(Seq<char>, Model)>, key: Seq<char>, value: Model) -> Seq<(Seq<char>, Model)> {
    match (lookup(t, key), value) {
        (Some(Model::Mapping(old)), Model::Mapping(new)) => updated(t, key, Model::Mapping(merge_fields(old, key, new))),
        _ => updated(t, key, value),
    }
}

/// The members of a mapping, each remembered as coming from `path`.
pub open spec fn paths_for(cur: Seq<(Seq<char>, Seq<char>)>, m: Seq<(Seq<char>, Model)>, path: Seq<char>) -> Seq<(Seq<char>, Seq<char>)>
    decreases m.len(),
{
    if m.len() == 0 {
        cur
    } else {
        put(paths_for(cur, m.drop_last(), path), m.last().0, path)
    }
}

/// Where the members of entry `key` came from, once a file's value for it
/// is merged into a document that held `t`: a mapping adds its members under
/// this file (starting afresh where the document did not hold a mapping);
/// anything else forgets them.
pub open spec fn origin_step(o: Origins, t: Seq<(Seq<char>, Model)>, key: Seq<char>, value: Model, path: Seq<char>) -> Origins {
    match value {
        Model::Mapping(m) => {
            let o1 = match lookup(t, key) {
                Some(Model::Mapping(_)) => o,
                _ => removed(o, key),
            };
            let cur = match lookup(o1, key) {
                Some(x) => x,
                None => Seq::empty(),
            };
            put(o1, key, paths_for(cur, m, path))
        },
        _ => removed(o, key),
    }
}

/// A file's entries merged, in order, into a document and its origins.
pub open spec fn merged(t: Seq<(Seq<char>, Model)>, inc: Seq<(Seq<char>, Model)>, o: Origins, path: Seq<char>) -> (
    Seq<(Seq<char>, Model)>,
    Origins,
)
    decreases inc.len(),
{
    if inc.len() == 0 {
        (t, o)
    } else {
        let (t1, o1) = merged(t, inc.drop_last(), o, path);
        let (k, v) = inc.last();
        (merge_entry(t1, k, v), origin_step(o1, t1, k, v, path))
    }
}

fn merge_field_into(o: &mut Vec<(String, Value)>, key: &str, field: &str, item: &Value)
    ensures
        entries(final(o)@) == merge_field(entries(old(o)@), key@, field@, item@),
{
    let ghost before = entries(o@);
    if crate::text::same(&chars_of(key), &chars_of("meta")) && crate::text::same(&chars_of(field), &chars_of("prefixes")) {
        if let Value::Mapping(add) = item {
            let existing: Option<Vec<(String, Value)>> = match crate::value::get(o, field) {
                Some(Value::Mapping(ex)) => Some(copy_entries(ex)),
                _ => None,
            };
            if let Some(mut ex) = existing {
                let ghost e0 = entries(ex@);
                proof {
                    lemma_entries(add@);
                }
                let mut i: usize = 0;
                while i < add.len()
                    invariant
                        0 <= i <= add.len(),
                        entries(add@).len() == add@.len(),
                        forall|q: int| 0 <= q < add@.len() ==> #[trigger] entries(add@)[q] == (add@[q].0@, model(add@[q].1)),
                        entries(ex@) == updated_all(e0, entries(add@).take(i as int)),
                    decreases add.len() - i,
                {
                    proof {
                        let t = entries(add@).take(i + 1);
                        assert(t.drop_last() =~= entries(add@).take(i as int));
                        assert(t.last() == (add@[i as int].0@, model(add@[i as int].1)));
                    }
                    update_entry(&mut ex, add[i].0.as_str(), copy(&add[i].1));
                    i = i + 1;
                }
                proof {
                    assert(entries(add@).take(add.len() as int) =~= entries(add@));
                }
                let ghost exm = Model::Mapping(entries(ex@));
                let merged_value = Value::Mapping(ex);
                assert(merged_value@ == exm);
                update_entry(o, field, merged_value);
                return;
            }
        }
    }
    update_entry(o, field, copy(item));
}

/// A copy of the paths remembered for a collection.
fn copy_paths(ps: &Vec<(String, String)>) -> (r: Vec<(String, String)>)
    ensures
        r.deep_view() == ps.deep_view(),
{
    let mut out: Vec<(String, String)> = Vec::new();
    let mut i: usize = 0;
    while i < ps.len()
        invariant
            0 <= i <= ps.len(),
            out.deep_view() == ps.deep_view().take(i as int),
        decreases ps.len() - i,
    {
        let ghost before = out.deep_view();
        let a = ps[i].0.clone();
        let b = ps[i].1.clone();
        out.push((a, b));
        proof {
            assert(ps.deep_view()[i as int] == (ps@[i as int].0@, ps@[i as int].1@));
            assert(out.deep_view() =~= before.push((a@, b@)));
            assert(ps.deep_view().take(i + 1) =~= ps.deep_view().take(i as int).push(ps.deep_view()[i as int]));
        }
        i = i + 1;
    }
    assert(ps.deep_view().take(ps.len() as int) =~= ps.deep_view());
    out
}

/// Merges a record file's value into the document read so far, keeping for
/// each collection the file each of its members came from. Both must be
/// mappings.
pub fn merge(target: &mut Value, incoming: &Value, path: &str, origins: &mut Vec<(String, Vec<(String, String)>)>) -> (r: Result<(), Error>)
    ensures
        match (old(target)@, incoming@) {
            (Model::Mapping(t), Model::Mapping(inc)) => {
                &&& r is Ok
                &&& final(target)@ == Model::Mapping(merged(t, inc, old(origins).deep_view(), path@).0)
                &&& final(origins).deep_view() == merged(t, inc, old(origins).deep_view(), path@).1
            },
            _ => {
                &&& r matches Err(e) && e.0@ == "invalid_schema"@
                &&& final(target)@ == old(target)@
                &&& final(origins).deep_view() == old(origins).deep_view()
            },
        },
{
    let mut t = match &*target {
        Value::Mapping(es) => copy_entries(es),
        _ => return Err(crate::fields::error("invalid_schema")),
    };
    let inc = match incoming {
        Value::Mapping(es) => es,
        _ => return Err(crate::fields::error("invalid_schema")),
    };
    let ghost t0 = entries(t@);
    let ghost o0 = origins.deep_view();
    proof {
        lemma_entries(inc@);
    }
    let mut i: usize = 0;
    while i < inc.len()
        invariant
            0 <= i <= inc.len(),
            entries(inc@).len() == inc@.len(),
            forall|q: int| 0 <= q < inc@.len() ==> #[trigger] entries(inc@)[q] == (inc@[q].0@, model(inc@[q].1)),
            (entries(t@), origins.deep_view()) == merged(t0, entries(inc@).take(i as int), o0, path@),
        decreases inc.len() - i,
    {
        proof {
            let s = entries(inc@).take(i + 1);
            assert(s.drop_last() =~= entries(inc@).take(i as int));
            assert(s.last() == (inc@[i as int].0@, model(inc@[i as int].1)));
        }
        let key = inc[i].0.as_str();
        let value = &inc[i].1;
        let ghost tb = entries(t@);
        match value {
            Value::Mapping(m) => {
                let holds_map = match crate::value::get(&t, key) {
                    Some(Value::Mapping(_)) => true,
                    _ => false,
                };
                if !holds_map {
                    remove_entry(origins, key);
                }
                let mut cur: Vec<(String, String)> = match find_key(origins, key) {
                    Some(j) => copy_paths(&origins[j].1),
                    None => Vec::new(),
                };
                proof {
                    let o1 = origins.deep_view();
                    if has_key(o1, key@) {
                        lemma_first_key_exists(o1, key@);
                        lemma_key_index(o1, key@, key_index(o1, key@));
                    }
                    assert(cur.deep_view() == match lookup(o1, key@) {
                        Some(x) => x,
                        None => Seq::<(Seq<char>, Seq<char>)>::empty(),
                    });
                    lemma_entries(m@);
                }
                let ghost c0 = cur.deep_view();
                let mut k: usize = 0;
                while k < m.len()
                    invariant
                        0 <= k <= m.len(),
                        entries(m@).len() == m@.len(),
                        forall|q: int| 0 <= q < m@.len() ==> #[trigger] entries(m@)[q] == (m@[q].0@, model(m@[q].1)),
                        cur.deep_view() == paths_for(c0, entries(m@).take(k as int), path@),
                    decreases m.len() - k,
                {
                    proof {
                        let s = entries(m@).take(k + 1);
                        assert(s.drop_last() =~= entries(m@).take(k as int));
                        assert(s.last() == (m@[k as int].0@, model(m@[k as int].1)));
                    }
                    put_entry(&mut cur, m[k].0.as_str(), string_of(&chars_of(path)));
                    k = k + 1;
                }
                proof {
                    assert(entries(m@).take(m.len() as int) =~= entries(m@));
                }
                put_entry(origins, key, cur);
            },
            _ => {
                remove_entry(origins, key);
            },
        }
        let nested: Option<Vec<(String, Value)>> = match (crate::value::get(&t, key), value) {
            (Some(Value::Mapping(old)), Value::Mapping(_)) => Some(copy_entries(old)),
            _ => None,
        };
        match (nested, value) {
            (Some(mut o), Value::Mapping(new)) => {
                let ghost ob = entries(o@);
                proof {
                    lemma_entries(new@);
                }
                let mut f: usize = 0;
                while f < new.len()
                    invariant
                        0 <= f <= new.len(),
                        entries(new@).len() == new@.len(),
                        forall|q: int| 0 <= q < new@.len() ==> #[trigger] entries(new@)[q] == (new@[q].0@, model(new@[q].1)),
                        entries(o@) == merge_fields(ob, key@, entries(new@).take(f as int)),
                    decreases new.len() - f,
                {
                    proof {
                        let s = entries(new@).take(f + 1);
                        assert(s.drop_last() =~= entries(new@).take(f as int));
                        assert(s.last() == (new@[f as int].0@, model(new@[f as int].1)));
                    }
                    merge_field_into(&mut o, key, new[f].0.as_str(), &new[f].1);
                    f = f + 1;
                }
                proof {
                    assert(entries(new@).take(new.len() as int) =~= entries(new@));
                }
                let ghost om = Model::Mapping(entries(o@));
                let nv = Value::Mapping(o);
                assert(nv@ == om);
                update_entry(&mut t, key, nv);
            },
            _ => {
                update_entry(&mut t, key, copy(value));
            },
        }
        i = i + 1;
    }
    proof {
        assert(entries(inc@).take(inc.len() as int) =~= entries(inc@));
    }
    *target = Value::Mapping(t);
    Ok(())
}


/// The values an entry of a record offers as pointers: a text, a list's
/// items, or a mapping's values.
pub open spec fn offered(m: Model) -> Seq<Model> {
    match m {
        Model::Text(_) => seq![m],
        Model::List(xs) => xs,
        Model::Mapping(es) => entry_values(es),
        _ => Seq::empty(),
    }
}

pub open spec fn entry_values(es: Seq<(Seq<char>, Model)>) -> Seq<Model>
    decreases es.len(),
{
    if es.len() == 0 {
        Seq::empty()
    } else {
        entry_values(es.drop_last()).push(es.last().1)
    }
}

/// The texts among some values that name YAML files, in order.
pub open spec fn yaml_names(vs: Seq<Model>) -> Seq<Seq<char>>
    decreases vs.len(),
{
    if vs.len() == 0 {
        Seq::empty()
    } else {
        let p = yaml_names(vs.drop_last());
        match vs.last() {
            Model::Text(t) => if ends_with(t, ".yaml"@) || ends_with(t, ".yml"@) {
                p.push(t)
            } else {
                p
            },
            _ => p,
        }
    }
}

/// The other files a record file points to, by the names it gives them under
/// `record` and then `also`, relative to its own directory.
pub open spec fn pointed(doc: Model) -> Seq<Seq<char>> {
    yaml_names(offered(crate::value::field_of(doc, "record"@))) + yaml_names(
        offered(crate::value::field_of(doc, "also"@)),
    )
}

fn offered_values(v: Option<&Value>) -> (r: Vec<Value>)
    ensures
        crate::value::models(r@) == match v {
            Some(x) => offered(x@),
            None => Seq::empty(),
        },
{
    let mut out: Vec<Value> = Vec::new();
    match v {
        Some(Value::Text(t)) => {
            out.push(Value::Text(t.clone()));
            proof {
                crate::value::lemma_models(out@);
                assert(out@[0]@ == Model::Text(t@));
                assert(crate::value::models(out@) =~= seq![Model::Text(t@)]);
            }
        },
        Some(Value::List(xs)) => {
            let mut i: usize = 0;
            proof {
                crate::value::lemma_models(xs@);
            }
            while i < xs.len()
                invariant
                    0 <= i <= xs.len(),
                    crate::value::models(xs@).len() == xs@.len(),
                    forall|q: int| 0 <= q < xs@.len() ==> #[trigger] crate::value::models(xs@)[q] == model(xs@[q]),
                    crate::value::models(out@) == crate::value::models(xs@).take(i as int),
                decreases xs.len() - i,
            {
                let ghost before = out@;
                out.push(copy(&xs[i]));
                proof {
                    crate::value::lemma_models(out@);
                    crate::value::lemma_models(before);
                    assert(crate::value::models(out@) =~= crate::value::models(xs@).take(i + 1));
                }
                i = i + 1;
            }
            proof {
                assert(crate::value::models(xs@).take(xs.len() as int) =~= crate::value::models(xs@));
            }
        },
        Some(Value::Mapping(es)) => {
            let mut i: usize = 0;
            proof {
                lemma_entries(es@);
            }
            while i < es.len()
                invariant
                    0 <= i <= es.len(),
                    entries(es@).len() == es@.len(),
                    forall|q: int| 0 <= q < es@.len() ==> #[trigger] entries(es@)[q] == (es@[q].0@, model(es@[q].1)),
                    crate::value::models(out@) == entry_values(entries(es@).take(i as int)),
                decreases es.len() - i,
            {
                proof {
                    let s = entries(es@).take(i + 1);
                    assert(s.drop_last() =~= entries(es@).take(i as int));
                    assert(s.last() == (es@[i as int].0@, model(es@[i as int].1)));
                }
                let ghost before = out@;
                out.push(copy(&es[i].1));
                proof {
                    crate::value::lemma_models(out@);
                    crate::value::lemma_models(before);
                    assert(crate::value::models(out@) =~= crate::value::models(before).push(model(es@[i as int].1)));
                }
                i = i + 1;
            }
            proof {
                assert(entries(es@).take(es.len() as int) =~= entries(es@));
            }
        },
        _ => {
            proof {
                assert(crate::value::models(out@) =~= Seq::<Model>::empty());
            }
        },
    }
    out
}

/// The other files a record file points to: the names of YAML files it
/// gives under `record` and then `also` (a text, a list's items, or a
/// mapping's values), relative to its own directory.
pub fn pointers(value: &Value) -> (r: Vec<String>)
    ensures
        crate::page::strings(r@) == pointed(value@),
{
    let mut out: Vec<String> = Vec::new();
    let mut part: usize = 0;
    while part < 2
        invariant
            0 <= part <= 2,
            crate::page::strings(out@) == if part == 0 {
                Seq::empty()
            } else if part == 1 {
                yaml_names(offered(crate::value::field_of(value@, "record"@)))
            } else {
                pointed(value@)
            },
        decreases 2 - part,
    {
        let key = if part == 0 {
            "record"
        } else {
            "also"
        };
        let given = crate::value::field(value, key);
        proof {
            if given is None {
                assert(crate::value::field_of(value@, key@) == Model::Null);
            }
        }
        let vs = offered_values(given);
        let ghost ms = crate::value::models(vs@);
        let ghost start = crate::page::strings(out@);
        proof {
            crate::value::lemma_models(vs@);
        }
        let mut i: usize = 0;
        while i < vs.len()
            invariant
                0 <= i <= vs.len(),
                ms == crate::value::models(vs@),
                ms.len() == vs@.len(),
                forall|q: int| 0 <= q < vs@.len() ==> #[trigger] ms[q] == model(vs@[q]),
                crate::page::strings(out@) == start + yaml_names(ms.take(i as int)),
            decreases vs.len() - i,
        {
            proof {
                assert(ms.take(i + 1).drop_last() =~= ms.take(i as int));
                assert(ms.take(i + 1).last() == model(vs@[i as int]));
            }
            if let Value::Text(t) = &vs[i] {
                let tc = chars_of(t.as_str());
                if has_suffix(&tc, &chars_of(".yaml")) || has_suffix(&tc, &chars_of(".yml")) {
                    let ghost before = out@;
                    out.push(t.clone());
                    proof {
                        assert(crate::page::strings(out@) =~= crate::page::strings(before).push(t@));
                    }
                }
            }
            i = i + 1;
        }
        proof {
            assert(ms.take(vs.len() as int) =~= ms);
        }
        part = part + 1;
    }
    out
}


/// Each key stands once.
pub open spec fn unique_keys<V>(es: Seq<(Seq<char>, V)>) -> bool {
    forall|i: int, j: int| 0 <= i < j < es.len() ==> #[trigger] es[i].0 != #[trigger] es[j].0
}

proof fn lemma_paths_for(cur: Seq<(Seq<char>, Seq<char>)>, m: Seq<(Seq<char>, Model)>, path: Seq<char>, mk: Seq<char>)
    requires
        has_key(m, mk),
    ensures
        lookup(paths_for(cur, m, path), mk) == Some(path),
    decreases m.len(),
{
    let d = m.drop_last();
    if m.last().0 == mk {
        crate::value::lemma_put_same(paths_for(cur, d, path), mk, path);
    } else {
        let w = choose|w: int| 0 <= w < m.len() && #[trigger] m[w].0 == mk;
        assert(w < m.len() - 1);
        assert(d[w] == m[w]);
        lemma_paths_for(cur, d, path, mk);
        crate::value::lemma_put_other(paths_for(cur, d, path), m.last().0, path, mk);
    }
}

proof fn lemma_removed_other<V>(o: Seq<(Seq<char>, V)>, k2: Seq<char>, k: Seq<char>)
    requires
        k2 != k,
    ensures
        lookup(removed(o, k2), k) == lookup(o, k),
{
    if has_key(o, k2) {
        lemma_first_key_exists(o, k2);
        let x = key_index(o, k2);
        let r = o.remove(x);
        if has_key(o, k) {
            lemma_first_key_exists(o, k);
            let q = key_index(o, k);
            lemma_key_index(o, k, q);
            if q < x {
                assert(first_key(r, k, q)) by {
                    assert(r[q] == o[q]);
                    assert forall|j: int| 0 <= j < q implies #[trigger] r[j].0 != k by {
                        assert(r[j] == o[j]);
                    }
                }
                lemma_key_index(r, k, q);
            } else {
                assert(q != x);
                assert(first_key(r, k, q - 1)) by {
                    assert(r[q - 1] == o[q]);
                    assert forall|j: int| 0 <= j < q - 1 implies #[trigger] r[j].0 != k by {
                        if j < x {
                            assert(r[j] == o[j]);
                        } else {
                            assert(r[j] == o[j + 1]);
                        }
                    }
                }
                lemma_key_index(r, k, q - 1);
            }
        } else {
            assert forall|j: int| 0 <= j < r.len() implies #[trigger] r[j].0 != k by {
                if j < x {
                    assert(r[j] == o[j]);
                } else {
                    assert(r[j] == o[j + 1]);
                }
            }
            lemma_no_key(r, k);
        }
    }
}

proof fn lemma_origin_other(o: Origins, t: Seq<(Seq<char>, Model)>, k2: Seq<char>, v: Model, path: Seq<char>, k: Seq<char>)
    requires
        k2 != k,
    ensures
        lookup(origin_step(o, t, k2, v, path), k) == lookup(o, k),
{
    lemma_removed_other(o, k2, k);
    match v {
        Model::Mapping(m) => {
            let o1 = match lookup(t, k2) {
                Some(Model::Mapping(_)) => o,
                _ => removed(o, k2),
            };
            let cur = match lookup(o1, k2) {
                Some(x) => x,
                None => Seq::empty(),
            };
            crate::value::lemma_put_other(o1, k2, paths_for(cur, m, path), k);
        },
        _ => {},
    }
}

/// Merging a file remembers where each of its collections' members came
/// from: every member of a mapping the file holds is remembered, under that
/// mapping's name, as coming from the file.
pub proof fn lemma_merged_origins(
    t: Seq<(Seq<char>, Model)>,
    inc: Seq<(Seq<char>, Model)>,
    o: Origins,
    path: Seq<char>,
    i: int,
    member: Seq<char>,
)
    requires
        unique_keys(inc),
        0 <= i < inc.len(),
        inc[i].1 is Mapping,
        has_key(inc[i].1->Mapping_0, member),
    ensures
        match lookup(merged(t, inc, o, path).1, inc[i].0) {
            Some(ps) => lookup(ps, member) == Some(path),
            None => false,
        },
    decreases inc.len(),
{
    let d = inc.drop_last();
    let (t1, o1) = merged(t, d, o, path);
    let (k, v) = inc.last();
    if i == inc.len() - 1 {
        let m = v->Mapping_0;
        let o2 = match lookup(t1, k) {
            Some(Model::Mapping(_)) => o1,
            _ => removed(o1, k),
        };
        let cur = match lookup(o2, k) {
            Some(x) => x,
            None => Seq::empty(),
        };
        crate::value::lemma_put_same(o2, k, paths_for(cur, m, path));
        lemma_paths_for(cur, m, path, member);
    } else {
        assert(unique_keys(d)) by {
            assert forall|a: int, b: int| 0 <= a < b < d.len() implies #[trigger] d[a].0 != #[trigger] d[b].0 by {
                assert(d[a] == inc[a]);
                assert(d[b] == inc[b]);
            }
        }
        assert(d[i] == inc[i]);
        lemma_merged_origins(t, d, o, path, i, member);
        assert(inc[i].0 != inc[inc.len() - 1].0);
        lemma_origin_other(o1, t1, k, v, path, inc[i].0);
    }
}


/// The first file merged into an empty document is the document: each of
/// its entries is added as it stands.
pub proof fn lemma_merged_into_empty(inc: Seq<(Seq<char>, Model)>, o: Origins, path: Seq<char>)
    requires
        unique_keys(inc),
    ensures
        merged(Seq::empty(), inc, o, path).0 == inc,
    decreases inc.len(),
{
    if inc.len() > 0 {
        let d = inc.drop_last();
        assert(unique_keys(d)) by {
            assert forall|a: int, b: int| 0 <= a < b < d.len() implies #[trigger] d[a].0 != #[trigger] d[b].0 by {
                assert(d[a] == inc[a]);
                assert(d[b] == inc[b]);
            }
        }
        lemma_merged_into_empty(d, o, path);
        let k = inc.last().0;
        assert forall|j: int| 0 <= j < d.len() implies #[trigger] d[j].0 != k by {
            assert(d[j] == inc[j]);
            assert(inc[j].0 != inc[inc.len() - 1].0);
        }
        lemma_no_key(d, k);
        assert(d.push(inc.last()) =~= inc);
    }
}


/// How many files a record may span.
pub const MAX_MEMBERS: usize = 100_000;

/// A walk over a record's files: the files still to visit (the next last),
/// and the files found so far, in the order they were found. The reader
/// pops a path, makes it absolute, says whether it exists, and for a file
/// it visits hands back the files that file points to.
pub struct MemberWalk {
    pub pending: Vec<String>,
    pub found: Vec<String>,
}

impl MemberWalk {
    /// No file is found twice.
    pub open spec fn wf(&self) -> bool {
        crate::page::strings(self.found@).no_duplicates()
    }

    /// A walk that will visit the given files first, in their order.
    pub fn start(entries: &Vec<String>) -> (r: MemberWalk)
        ensures
            r.wf(),
            crate::page::strings(r.pending@) == crate::page::strings(entries@).reverse(),
            r.found@.len() == 0,
    {
        let mut pending: Vec<String> = Vec::new();
        let mut i: usize = entries.len();
        while i > 0
            invariant
                0 <= i <= entries.len(),
                crate::page::strings(pending@) == crate::page::strings(entries@).subrange(i as int, entries@.len() as int).reverse(),
            decreases i,
        {
            let ghost before = crate::page::strings(pending@);
            pending.push(entries[i - 1].clone());
            proof {
                let e = crate::page::strings(entries@);
                assert(crate::page::strings(pending@) =~= before.push(e[i - 1]));
                assert(e.subrange(i - 1, e.len() as int).reverse() =~= e.subrange(i as int, e.len() as int).reverse().push(
                    e[i - 1],
                ));
            }
            i = i - 1;
        }
        proof {
            let e = crate::page::strings(entries@);
            assert(e.subrange(0, e.len() as int) =~= e);
        }
        MemberWalk { pending, found: Vec::new() }
    }

    /// The next file to visit, if any is left.
    pub fn next_path(&mut self) -> (r: Option<String>)
        ensures
            final(self).found@ == old(self).found@,
            match r {
                Some(p) => old(self).pending@.len() > 0 && p@ == old(self).pending@.last()@
                    && final(self).pending@ == old(self).pending@.drop_last(),
                None => old(self).pending@.len() == 0 && final(self).pending@ == old(self).pending@,
            },
    {
        self.pending.pop()
    }

    /// Visits a file, once made absolute: a file found before, or one that
    /// does not exist, is passed over (false); any other is found (true),
    /// unless that makes more files than a record may span.
    pub fn visit(&mut self, path: &String, exists: bool) -> (r: Result<bool, Error>)
        requires
            old(self).wf(),
        ensures
            final(self).wf(),
            final(self).pending@ == old(self).pending@,
            match r {
                Ok(false) => (crate::page::strings(old(self).found@).contains(path@) || !exists) && final(self).found@
                    == old(self).found@,
                Ok(true) => !crate::page::strings(old(self).found@).contains(path@) && exists
                    && old(self).found@.len() < MAX_MEMBERS && crate::page::strings(final(self).found@)
                    == crate::page::strings(old(self).found@).push(path@),
                Err(e) => !crate::page::strings(old(self).found@).contains(path@) && exists
                    && old(self).found@.len() >= MAX_MEMBERS && e.0@ == "source_limit"@ && final(self).found@
                    == old(self).found@,
            },
    {
        let ghost f = crate::page::strings(self.found@);
        let mut i: usize = 0;
        while i < self.found.len()
            invariant
                0 <= i <= self.found.len(),
                old(self).wf(),
                self.found@ == old(self).found@,
                self.pending@ == old(self).pending@,
                f == crate::page::strings(self.found@),
                forall|q: int| 0 <= q < i ==> #[trigger] self.found@[q]@ != path@,
            decreases self.found.len() - i,
        {
            if text_is(&self.found[i], path.as_str()) {
                assert(f[i as int] == path@);
                return Ok(false);
            }
            i = i + 1;
        }
        proof {
            if f.contains(path@) {
                let q = choose|q: int| 0 <= q < f.len() && f[q] == path@;
                assert(self.found@[q]@ == path@);
            }
        }
        if !exists {
            return Ok(false);
        }
        if self.found.len() >= MAX_MEMBERS {
            return Err(crate::fields::error("source_limit"));
        }
        self.found.push(path.clone());
        proof {
            assert(crate::page::strings(self.found@) =~= f.push(path@));
        }
        Ok(true)
    }

    /// The files a visited file points to are visited next, in their order.
    pub fn point(&mut self, pointers: Vec<String>)
        ensures
            final(self).found@ == old(self).found@,
            crate::page::strings(final(self).pending@) == crate::page::strings(old(self).pending@) + crate::page::strings(
                pointers@,
            ).reverse(),
    {
        let ghost start = crate::page::strings(self.pending@);
        let ghost e = crate::page::strings(pointers@);
        let mut i: usize = pointers.len();
        while i > 0
            invariant
                0 <= i <= pointers.len(),
                self.found@ == old(self).found@,
                e == crate::page::strings(pointers@),
                crate::page::strings(self.pending@) == start + e.subrange(i as int, e.len() as int).reverse(),
            decreases i,
        {
            let ghost before = crate::page::strings(self.pending@);
            self.pending.push(pointers[i - 1].clone());
            proof {
                assert(crate::page::strings(self.pending@) =~= before.push(e[i - 1]));
                assert(e.subrange(i - 1, e.len() as int).reverse() =~= e.subrange(i as int, e.len() as int).reverse().push(
                    e[i - 1],
                ));
            }
            i = i - 1;
        }
        proof {
            assert(e.subrange(0, e.len() as int) =~= e);
        }
    }
}

} // verus!
