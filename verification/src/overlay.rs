//! A hypothesis laid over a base record: each of its collections takes its
//! members from wherever the base held them, and the rest of the base stays.
use vstd::prelude::*;
use crate::fields::{coll_view, collections, collections_of, texts};
use crate::text::{chars_of, string_of};
use crate::value::{Error, Model, Value, copy, copy_entries, entries, field, field_of, find, has_key, insert, key_index, lemma_entries, lemma_models, lookup, model, models, put};

verus! {

broadcast use vstd::std_specs::vec::group_vec_axioms;

/// The texts among a list's items (none for anything else).
pub fn strings_of(value: &Value) -> (r: Vec<String>)
    ensures
        crate::page::strings(r@) == match value@ {
            Model::List(xs) => texts(xs),
            _ => Seq::empty(),
        },
{
    let mut out: Vec<String> = Vec::new();
    match value {
        Value::List(xs) => {
            proof {
                lemma_models(xs@);
            }
            let ghost ms = models(xs@);
            let mut i: usize = 0;
            while i < xs.len()
                invariant
                    0 <= i <= xs.len(),
                    ms == models(xs@),
                    ms.len() == xs@.len(),
                    forall|q: int| 0 <= q < xs@.len() ==> #[trigger] ms[q] == model(xs@[q]),
                    crate::page::strings(out@) == texts(ms.take(i as int)),
                decreases xs.len() - i,
            {
                proof {
                    assert(ms.take(i + 1).drop_last() =~= ms.take(i as int));
                    assert(ms.take(i + 1).last() == ms[i as int]);
                }
                if let Value::Text(t) = &xs[i] {
                    let ghost before = out@;
                    out.push(string_of(&chars_of(t.as_str())));
                    proof {
                        assert(crate::page::strings(out@) =~= crate::page::strings(before).push(t@));
                    }
                }
                i = i + 1;
            }
            proof {
                assert(ms.take(xs.len() as int) =~= ms);
            }
        },
        _ => {
            assert(crate::page::strings(out@) =~= Seq::<Seq<char>>::empty());
        },
    }
    out
}

/// What a judgment concludes: its `verdict` field, or its `title` where that is null.
pub open spec fn verdict_of(b: Model) -> Model {
    if field_of(b, "verdict"@) == Model::Null {
        field_of(b, "title"@)
    } else {
        field_of(b, "verdict"@)
    }
}

pub fn verdict(body: &Value) -> (r: Value)
    ensures
        r@ == verdict_of(body@),
{
    match field(body, "verdict") {
        Some(Value::Null) | None => match field(body, "title") {
            Some(t) => copy(t),
            None => Value::Null,
        },
        Some(v) => copy(v),
    }
}

/// A body whose dependency field lists texts and only texts.
pub open spec fn shaped_spec(b: Model, dep: Seq<char>) -> bool {
    crate::fields::text_list(field_of(b, dep))
}

/// Whether a body lists, under the dependency field, one or more texts.
pub fn shaped(body: &Value, dep: &str) -> (r: bool)
    ensures
        r == shaped_spec(body@, dep@),
{
    match field(body, dep) {
        Some(Value::List(xs)) => {
            proof {
                lemma_models(xs@);
            }
            if xs.len() == 0 {
                return false;
            }
            let mut i: usize = 0;
            while i < xs.len()
                invariant
                    0 <= i <= xs.len(),
                    xs@.len() > 0,
                    field_of(body@, dep@) == Model::List(models(xs@)),
                    models(xs@).len() == xs@.len(),
                    forall|q: int| 0 <= q < xs@.len() ==> #[trigger] models(xs@)[q] == model(xs@[q]),
                    forall|q: int| 0 <= q < i ==> (#[trigger] models(xs@)[q]) is Text,
                decreases xs.len() - i,
            {
                match &xs[i] {
                    Value::Text(_) => {},
                    _ => {
                        assert(!(models(xs@)[i as int] is Text));
                        return false;
                    },
                }
                i = i + 1;
            }
            true
        },
        _ => false,
    }
}

/// The entries without those whose keys `ids` has.
pub open spec fn without_ids(vs: Seq<(Seq<char>, Model)>, ids: Seq<(Seq<char>, Model)>) -> Seq<(Seq<char>, Model)>
    decreases vs.len(),
{
    if vs.len() == 0 {
        Seq::empty()
    } else if has_key(ids, vs.last().0) {
        without_ids(vs.drop_last(), ids)
    } else {
        without_ids(vs.drop_last(), ids).push(vs.last())
    }
}

/// The entries with each member set in turn.
pub open spec fn put_all(es: Seq<(Seq<char>, Model)>, ms: Seq<(Seq<char>, Model)>) -> Seq<(Seq<char>, Model)>
    decreases ms.len(),
{
    if ms.len() == 0 {
        es
    } else {
        put(put_all(es, ms.drop_last()), ms.last().0, ms.last().1)
    }
}

/// The other collections give up the members of collection `c`.
pub open spec fn released(out: Seq<(Seq<char>, Model)>, c: (Seq<char>, Seq<(Seq<char>, Model)>)) -> Seq<(Seq<char>, Model)> {
    Seq::new(
        out.len(),
        |i: int|
            if out[i].0 != c.0 && out[i].1 is Mapping {
                (out[i].0, Model::Mapping(without_ids(out[i].1->Mapping_0, c.1)))
            } else {
                out[i]
            },
    )
}

/// Collection `c` laid over the record `out`: the others give up its
/// members, and it takes them, set over what it held (as a mapping).
pub open spec fn laid(out: Seq<(Seq<char>, Model)>, c: (Seq<char>, Seq<(Seq<char>, Model)>)) -> Seq<(Seq<char>, Model)> {
    let r = released(out, c);
    let held = match lookup(r, c.0) {
        Some(Model::Mapping(es)) => es,
        _ => Seq::empty(),
    };
    put(r, c.0, Model::Mapping(put_all(held, c.1)))
}

pub open spec fn laid_all(out: Seq<(Seq<char>, Model)>, cs: Seq<(Seq<char>, Seq<(Seq<char>, Model)>)>) -> Seq<(Seq<char>, Model)>
    decreases cs.len(),
{
    if cs.len() == 0 {
        out
    } else {
        laid(laid_all(out, cs.drop_last()), cs.last())
    }
}

/// A hypothesis laid over a base record: for each of its collections, the
/// base's other mappings give up its members and it takes them. A base that
/// is not a mapping takes no collections.
pub open spec fn layer_spec(base: Model, hypothesis: Model) -> Result<Model, Seq<char>> {
    match collections_of(hypothesis) {
        None => Err("expected_mapping"@),
        Some(cs) => if cs.len() == 0 {
            Ok(base)
        } else {
            match base {
                Model::Mapping(es) => Ok(Model::Mapping(laid_all(es, cs))),
                _ => Err("expected_mapping"@),
            }
        },
    }
}

fn remove_ids(vs: &Vec<(String, Value)>, ids: &Vec<(String, Value)>) -> (r: Vec<(String, Value)>)
    ensures
        entries(r@) == without_ids(entries(vs@), entries(ids@)),
{
    proof {
        lemma_entries(vs@);
    }
    let ghost ev = entries(vs@);
    let mut out: Vec<(String, Value)> = Vec::new();
    let mut i: usize = 0;
    while i < vs.len()
        invariant
            0 <= i <= vs.len(),
            ev == entries(vs@),
            ev.len() == vs@.len(),
            forall|q: int| 0 <= q < vs@.len() ==> #[trigger] ev[q] == (vs@[q].0@, model(vs@[q].1)),
            entries(out@) == without_ids(ev.take(i as int), entries(ids@)),
        decreases vs.len() - i,
    {
        proof {
            assert(ev.take(i + 1).drop_last() =~= ev.take(i as int));
            assert(ev.take(i + 1).last() == ev[i as int]);
        }
        if find(ids, vs[i].0.as_str()).is_none() {
            let ghost before = out@;
            out.push((string_of(&chars_of(vs[i].0.as_str())), copy(&vs[i].1)));
            proof {
                assert(out@.drop_last() == before);
            }
        }
        i = i + 1;
    }
    proof {
        assert(ev.take(vs.len() as int) =~= ev);
    }
    out
}

fn lay(out: &mut Vec<(String, Value)>, name: &String, members: &Vec<(String, Value)>)
    ensures
        entries(final(out)@) == laid(entries(old(out)@), (name@, entries(members@))),
{
    let ghost start = entries(out@);
    let ghost c = (name@, entries(members@));
    proof {
        lemma_entries(out@);
    }
    let mut next: Vec<(String, Value)> = Vec::new();
    let mut i: usize = 0;
    while i < out.len()
        invariant
            0 <= i <= out@.len(),
            c == (name@, entries(members@)),
            start == entries(out@),
            start.len() == out@.len(),
            forall|q: int| 0 <= q < out@.len() ==> #[trigger] start[q] == (out@[q].0@, model(out@[q].1)),
            entries(next@).len() == i,
            forall|q: int| 0 <= q < i ==> #[trigger] entries(next@)[q] == released(start, c)[q],
        decreases out.len() - i,
    {
        assert(start[i as int] == (out@[i as int].0@, model(out@[i as int].1)));
        let other = !crate::text::same(&chars_of(out[i].0.as_str()), &chars_of(name.as_str()));
        let item: Value = match &out[i].1 {
            Value::Mapping(vs) => {
                if other {
                    Value::Mapping(remove_ids(vs, members))
                } else {
                    copy(&out[i].1)
                }
            },
            v => copy(v),
        };
        proof {
            let e = start[i as int];
            assert(other == (e.0 != c.0));
            if other && e.1 is Mapping {
                assert(released(start, c)[i as int] == (e.0, Model::Mapping(without_ids(e.1->Mapping_0, c.1))));
            } else {
                assert(released(start, c)[i as int] == e);
            }
        }
        assert(model(item) == released(start, c)[i as int].1);
        let ghost before = next@;
        next.push((string_of(&chars_of(out[i].0.as_str())), item));
        proof {
            lemma_entries(next@);
            lemma_entries(before);
            assert forall|q: int| 0 <= q < i + 1 implies #[trigger] entries(next@)[q] == released(start, c)[q] by {
                if q < i {
                    assert(next@[q] == before[q]);
                    assert(entries(before)[q] == (before[q].0@, model(before[q].1)));
                }
            }
        }
        i = i + 1;
    }
    proof {
        assert(entries(next@) =~= released(start, c));
    }
    let ghost r = entries(next@);
    let mut held: Vec<(String, Value)> = match crate::value::get(&next, name.as_str()) {
        Some(Value::Mapping(es)) => copy_entries(es),
        _ => Vec::new(),
    };
    proof {
        lemma_entries(held@);
        match lookup(r, c.0) {
            Some(Model::Mapping(es)) => {},
            _ => {
                assert(entries(held@) =~= Seq::<(Seq<char>, Model)>::empty());
            },
        }
    }
    let ghost h0 = entries(held@);
    proof {
        lemma_entries(members@);
    }
    let mut k: usize = 0;
    while k < members.len()
        invariant
            0 <= k <= members.len(),
            entries(members@).len() == members@.len(),
            forall|q: int| 0 <= q < members@.len() ==> #[trigger] entries(members@)[q] == (members@[q].0@, model(members@[q].1)),
            entries(held@) == put_all(h0, entries(members@).take(k as int)),
        decreases members.len() - k,
    {
        proof {
            let t = entries(members@).take(k + 1);
            assert(t.drop_last() =~= entries(members@).take(k as int));
            assert(t.last() == (members@[k as int].0@, model(members@[k as int].1)));
        }
        insert(&mut held, members[k].0.as_str(), copy(&members[k].1));
        k = k + 1;
    }
    proof {
        assert(entries(members@).take(members.len() as int) =~= entries(members@));
    }
    let ghost hm = Model::Mapping(entries(held@));
    let item = Value::Mapping(held);
    assert(model(item) == hm);
    insert(&mut next, name.as_str(), item);
    *out = next;
}

/// A hypothesis laid over a base record.
pub fn layer(base: &Value, hypothesis: &Value) -> (r: Result<Value, Error>)
    ensures
        match r {
            Ok(v) => layer_spec(base@, hypothesis@) == Ok::<Model, Seq<char>>(v@),
            Err(e) => layer_spec(base@, hypothesis@) == Err::<Model, Seq<char>>(e.0@),
        },
{
    let cs = match collections(hypothesis) {
        Ok(c) => c,
        Err(e) => return Err(e),
    };
    if cs.len() == 0 {
        return Ok(copy(base));
    }
    let mut out = match base {
        Value::Mapping(es) => copy_entries(es),
        _ => return Err(crate::fields::error("expected_mapping")),
    };
    let ghost cv = coll_view(cs@);
    let ghost start = entries(out@);
    let mut i: usize = 0;
    while i < cs.len()
        invariant
            0 <= i <= cs.len(),
            cv == coll_view(cs@),
            cv.len() == cs@.len(),
            entries(out@) == laid_all(start, cv.take(i as int)),
        decreases cs.len() - i,
    {
        proof {
            assert(cv.take(i + 1).drop_last() =~= cv.take(i as int));
            assert(cv.take(i + 1).last() == (cs@[i as int].0@, entries(cs@[i as int].1@)));
        }
        lay(&mut out, &cs[i].0, &cs[i].1);
        i = i + 1;
    }
    proof {
        assert(cv.take(cs.len() as int) =~= cv);
    }
    Ok(Value::Mapping(out))
}


/// The value that the last entry under `k` carries, where one is.
pub open spec fn last_value(ms: Seq<(Seq<char>, Model)>, k: Seq<char>) -> Option<Model>
    decreases ms.len(),
{
    if ms.len() == 0 {
        None
    } else if ms.last().0 == k {
        Some(ms.last().1)
    } else {
        last_value(ms.drop_last(), k)
    }
}

proof fn lemma_put_all(es: Seq<(Seq<char>, Model)>, ms: Seq<(Seq<char>, Model)>, k: Seq<char>)
    ensures
        lookup(put_all(es, ms), k) == match last_value(ms, k) {
            Some(v) => Some(v),
            None => lookup(es, k),
        },
    decreases ms.len(),
{
    if ms.len() > 0 {
        lemma_put_all(es, ms.drop_last(), k);
        if ms.last().0 == k {
            crate::value::lemma_put_same(put_all(es, ms.drop_last()), k, ms.last().1);
        } else {
            crate::value::lemma_put_other(put_all(es, ms.drop_last()), ms.last().0, ms.last().1, k);
        }
    }
}

proof fn lemma_last_value_has(ms: Seq<(Seq<char>, Model)>, k: Seq<char>)
    requires
        has_key(ms, k),
    ensures
        last_value(ms, k) is Some,
    decreases ms.len(),
{
    let d = ms.drop_last();
    if ms.last().0 != k {
        let w = choose|w: int| 0 <= w < ms.len() && #[trigger] ms[w].0 == k;
        assert(d[w] == ms[w]);
        lemma_last_value_has(d, k);
    }
}

proof fn lemma_without_ids(vs: Seq<(Seq<char>, Model)>, ids: Seq<(Seq<char>, Model)>, k: Seq<char>)
    requires
        has_key(ids, k),
    ensures
        !has_key(without_ids(vs, ids), k),
    decreases vs.len(),
{
    if vs.len() > 0 {
        lemma_without_ids(vs.drop_last(), ids, k);
        let w = without_ids(vs.drop_last(), ids);
        if !has_key(ids, vs.last().0) {
            let u = w.push(vs.last());
            assert forall|j: int| 0 <= j < u.len() implies #[trigger] u[j].0 != k by {
                if j < w.len() {
                    assert(u[j] == w[j]);
                }
            }
        }
    }
}

proof fn lemma_same_keys<V>(a: Seq<(Seq<char>, V)>, b: Seq<(Seq<char>, V)>, n: Seq<char>)
    requires
        a.len() == b.len(),
        forall|i: int| 0 <= i < a.len() ==> (#[trigger] a[i]).0 == b[i].0,
    ensures
        has_key(a, n) == has_key(b, n),
        has_key(a, n) ==> key_index(a, n) == key_index(b, n),
{
    if has_key(a, n) {
        crate::value::lemma_first_key_exists(a, n);
        let i = key_index(a, n);
        assert(crate::value::first_key(b, n, i)) by {
            assert(a[i].0 == b[i].0);
            assert forall|j: int| 0 <= j < i implies #[trigger] b[j].0 != n by {
                assert(a[j].0 == b[j].0);
            }
        }
        crate::value::lemma_key_index(b, n, i);
    } else if has_key(b, n) {
        let w = choose|w: int| 0 <= w < b.len() && #[trigger] b[w].0 == n;
        assert(a[w].0 == b[w].0);
    }
}

/// Laying collection `c` over a record moves each of its members: `c` holds
/// each member id with the value that the collection's last entry for it
/// carries, and no other mapping of the record holds that id any more.
pub proof fn lemma_laid_moves(out: Seq<(Seq<char>, Model)>, c: (Seq<char>, Seq<(Seq<char>, Model)>), k: Seq<char>)
    requires
        has_key(c.1, k),
    ensures
        match lookup(laid(out, c), c.0) {
            Some(Model::Mapping(es)) => lookup(es, k) == last_value(c.1, k) && has_key(es, k),
            _ => false,
        },
        forall|n: Seq<char>|
            n != c.0 ==> match #[trigger] lookup(laid(out, c), n) {
                Some(Model::Mapping(es)) => !has_key(es, k),
                _ => true,
            },
{
    let r = released(out, c);
    let held = match lookup(r, c.0) {
        Some(Model::Mapping(es)) => es,
        _ => Seq::empty(),
    };
    crate::value::lemma_put_same(r, c.0, Model::Mapping(put_all(held, c.1)));
    lemma_put_all(held, c.1, k);
    lemma_last_value_has(c.1, k);
    let es = put_all(held, c.1);
    if !has_key(es, k) {
        crate::value::lemma_no_key(es, k);
    }
    assert forall|n: Seq<char>|
        n != c.0 implies match #[trigger] lookup(laid(out, c), n) {
            Some(Model::Mapping(es2)) => !has_key(es2, k),
            _ => true,
        } by {
        crate::value::lemma_put_other(r, c.0, Model::Mapping(put_all(held, c.1)), n);
        lemma_same_keys(out, r, n);
        if has_key(r, n) {
            crate::value::lemma_first_key_exists(r, n);
            let i = key_index(r, n);
            if out[i].1 is Mapping {
                lemma_without_ids(out[i].1->Mapping_0, c.1, k);
            }
        }
    }
}

} // verus!
