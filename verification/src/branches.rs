//! What a consolidation reads of another branch's record: which bodies are
//! judgments, the evidence it gives the field roles, what it keeps in its
//! own order, and the texts a value holds.
use vstd::prelude::*;
use crate::text::{chars_of, string_of};
use crate::value::{Error, Model, Value, copy, entries, field, field_of, find, has_key, lemma_entries, lemma_models, map_entries, model, models};

verus! {

broadcast use vstd::std_specs::vec::group_vec_axioms;

/// A body that reads as a judgment: it has one of the judgment fields.
pub open spec fn judgment_body(es: Seq<(Seq<char>, Model)>) -> bool {
    has_key(es, "verdict"@) || has_key(es, "title"@) || has_key(es, "wrong_if"@) || has_key(es, "reopened_by"@)
        || has_key(es, "rests_on"@) || has_key(es, "depends"@) || has_key(es, "because"@) || has_key(
        es,
        "request"@,
    )
}

/// Whether a body reads as a judgment.
pub fn branch_judgment_body(body: &Vec<(String, Value)>) -> (r: bool)
    ensures
        r == judgment_body(entries(body@)),
{
    find(body, "verdict").is_some() || find(body, "title").is_some() || find(body, "wrong_if").is_some() || find(
        body,
        "reopened_by",
    ).is_some() || find(body, "rests_on").is_some() || find(body, "depends").is_some() || find(
        body,
        "because",
    ).is_some() || find(body, "request").is_some()
}

/// Collections whose members never vote on the field roles.
pub open spec fn no_evidence(name: Seq<char>) -> bool {
    name == "meta"@ || name == "schema"@ || name == "record"@ || name == "also"@ || name == "sources"@ || name
        == "open"@ || name == "questions"@
}

/// A body's fields other than its lists.
pub open spec fn without_lists(es: Seq<(Seq<char>, Model)>) -> Seq<(Seq<char>, Model)>
    decreases es.len(),
{
    if es.len() == 0 {
        Seq::empty()
    } else if es.last().1 is List {
        without_lists(es.drop_last())
    } else {
        without_lists(es.drop_last()).push(es.last())
    }
}

/// A body as evidence for the field roles: a body that is not a judgment
/// loses its lists.
pub open spec fn body_evidence(b: Model) -> Model {
    match b {
        Model::Mapping(es) => if judgment_body(es) {
            b
        } else {
            Model::Mapping(without_lists(es))
        },
        _ => b,
    }
}

/// A collection as evidence for the field roles.
pub open spec fn collection_evidence(name: Seq<char>, c: Model) -> Model {
    match c {
        Model::Mapping(ms) => if no_evidence(name) {
            c
        } else {
            Model::Mapping(Seq::new(ms.len(), |i: int| (ms[i].0, body_evidence(ms[i].1))))
        },
        _ => c,
    }
}

/// A record as evidence for the field roles: in the collections that may
/// vote, the bodies that are not judgments keep no lists, so only a
/// judgment's lists vote for the dependency field.
pub open spec fn role_evidence(doc: Seq<(Seq<char>, Model)>) -> Seq<(Seq<char>, Model)> {
    Seq::new(doc.len(), |i: int| (doc[i].0, collection_evidence(doc[i].0, doc[i].1)))
}

fn keep_non_lists(es: &Vec<(String, Value)>) -> (r: Vec<(String, Value)>)
    ensures
        entries(r@) == without_lists(entries(es@)),
{
    proof {
        lemma_entries(es@);
    }
    let ghost ev = entries(es@);
    let mut out: Vec<(String, Value)> = Vec::new();
    let mut i: usize = 0;
    while i < es.len()
        invariant
            0 <= i <= es.len(),
            ev == entries(es@),
            ev.len() == es@.len(),
            forall|q: int| 0 <= q < es@.len() ==> #[trigger] ev[q] == (es@[q].0@, model(es@[q].1)),
            entries(out@) == without_lists(ev.take(i as int)),
        decreases es.len() - i,
    {
        proof {
            assert(ev.take(i + 1).drop_last() =~= ev.take(i as int));
            assert(ev.take(i + 1).last() == ev[i as int]);
        }
        match &es[i].1 {
            Value::List(_) => {},
            v => {
                let ghost before = out@;
                out.push((string_of(&chars_of(es[i].0.as_str())), copy(v)));
                proof {
                    assert(out@.drop_last() == before);
                }
            },
        }
        i = i + 1;
    }
    proof {
        assert(ev.take(es.len() as int) =~= ev);
    }
    out
}

/// The record's collections as evidence for the field roles.
fn evidence_entries(doc: &Vec<(String, Value)>) -> (r: Vec<(String, Value)>)
    ensures
        entries(r@) == role_evidence(entries(doc@)),
{
    proof {
        lemma_entries(doc@);
    }
    let ghost dv = entries(doc@);
    let mut out: Vec<(String, Value)> = Vec::new();
    let mut i: usize = 0;
    while i < doc.len()
        invariant
            0 <= i <= doc.len(),
            dv == entries(doc@),
            dv.len() == doc@.len(),
            forall|q: int| 0 <= q < doc@.len() ==> #[trigger] dv[q] == (doc@[q].0@, model(doc@[q].1)),
            entries(out@).len() == i,
            forall|q: int| 0 <= q < i ==> #[trigger] entries(out@)[q] == (dv[q].0, collection_evidence(dv[q].0, dv[q].1)),
        decreases doc.len() - i,
    {
        let name = &doc[i].0;
        assert(dv[i as int] == (doc@[i as int].0@, model(doc@[i as int].1)));
        let skip = crate::value::text_is(name, "meta") || crate::value::text_is(name, "schema") || crate::value::text_is(
            name,
            "record",
        ) || crate::value::text_is(name, "also") || crate::value::text_is(name, "sources") || crate::value::text_is(
            name,
            "open",
        ) || crate::value::text_is(name, "questions");
        let item: Value = match &doc[i].1 {
            Value::Mapping(ms) => {
                if skip {
                    copy(&doc[i].1)
                } else {
                    proof {
                        lemma_entries(ms@);
                    }
                    let mut bodies: Vec<(String, Value)> = Vec::new();
                    let mut k: usize = 0;
                    while k < ms.len()
                        invariant
                            0 <= k <= ms.len(),
                            entries(ms@).len() == ms@.len(),
                            forall|q: int| 0 <= q < ms@.len() ==> #[trigger] entries(ms@)[q] == (ms@[q].0@, model(ms@[q].1)),
                            entries(bodies@).len() == k,
                            forall|q: int|
                                0 <= q < k ==> #[trigger] entries(bodies@)[q] == (entries(ms@)[q].0, body_evidence(
                                    entries(ms@)[q].1,
                                )),
                        decreases ms.len() - k,
                    {
                        let b: Value = match &ms[k].1 {
                            Value::Mapping(fs) => {
                                if branch_judgment_body(fs) {
                                    copy(&ms[k].1)
                                } else {
                                    Value::Mapping(keep_non_lists(fs))
                                }
                            },
                            other => copy(other),
                        };
                        assert(model(b) == body_evidence(model(ms@[k as int].1)));
                        let ghost before = bodies@;
                        bodies.push((string_of(&chars_of(ms[k].0.as_str())), b));
                        proof {
                            lemma_entries(bodies@);
                            lemma_entries(before);
                            assert forall|q: int| 0 <= q < k + 1 implies #[trigger] entries(bodies@)[q] == (
                                entries(ms@)[q].0,
                                body_evidence(entries(ms@)[q].1),
                            ) by {
                                if q < k {
                                    assert(bodies@[q] == before[q]);
                                    assert(entries(before)[q] == (before[q].0@, model(before[q].1)));
                                }
                            }
                        }
                        k = k + 1;
                    }
                    proof {
                        let ev = entries(ms@);
                        assert(entries(bodies@) =~= Seq::new(ev.len(), |q: int| (ev[q].0, body_evidence(ev[q].1))));
                    }
                    Value::Mapping(bodies)
                }
            },
            other => copy(other),
        };
        assert(model(item) == collection_evidence(dv[i as int].0, dv[i as int].1));
        let ghost before = out@;
        out.push((string_of(&chars_of(name.as_str())), item));
        proof {
            lemma_entries(out@);
            lemma_entries(before);
            assert forall|q: int| 0 <= q < i + 1 implies #[trigger] entries(out@)[q] == (
                dv[q].0,
                collection_evidence(dv[q].0, dv[q].1),
            ) by {
                if q < i {
                    assert(out@[q] == before[q]);
                    assert(entries(before)[q] == (before[q].0@, model(before[q].1)));
                }
            }
        }
        i = i + 1;
    }
    proof {
        assert(entries(out@) =~= role_evidence(dv));
    }
    out
}

/// Another branch's record as evidence for the field roles; a record that
/// is not a mapping is refused.
pub fn branch_role_evidence(document: &Value) -> (r: Result<Value, Error>)
    ensures
        match r {
            Ok(v) => document@ is Mapping && v@ == Model::Mapping(role_evidence(document@->Mapping_0)),
            Err(e) => document@ !is Mapping && e.0@ == "expected_mapping"@,
        },
{
    match document {
        Value::Mapping(doc) => Ok(Value::Mapping(evidence_entries(doc))),
        _ => Err(crate::fields::error("expected_mapping")),
    }
}

/// Another branch's record, in its own order, as evidence for the field
/// roles; a record that is not a mapping stays as it is.
pub fn branch_role_order(document: &Value) -> (r: Value)
    ensures
        r@ == match document@ {
            Model::Mapping(es) => Model::Mapping(role_evidence(es)),
            other => other,
        },
{
    match document {
        Value::Mapping(doc) => Value::Mapping(evidence_entries(doc)),
        other => copy(other),
    }
}

/// The members whose ids `held` also holds.
pub open spec fn held_members(ms: Seq<(Seq<char>, Model)>, held: Seq<(Seq<char>, Model)>) -> Seq<(Seq<char>, Model)>
    decreases ms.len(),
{
    if ms.len() == 0 {
        Seq::empty()
    } else if has_key(held, ms.last().0) {
        held_members(ms.drop_last(), held).push(ms.last())
    } else {
        held_members(ms.drop_last(), held)
    }
}

/// What of the record, in its own order, was laid: each collection that the
/// laid record holds as a mapping keeps the ids it holds there, and is
/// dropped when none are left.
pub open spec fn kept_collections(cs: Seq<(Seq<char>, Model)>, laid: Model) -> Seq<(Seq<char>, Model)>
    decreases cs.len(),
{
    if cs.len() == 0 {
        Seq::empty()
    } else {
        let prev = kept_collections(cs.drop_last(), laid);
        let (name, members) = cs.last();
        match (members, field_of(laid, name), has_key(map_entries(laid), name)) {
            (Model::Mapping(ms), Model::Mapping(held), true) => if held_members(ms, held).len() > 0 {
                prev.push((name, Model::Mapping(held_members(ms, held))))
            } else {
                prev
            },
            _ => prev,
        }
    }
}

pub open spec fn kept_spec(ordered: Model, laid: Model) -> Model {
    match (ordered, laid) {
        (Model::Mapping(cs), Model::Mapping(_)) => Model::Mapping(kept_collections(cs, laid)),
        _ => ordered,
    }
}

proof fn lemma_held_idempotent(ms: Seq<(Seq<char>, Model)>, held: Seq<(Seq<char>, Model)>)
    ensures
        held_members(held_members(ms, held), held) == held_members(ms, held),
    decreases ms.len(),
{
    if ms.len() > 0 {
        lemma_held_idempotent(ms.drop_last(), held);
        let h = held_members(ms, held);
        if has_key(held, ms.last().0) {
            assert(h.drop_last() =~= held_members(ms.drop_last(), held));
            assert(h.last() == ms.last());
        }
    }
}

proof fn lemma_kept_collections_idempotent(cs: Seq<(Seq<char>, Model)>, laid: Model)
    ensures
        kept_collections(kept_collections(cs, laid), laid) == kept_collections(cs, laid),
    decreases cs.len(),
{
    if cs.len() > 0 {
        lemma_kept_collections_idempotent(cs.drop_last(), laid);
        let k = kept_collections(cs, laid);
        let prev = kept_collections(cs.drop_last(), laid);
        let (name, members) = cs.last();
        match (members, field_of(laid, name), has_key(map_entries(laid), name)) {
            (Model::Mapping(ms), Model::Mapping(held), true) => if held_members(ms, held).len() > 0 {
                lemma_held_idempotent(ms, held);
                assert(k.drop_last() =~= prev);
                assert(k.last() == (name, Model::Mapping(held_members(ms, held))));
            },
            _ => {},
        }
    }
}

/// Keeping what was laid is idempotent: keeping again, against the same
/// laid record, changes nothing.
pub proof fn lemma_kept_idempotent(ordered: Model, laid: Model)
    ensures
        kept_spec(kept_spec(ordered, laid), laid) == kept_spec(ordered, laid),
{
    match (ordered, laid) {
        (Model::Mapping(cs), Model::Mapping(_)) => lemma_kept_collections_idempotent(cs, laid),
        _ => {},
    }
}

/// Each member kept stands under a collection that the laid record holds as
/// a mapping, and that mapping holds the member's id.
pub proof fn lemma_kept_held(cs: Seq<(Seq<char>, Model)>, laid: Model)
    ensures
        forall|i: int|
            0 <= i < kept_collections(cs, laid).len() ==> {
                let (name, members) = #[trigger] kept_collections(cs, laid)[i];
                &&& has_key(map_entries(laid), name)
                &&& field_of(laid, name) is Mapping
                &&& members is Mapping
                &&& forall|j: int|
                    0 <= j < members->Mapping_0.len() ==> has_key(
                        field_of(laid, name)->Mapping_0,
                        (#[trigger] members->Mapping_0[j]).0,
                    )
            },
    decreases cs.len(),
{
    if cs.len() > 0 {
        lemma_kept_held(cs.drop_last(), laid);
        let k = kept_collections(cs, laid);
        let prev = kept_collections(cs.drop_last(), laid);
        let (name, members) = cs.last();
        match (members, field_of(laid, name), has_key(map_entries(laid), name)) {
            (Model::Mapping(ms), Model::Mapping(held), true) => if held_members(ms, held).len() > 0 {
                lemma_held_members_held(ms, held);
                assert forall|i: int| 0 <= i < k.len() - 1 implies #[trigger] k[i] == prev[i] by {}
                assert(k[k.len() - 1] == (name, Model::Mapping(held_members(ms, held))));
            },
            _ => {},
        }
    }
}

proof fn lemma_held_members_held(ms: Seq<(Seq<char>, Model)>, held: Seq<(Seq<char>, Model)>)
    ensures
        forall|j: int| 0 <= j < held_members(ms, held).len() ==> has_key(held, (#[trigger] held_members(ms, held)[j]).0),
    decreases ms.len(),
{
    if ms.len() > 0 {
        lemma_held_members_held(ms.drop_last(), held);
        let h = held_members(ms, held);
        let p = held_members(ms.drop_last(), held);
        if has_key(held, ms.last().0) {
            assert forall|j: int| 0 <= j < h.len() implies has_key(held, (#[trigger] h[j]).0) by {
                if j < p.len() {
                    assert(h[j] == p[j]);
                }
            }
        }
    }
}

fn kept_members(ms: &Vec<(String, Value)>, held: &Vec<(String, Value)>) -> (r: Vec<(String, Value)>)
    ensures
        entries(r@) == held_members(entries(ms@), entries(held@)),
{
    proof {
        lemma_entries(ms@);
    }
    let ghost ev = entries(ms@);
    let mut out: Vec<(String, Value)> = Vec::new();
    let mut i: usize = 0;
    while i < ms.len()
        invariant
            0 <= i <= ms.len(),
            ev == entries(ms@),
            ev.len() == ms@.len(),
            forall|q: int| 0 <= q < ms@.len() ==> #[trigger] ev[q] == (ms@[q].0@, model(ms@[q].1)),
            entries(out@) == held_members(ev.take(i as int), entries(held@)),
        decreases ms.len() - i,
    {
        proof {
            assert(ev.take(i + 1).drop_last() =~= ev.take(i as int));
            assert(ev.take(i + 1).last() == ev[i as int]);
        }
        if crate::value::find(held, ms[i].0.as_str()).is_some() {
            let ghost before = out@;
            out.push((string_of(&chars_of(ms[i].0.as_str())), copy(&ms[i].1)));
            proof {
                assert(out@.drop_last() == before);
            }
        }
        i = i + 1;
    }
    proof {
        assert(ev.take(ms.len() as int) =~= ev);
    }
    out
}

/// A branch's record in its own order, cut to what was laid from it.
pub fn kept_in_order(ordered: &Value, laid: &Value) -> (r: Value)
    ensures
        r@ == kept_spec(ordered@, laid@),
{
    let cs = match (ordered, laid) {
        (Value::Mapping(cs), Value::Mapping(_)) => cs,
        _ => return copy(ordered),
    };
    proof {
        lemma_entries(cs@);
    }
    let ghost ev = entries(cs@);
    let mut out: Vec<(String, Value)> = Vec::new();
    let mut i: usize = 0;
    while i < cs.len()
        invariant
            0 <= i <= cs.len(),
            *ordered == Value::Mapping(*cs),
            laid@ is Mapping,
            ev == entries(cs@),
            ev.len() == cs@.len(),
            forall|q: int| 0 <= q < cs@.len() ==> #[trigger] ev[q] == (cs@[q].0@, model(cs@[q].1)),
            entries(out@) == kept_collections(ev.take(i as int), laid@),
        decreases cs.len() - i,
    {
        proof {
            assert(ev.take(i + 1).drop_last() =~= ev.take(i as int));
            assert(ev.take(i + 1).last() == ev[i as int]);
        }
        let held = field(laid, cs[i].0.as_str());
        let ghost name = ev[i as int].0;
        proof {
            assert(name == cs@[i as int].0@);
            match held {
                Some(h) => {
                    assert(has_key(map_entries(laid@), name));
                    assert(field_of(laid@, name) == h@);
                },
                None => {
                    assert(!has_key(map_entries(laid@), name));
                },
            }
        }
        match (&cs[i].1, held) {
            (Value::Mapping(ms), Some(Value::Mapping(h))) => {
                let k = kept_members(ms, h);
                proof {
                    lemma_entries(k@);
                    let t = ev.take(i + 1);
                    assert(t.last() == (name, Model::Mapping(entries(ms@))));
                    assert(field_of(laid@, name) == Model::Mapping(entries(h@)));
                    let hm = held_members(entries(ms@), entries(h@));
                    assert(entries(k@) == hm);
                    if hm.len() > 0 {
                        assert(kept_collections(t, laid@) == kept_collections(ev.take(i as int), laid@).push(
                            (name, Model::Mapping(hm)),
                        ));
                    } else {
                        assert(kept_collections(t, laid@) == kept_collections(ev.take(i as int), laid@));
                    }
                }
                if k.len() > 0 {
                    let ghost before = out@;
                    let ghost km = Model::Mapping(entries(k@));
                    let item = Value::Mapping(k);
                    assert(model(item) == km);
                    out.push((string_of(&chars_of(cs[i].0.as_str())), item));
                    proof {
                        assert(out@.drop_last() == before);
                        assert(entries(out@) == entries(before).push((name, km)));
                    }
                }
            },
            _ => {
                proof {
                    let t = ev.take(i + 1);
                    assert(t.last() == (name, model(cs@[i as int].1)));
                    assert(kept_collections(t, laid@) == kept_collections(ev.take(i as int), laid@));
                }
            },
        }
        i = i + 1;
    }
    proof {
        assert(ev.take(cs.len() as int) =~= ev);
    }
    Value::Mapping(out)
}

/// The texts a value holds, at any depth, in order.
pub open spec fn texts_in(m: Model) -> Seq<Seq<char>>
    decreases m, 0nat,
{
    match m {
        Model::Text(t) => seq![t],
        Model::List(xs) => texts_in_items(xs),
        Model::Mapping(es) => texts_in_entries(es),
        _ => Seq::empty(),
    }
}

pub open spec fn texts_in_items(xs: Seq<Model>) -> Seq<Seq<char>>
    decreases xs, xs.len(),
{
    if xs.len() == 0 {
        Seq::empty()
    } else {
        proof {
            assert(decreases_to!(xs => xs[xs.len() - 1]));
        }
        texts_in_items(xs.drop_last()) + texts_in(xs.last())
    }
}

pub open spec fn texts_in_entries(es: Seq<(Seq<char>, Model)>) -> Seq<Seq<char>>
    decreases es, es.len(),
{
    if es.len() == 0 {
        Seq::empty()
    } else {
        proof {
            assert(decreases_to!(es => es[es.len() - 1]));
            assert(decreases_to!(es[es.len() - 1] => es[es.len() - 1].1));
        }
        texts_in_entries(es.drop_last()) + texts_in(es.last().1)
    }
}

/// Appends the texts a value holds, at any depth, in order.
pub fn text_values(v: &Value, out: &mut Vec<String>)
    ensures
        crate::page::strings(final(out)@) == crate::page::strings(old(out)@) + texts_in(v@),
    decreases v,
{
    match v {
        Value::Text(s) => {
            let ghost before = out@;
            out.push(string_of(&chars_of(s.as_str())));
            proof {
                assert(crate::page::strings(out@) =~= crate::page::strings(before) + seq![s@]);
            }
        },
        Value::List(xs) => {
            proof {
                lemma_models(xs@);
            }
            let ghost ms = models(xs@);
            let ghost start = crate::page::strings(out@);
            let mut i: usize = 0;
            while i < xs.len()
                invariant
                    0 <= i <= xs.len(),
                    *v == Value::List(*xs),
                    ms == models(xs@),
                    ms.len() == xs@.len(),
                    forall|q: int| 0 <= q < xs@.len() ==> #[trigger] ms[q] == model(xs@[q]),
                    crate::page::strings(out@) == start + texts_in_items(ms.take(i as int)),
                decreases xs.len() - i,
            {
                proof {
                    assert(decreases_to!(*v => (*v)->List_0));
                    assert(decreases_to!((*v)->List_0 => xs@[i as int]));
                    assert(ms.take(i + 1).drop_last() =~= ms.take(i as int));
                    assert(ms.take(i + 1).last() == ms[i as int]);
                }
                text_values(&xs[i], out);
                proof {
                    assert(start + texts_in_items(ms.take(i + 1)) =~= start + texts_in_items(ms.take(i as int))
                        + texts_in(ms[i as int]));
                }
                i = i + 1;
            }
            proof {
                assert(ms.take(xs.len() as int) =~= ms);
            }
        },
        Value::Mapping(es) => {
            proof {
                lemma_entries(es@);
            }
            let ghost ev = entries(es@);
            let ghost start = crate::page::strings(out@);
            let mut i: usize = 0;
            while i < es.len()
                invariant
                    0 <= i <= es.len(),
                    *v == Value::Mapping(*es),
                    ev == entries(es@),
                    ev.len() == es@.len(),
                    forall|q: int| 0 <= q < es@.len() ==> #[trigger] ev[q] == (es@[q].0@, model(es@[q].1)),
                    crate::page::strings(out@) == start + texts_in_entries(ev.take(i as int)),
                decreases es.len() - i,
            {
                proof {
                    assert(decreases_to!(*v => (*v)->Mapping_0));
                    assert(decreases_to!((*v)->Mapping_0 => es@[i as int]));
                    assert(decreases_to!(es@[i as int] => es@[i as int].1));
                    assert(ev.take(i + 1).drop_last() =~= ev.take(i as int));
                    assert(ev.take(i + 1).last() == ev[i as int]);
                }
                text_values(&es[i].1, out);
                proof {
                    assert(start + texts_in_entries(ev.take(i + 1)) =~= start + texts_in_entries(ev.take(i as int))
                        + texts_in(ev[i as int].1));
                }
                i = i + 1;
            }
            proof {
                assert(ev.take(es.len() as int) =~= ev);
            }
        },
        _ => {
            assert(crate::page::strings(out@) =~= crate::page::strings(out@) + Seq::<Seq<char>>::empty());
        },
    }
}

/// A record's `meta`, or an empty mapping.
pub fn metadata(document: &Value) -> (r: Value)
    ensures
        r@ == if has_key(map_entries(document@), "meta"@) {
            field_of(document@, "meta"@)
        } else {
            Model::Mapping(Seq::empty())
        },
{
    match field(document, "meta") {
        Some(m) => copy(m),
        None => {
            let r = Value::Mapping(Vec::new());
            assert(entries(Seq::<(String, Value)>::empty()) =~= Seq::<(Seq<char>, Model)>::empty());
            r
        },
    }
}

} // verus!
