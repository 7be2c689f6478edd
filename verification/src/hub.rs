//! The facts a record's page is built from: the fields that name
//! dependencies and predicates, the page's language and direction, which
//! entries are judgments, and what the page shows of an entry.
use vstd::prelude::*;
use crate::page::{holds_string, str_set, strings};
use crate::text::{chars_of, string_of};
use crate::value::{
    Error, Model, Value, copy, entries, field, field_of, get, has_key, insert, lemma_entries, lookup, map_entries, model,
    put, text_is, truth, truthy,
};

verus! {

broadcast use vstd::std_specs::vec::group_vec_axioms;

/// The text a role names among the read fields, else the given default.
pub open spec fn role_or(fields: Seq<(Seq<char>, Model)>, role: Seq<char>, default: Seq<char>) -> Seq<char> {
    match lookup(fields, role) {
        Some(Model::Text(t)) => t,
        _ => default,
    }
}

fn role_text(fields: &Vec<(String, Value)>, role: &str, default: &str) -> (r: String)
    ensures
        r@ == role_or(entries(fields@), role@, default@),
{
    match get(fields, role) {
        Some(Value::Text(t)) => string_of(&chars_of(t.as_str())),
        _ => string_of(&chars_of(default)),
    }
}

/// The dependency and predicate fields a page reads: those the record's
/// snapshot fields name, else `rests_on` and `wrong_if`.
pub fn page_fields(fields: &Vec<(String, Value)>) -> (r: (String, String))
    ensures
        r.0@ == role_or(entries(fields@), "deps"@, "rests_on"@),
        r.1@ == role_or(entries(fields@), "predicate"@, "wrong_if"@),
{
    (role_text(fields, "deps", "rests_on"), role_text(fields, "predicate", "wrong_if"))
}

/// The page's language: the record's `meta.language` where it is `en`, `he`
/// or `ar`, else `en`; and its direction, right to left for `he` and `ar`.
pub open spec fn language_of(document: Model) -> Seq<char> {
    let meta = field_of(document, "meta"@);
    let l = if meta is Mapping {
        field_of(meta, "language"@)
    } else {
        Model::Null
    };
    match l {
        Model::Text(t) => if t == "en"@ || t == "he"@ || t == "ar"@ {
            t
        } else {
            "en"@
        },
        _ => "en"@,
    }
}

pub open spec fn direction_of(language: Seq<char>) -> Seq<char> {
    if language == "he"@ || language == "ar"@ {
        "rtl"@
    } else {
        "ltr"@
    }
}

pub fn page_language(document: &Value) -> (r: (String, String))
    ensures
        r.0@ == language_of(document@),
        r.1@ == direction_of(language_of(document@)),
{
    let lang: String = match field(document, "meta") {
        Some(Value::Mapping(m)) => {
            proof {
                lemma_entries(m@);
            }
            match get(m, "language") {
                Some(Value::Text(t)) => {
                    if text_is(t, "en") || text_is(t, "he") || text_is(t, "ar") {
                        string_of(&chars_of(t.as_str()))
                    } else {
                        string_of(&chars_of("en"))
                    }
                },
                _ => string_of(&chars_of("en")),
            }
        },
        _ => string_of(&chars_of("en")),
    };
    proof {
        match field_of(document@, "meta"@) {
            Model::Mapping(_) => {},
            _ => {},
        }
    }
    let dir = if text_is(&lang, "he") || text_is(&lang, "ar") {
        string_of(&chars_of("rtl"))
    } else {
        string_of(&chars_of("ltr"))
    };
    (lang, dir)
}

/// The fields of an entry's body a page shows, in the order they are read.
pub open spec fn fact_keys() -> Seq<Seq<char>> {
    seq![
        "v"@,
        "rule"@,
        "from"@,
        "at"@,
        "of"@,
        "read"@,
        "quoted"@,
        "url"@,
        "file"@,
        "asked"@,
        "measure"@,
    ]
}

fn fact_key(i: usize) -> (r: &'static str)
    requires
        i < 11,
    ensures
        r@ == fact_keys()[i as int],
{
    if i == 0 {
        "v"
    } else if i == 1 {
        "rule"
    } else if i == 2 {
        "from"
    } else if i == 3 {
        "at"
    } else if i == 4 {
        "of"
    } else if i == 5 {
        "read"
    } else if i == 6 {
        "quoted"
    } else if i == 7 {
        "url"
    } else if i == 8 {
        "file"
    } else if i == 9 {
        "asked"
    } else {
        "measure"
    }
}

/// The truthy ones among the first `n` shown fields of a body, as a
/// mapping in key order.
pub open spec fn facts_upto(body: Seq<(Seq<char>, Model)>, n: nat) -> Seq<(Seq<char>, Model)>
    decreases n,
{
    if n == 0 {
        Seq::empty()
    } else {
        let p = facts_upto(body, (n - 1) as nat);
        let k = fact_keys()[n - 1];
        match lookup(body, k) {
            Some(v) => if truthy(v) {
                put(p, k, v)
            } else {
                p
            },
            None => p,
        }
    }
}

/// What a page shows of an entry that is not a judgment: its truthy shown
/// fields, its `quoted` as its `v` where it has no `v`, and as `par` the
/// entry it reads from where that is another id of the page.
pub open spec fn entry_facts_spec(
    body: Seq<(Seq<char>, Model)>,
    id: Seq<char>,
    ids: Set<Seq<char>>,
) -> Seq<(Seq<char>, Model)> {
    let f = facts_upto(body, 11);
    let f2 = if !has_key(f, "v"@) && has_key(f, "quoted"@) {
        put(f, "v"@, lookup(f, "quoted"@)->0)
    } else {
        f
    };
    match lookup(body, "from"@) {
        Some(Model::Text(p)) => if ids.contains(p) && p != id {
            put(f2, "par"@, Model::List(seq![Model::Text(p)]))
        } else {
            f2
        },
        _ => f2,
    }
}

pub fn entry_facts(body: &Vec<(String, Value)>, id: &str, ids: &Vec<String>) -> (r: Vec<(String, Value)>)
    ensures
        entries(r@) == entry_facts_spec(entries(body@), id@, str_set(ids@)),
{
    let ghost es = entries(body@);
    let mut out: Vec<(String, Value)> = Vec::new();
    assert(entries(out@) =~= Seq::empty());
    let mut i: usize = 0;
    while i < 11
        invariant
            0 <= i <= 11,
            es == entries(body@),
            entries(out@) == facts_upto(es, i as nat),
        decreases 11 - i,
    {
        let k = fact_key(i);
        match get(body, k) {
            Some(v) => {
                if truth(v) {
                    insert(&mut out, k, copy(v));
                }
            },
            None => {},
        }
        i = i + 1;
    }
    let ghost f = entries(out@);
    proof {
        lemma_entries(out@);
    }
    let has_v = get(&out, "v").is_some();
    let quoted = match get(&out, "quoted") {
        Some(q) => Some(copy(q)),
        None => None,
    };
    if !has_v {
        match quoted {
            Some(q) => {
                insert(&mut out, "v", q);
            },
            None => {},
        }
    }
    match get(body, "from") {
        Some(Value::Text(p)) => {
            let pc = chars_of(p.as_str());
            if holds_string(ids, &pc) && !text_is(p, id) {
                let mut one: Vec<Value> = Vec::new();
                one.push(Value::Text(string_of(&pc)));
                proof {
                    crate::value::lemma_models(one@);
                    assert(crate::value::models(one@) =~= seq![Model::Text(p@)]);
                }
                insert(&mut out, "par", Value::List(one));
            }
        },
        _ => {},
    }
    out
}

/// How many times `d` stands in `s`.
pub open spec fn count_of(s: Seq<Seq<char>>, d: Seq<char>) -> nat
    decreases s.len(),
{
    if s.len() == 0 {
        0
    } else {
        count_of(s.drop_last(), d) + if s.last() == d {
            1nat
        } else {
            0nat
        }
    }
}

/// The judgments that use entry `d`, in order: each judgment once for each
/// time its dependency list names `d`.
pub open spec fn used_spec(
    judgments: Seq<Seq<char>>,
    nodes: Seq<(Seq<char>, Model)>,
    d: Seq<char>,
    dep: Seq<char>,
) -> Seq<Seq<char>>
    decreases judgments.len(),
{
    if judgments.len() == 0 {
        Seq::empty()
    } else {
        let j = judgments.last();
        let n = match crate::page::body_of(nodes, j) {
            Some(b) => count_of(crate::page::deps_spec(b, dep), d),
            None => 0,
        };
        used_spec(judgments.drop_last(), nodes, d, dep) + Seq::new(n, |i: int| j)
    }
}

/// The judgments whose dependencies name entry `d`, as the page lists them
/// under `used`.
pub fn used_by(d: &str, judgments: &Vec<String>, nodes: &Vec<(String, Value)>, dep: &str) -> (r: Vec<String>)
    requires
        forall|i: int| 0 <= i < judgments@.len() ==> crate::page::readable_node(entries(nodes@), #[trigger] judgments@[i]@),
    ensures
        strings(r@) == used_spec(strings(judgments@), entries(nodes@), d@, dep@),
{
    let ghost jv = strings(judgments@);
    let mut out: Vec<String> = Vec::new();
    let mut i: usize = 0;
    while i < judgments.len()
        invariant
            0 <= i <= judgments.len(),
            jv == strings(judgments@),
            forall|q: int| 0 <= q < judgments@.len() ==> crate::page::readable_node(entries(nodes@), #[trigger] judgments@[q]@),
            strings(out@) == used_spec(jv.take(i as int), entries(nodes@), d@, dep@),
        decreases judgments.len() - i,
    {
        assert(crate::page::readable_node(entries(nodes@), judgments@[i as int]@));
        let ghost before = strings(out@);
        let ghost jid = judgments@[i as int]@;
        let ds: Vec<String> = match crate::page::body(nodes, judgments[i].as_str()) {
            Some(b) => crate::page::deps(&Value::Mapping(crate::value::copy_entries(b)), dep),
            None => Vec::new(),
        };
        let ghost dv = strings(ds@);
        let ghost n = match crate::page::body_of(entries(nodes@), jid) {
            Some(b) => count_of(crate::page::deps_spec(b, dep@), d@),
            None => 0,
        };
        assert(count_of(dv, d@) == n);
        let mut k: usize = 0;
        while k < ds.len()
            invariant
                0 <= k <= ds.len(),
                dv == strings(ds@),
                strings(out@) == before + Seq::new(count_of(dv.take(k as int), d@), |q: int| jid),
                0 <= i < judgments@.len(),
                jid == judgments@[i as int]@,
            decreases ds.len() - k,
        {
            proof {
                assert(dv.take(k + 1).drop_last() =~= dv.take(k as int));
                assert(dv.take(k + 1).last() == ds@[k as int]@);
            }
            if crate::value::text_is(&ds[k], d) {
                let ghost o = strings(out@);
                out.push(string_of(&chars_of(judgments[i].as_str())));
                proof {
                    assert(strings(out@) =~= o.push(jid));
                    assert(strings(out@) =~= before + Seq::new(count_of(dv.take(k + 1), d@), |q: int| jid));
                }
            } else {
                proof {
                    assert(Seq::new(count_of(dv.take(k + 1), d@), |q: int| jid) =~= Seq::new(count_of(dv.take(k as int), d@), |q: int| jid));
                }
            }
            k = k + 1;
        }
        proof {
            assert(dv.take(ds.len() as int) =~= dv);
            assert(jv.take(i + 1).drop_last() =~= jv.take(i as int));
            assert(jv.take(i + 1).last() == jid);
        }
        i = i + 1;
    }
    assert(jv.take(judgments.len() as int) =~= jv);
    out
}

/// The first of `keys` under which a body holds a truthy value, as text, or
/// empty where none does.
pub open spec fn first_truthy_text(body: Seq<(Seq<char>, Model)>, keys: Seq<Seq<char>>) -> Seq<char>
    decreases keys.len(),
{
    if keys.len() == 0 {
        Seq::empty()
    } else {
        match lookup(body, keys[0]) {
            Some(v) => if truthy(v) {
                crate::page::textish(v)
            } else {
                first_truthy_text(body, keys.drop_first())
            },
            None => first_truthy_text(body, keys.drop_first()),
        }
    }
}

fn first_truthy(body: &Vec<(String, Value)>, keys: &[&str]) -> (r: String)
    ensures
        r@ == first_truthy_text(entries(body@), keys@.map_values(|k: &str| k@)),
{
    let ghost ks = keys@.map_values(|k: &str| k@);
    assert(ks.skip(0) =~= ks);
    let mut i: usize = 0;
    while i < keys.len()
        invariant
            0 <= i <= keys.len(),
            ks == keys@.map_values(|k: &str| k@),
            first_truthy_text(entries(body@), ks) == first_truthy_text(entries(body@), ks.skip(i as int)),
        decreases keys.len() - i,
    {
        proof {
            let rest = ks.skip(i as int);
            assert(rest[0] == keys@[i as int]@);
            assert(rest.drop_first() =~= ks.skip(i + 1));
        }
        match get(body, keys[i]) {
            Some(v) => {
                if truth(v) {
                    return crate::page::textish_of(v);
                }
            },
            None => {},
        }
        i = i + 1;
    }
    assert(ks.skip(keys.len() as int) =~= Seq::<Seq<char>>::empty());
    String::new()
}

/// What a page records of a judgment, as a mapping in key order: why it
/// holds, what blocks it, what it rests on, its predicate's text (given),
/// `reopened` (empty), what uses it, and its verdict.
pub open spec fn judgment_facts_spec(
    body: Seq<(Seq<char>, Model)>,
    deps: Seq<Seq<char>>,
    used: Seq<Seq<char>>,
    pred: Seq<char>,
) -> Seq<(Seq<char>, Model)> {
    seq![
        ("because"@, Model::Text(first_truthy_text(body, seq!["because"@, "why"@]))),
        ("blocked"@, Model::Text(first_truthy_text(body, seq!["blocked_on"@, "blocked"@, "waiting_for"@]))),
        ("deps"@, Model::List(deps.map_values(|d: Seq<char>| Model::Text(d)))),
        ("pred"@, Model::Text(pred)),
        ("reopened"@, Model::Text(Seq::empty())),
        ("used"@, Model::List(used.map_values(|d: Seq<char>| Model::Text(d)))),
        ("verdict"@, Model::Text(first_truthy_text(body, seq!["verdict"@, "title"@]))),
    ]
}

fn texts_value(xs: &Vec<String>) -> (r: Value)
    ensures
        r@ == Model::List(strings(xs@).map_values(|d: Seq<char>| Model::Text(d))),
{
    let mut out: Vec<Value> = Vec::new();
    let mut i: usize = 0;
    while i < xs.len()
        invariant
            0 <= i <= xs.len(),
            out@.len() == i,
            forall|q: int| 0 <= q < i ==> #[trigger] model(out@[q]) == Model::Text(xs@[q]@),
        decreases xs.len() - i,
    {
        out.push(Value::Text(string_of(&chars_of(xs[i].as_str()))));
        i = i + 1;
    }
    proof {
        crate::value::lemma_models(out@);
        assert(crate::value::models(out@) =~= strings(xs@).map_values(|d: Seq<char>| Model::Text(d)));
    }
    Value::List(out)
}

/// What the page records of a judgment with body `body`, given what it rests
/// on, what uses it and its predicate's text.
pub fn judgment_facts(body: &Vec<(String, Value)>, deps: &Vec<String>, used: &Vec<String>, pred: &str) -> (r: Vec<(String, Value)>)
    ensures
        entries(r@) == judgment_facts_spec(entries(body@), strings(deps@), strings(used@), pred@),
{
    let kb: [&str; 2] = ["because", "why"];
    let kl: [&str; 3] = ["blocked_on", "blocked", "waiting_for"];
    let kv: [&str; 2] = ["verdict", "title"];
    proof {
        assert(kb@.map_values(|k: &str| k@) =~= seq!["because"@, "why"@]);
        assert(kl@.map_values(|k: &str| k@) =~= seq!["blocked_on"@, "blocked"@, "waiting_for"@]);
        assert(kv@.map_values(|k: &str| k@) =~= seq!["verdict"@, "title"@]);
    }
    let because = first_truthy(body, &kb);
    let blocked = first_truthy(body, &kl);
    let verdict = first_truthy(body, &kv);
    let mut out: Vec<(String, Value)> = Vec::new();
    out.push((string_of(&chars_of("because")), Value::Text(because)));
    out.push((string_of(&chars_of("blocked")), Value::Text(blocked)));
    out.push((string_of(&chars_of("deps")), texts_value(deps)));
    out.push((string_of(&chars_of("pred")), Value::Text(string_of(&chars_of(pred)))));
    out.push((string_of(&chars_of("reopened")), Value::Text(String::new())));
    out.push((string_of(&chars_of("used")), texts_value(used)));
    out.push((string_of(&chars_of("verdict")), Value::Text(verdict)));
    proof {
        lemma_entries(out@);
        let want = judgment_facts_spec(entries(body@), strings(deps@), strings(used@), pred@);
        assert(entries(out@) =~= want) by {
            assert forall|q: int| 0 <= q < want.len() implies #[trigger] entries(out@)[q] == want[q] by {
                assert(entries(out@)[q] == (out@[q].0@, model(out@[q].1)));
            }
        }
    }
    out
}

} // verus!
