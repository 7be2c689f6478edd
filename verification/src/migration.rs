//! The decisions of an expression migration: which records it takes, which
//! fields of an entry it converts, and which converted expressions it keeps.
use vstd::prelude::*;
use crate::page::{holds_string, sorted_strings, str_set, strings};
use crate::tally::sorted_names;
use crate::text::{append, chars_of, join, join_with, char_views, same, string_of, trim, trimmed};
use crate::value::{Error, Model, Value, entries, get, has_key, lookup, map_entries, text_is};

verus! {

broadcast use vstd::std_specs::vec::group_vec_axioms;

/// Why a migration is refused before it reads an entry: it takes a record
/// of one file with no hypotheses beside it.
pub open spec fn migration_scope(members: Seq<Seq<char>>, record: Seq<char>, hypotheses: nat) -> Option<Seq<char>> {
    if members != seq![record] {
        Some("multi-file and pointer records require primary review"@)
    } else if hypotheses > 0 {
        Some("a record with hypothesis context requires primary review"@)
    } else {
        None
    }
}

/// Whether a migration may take the record `record`, whose files are
/// `members` and beside which `hypotheses` hypotheses lie.
pub fn migration_allowed(members: &Vec<String>, record: &str, hypotheses: usize) -> (r: Result<(), Error>)
    ensures
        match r {
            Ok(()) => migration_scope(strings(members@), record@, hypotheses as nat) is None,
            Err(e) => migration_scope(strings(members@), record@, hypotheses as nat) == Some(e.0@),
        },
{
    let single = if members.len() == 1 {
        text_is(&members[0], record)
    } else {
        false
    };
    if !single {
        proof {
            let sv = strings(members@);
            assert(sv.len() == members@.len());
            if members@.len() == 1 {
                assert(sv[0] == members@[0]@);
                assert(sv[0] != record@);
                assert(seq![record@][0] == record@);
            }
            assert(sv != seq![record@]);
        }
        return Err(Error(string_of(&chars_of("multi-file and pointer records require primary review"))));
    }
    assert(strings(members@) =~= seq![record@]);
    if hypotheses > 0 {
        return Err(Error(string_of(&chars_of("a record with hypothesis context requires primary review"))));
    }
    Ok(())
}

/// Whether a field's value is converted, and if so whether it is read as an
/// old expression tree (`true`) or as the text of an expression (`false`):
/// in compact mode a mapping without `expr` is an old tree, and otherwise
/// only a text that is not blank is converted.
pub open spec fn convertible(value: Model, compact: bool) -> Option<bool> {
    if compact && (value is Mapping && !has_key(value->Mapping_0, "expr"@)) {
        Some(true)
    } else if value matches Model::Text(s) && trim(s).len() > 0 {
        Some(false)
    } else {
        None
    }
}

/// The fields an entry's expressions may stand in, each with whether it is
/// read as a predicate: a judgment's predicate field; otherwise `rule`, and
/// `v` where the entry has no `rule` and its value reads as an implicit rule.
pub open spec fn expression_fields(
    body: Seq<(Seq<char>, Model)>,
    predicate: bool,
    predicate_field: Seq<char>,
    implicit: bool,
) -> Seq<(Seq<char>, bool)> {
    if predicate {
        seq![(predicate_field, true)]
    } else if !has_key(body, "rule"@) && implicit {
        seq![("rule"@, false), ("v"@, false)]
    } else {
        seq![("rule"@, false)]
    }
}

pub open spec fn value_at(body: Seq<(Seq<char>, Model)>, f: Seq<char>) -> Model {
    match lookup(body, f) {
        Some(v) => v,
        None => Model::Null,
    }
}

/// Of the candidate fields, those whose values are converted, each with
/// whether it is read as a predicate and whether as an old tree.
pub open spec fn planned(
    fs: Seq<(Seq<char>, bool)>,
    body: Seq<(Seq<char>, Model)>,
    compact: bool,
) -> Seq<(Seq<char>, bool, bool)>
    decreases fs.len(),
{
    if fs.len() == 0 {
        Seq::empty()
    } else {
        let prev = planned(fs.drop_last(), body, compact);
        let (f, p) = fs.last();
        match convertible(value_at(body, f), compact) {
            Some(old) => prev.push((f, p, old)),
            None => prev,
        }
    }
}

pub open spec fn plan_view(v: Seq<(String, bool, bool)>) -> Seq<(Seq<char>, bool, bool)> {
    v.map_values(|x: (String, bool, bool)| (x.0@, x.1, x.2))
}

fn convertible_of(value: Option<&Value>, compact: bool) -> (r: Option<bool>)
    ensures
        r == convertible(
            match value {
                Some(v) => v@,
                None => Model::Null,
            },
            compact,
        ),
{
    match value {
        Some(Value::Mapping(m)) => {
            if compact {
                proof {
                    crate::value::lemma_entries(m@);
                }
                match get(m, "expr") {
                    Some(_) => None,
                    None => Some(true),
                }
            } else {
                None
            }
        },
        Some(Value::Text(s)) => {
            let t = trimmed(&chars_of(s.as_str()));
            if t.len() > 0 {
                Some(false)
            } else {
                None
            }
        },
        _ => None,
    }
}

/// The fields of an entry that a migration converts, in order: each with
/// whether it is read as a predicate and whether as an old tree. Whether the
/// entry's value reads as an implicit rule is `implicit`.
pub fn migration_fields(
    body: &Vec<(String, Value)>,
    predicate: bool,
    predicate_field: &str,
    implicit: bool,
    compact: bool,
) -> (r: Vec<(String, bool, bool)>)
    ensures
        plan_view(r@) == planned(
            expression_fields(entries(body@), predicate, predicate_field@, implicit),
            entries(body@),
            compact,
        ),
{
    let ghost es = entries(body@);
    let mut fs: Vec<(String, bool)> = Vec::new();
    if predicate {
        fs.push((string_of(&chars_of(predicate_field)), true));
    } else {
        fs.push((string_of(&chars_of("rule")), false));
        let has_rule = get(body, "rule").is_some();
        if !has_rule && implicit {
            fs.push((string_of(&chars_of("v")), false));
        }
    }
    let ghost want = expression_fields(es, predicate, predicate_field@, implicit);
    assert(fs@.map_values(|x: (String, bool)| (x.0@, x.1)) =~= want);
    let mut out: Vec<(String, bool, bool)> = Vec::new();
    let mut i: usize = 0;
    while i < fs.len()
        invariant
            0 <= i <= fs.len(),
            es == entries(body@),
            want == fs@.map_values(|x: (String, bool)| (x.0@, x.1)),
            plan_view(out@) == planned(want.take(i as int), es, compact),
        decreases fs.len() - i,
    {
        let value = get(body, fs[i].0.as_str());
        let c = convertible_of(value, compact);
        proof {
            assert(want.take(i + 1).drop_last() =~= want.take(i as int));
            assert(want.take(i + 1).last() == (fs@[i as int].0@, fs@[i as int].1));
            assert(value_at(es, fs@[i as int].0@) == match value {
                Some(v) => v@,
                None => Model::Null,
            });
        }
        match c {
            Some(old) => {
                let ghost before = out@;
                out.push((string_of(&chars_of(fs[i].0.as_str())), fs[i].1, old));
                proof {
                    assert(plan_view(out@) =~= plan_view(before).push((fs@[i as int].0@, fs@[i as int].1, old)));
                }
            },
            None => {},
        }
        i = i + 1;
    }
    assert(want.take(fs.len() as int) =~= want);
    out
}

/// The names an expression refers to that are not ids of the record.
pub open spec fn unknown_names(refs: Seq<Seq<char>>, ids: Set<Seq<char>>) -> Set<Seq<char>> {
    Set::new(|x: Seq<char>| refs.contains(x) && !ids.contains(x))
}

/// Whether the dependency list `deps` lists `name` as a text.
pub open spec fn declared_in(deps: Model, name: Seq<char>) -> bool {
    deps matches Model::List(xs) && xs.contains(Model::Text(name))
}

pub open spec fn all_declared(refs: Seq<Seq<char>>, deps: Model) -> bool {
    forall|i: int| 0 <= i < refs.len() ==> declared_in(deps, #[trigger] refs[i])
}

pub open spec fn unknown_prefix() -> Seq<char> {
    "unknown or ambiguous bare names: "@
}

pub open spec fn undeclared_refusal() -> Seq<char> {
    "predicate references are not declared in rests_on"@
}

fn lists_text(deps: &Value, name: &[char]) -> (r: bool)
    ensures
        r == declared_in(deps@, name@),
{
    match deps {
        Value::List(xs) => {
            proof {
                crate::value::lemma_models(xs@);
            }
            let ghost ms = crate::value::models(xs@);
            assert(deps@ == Model::List(ms));
            let mut j: usize = 0;
            while j < xs.len()
                invariant
                    0 <= j <= xs.len(),
                    ms == crate::value::models(xs@),
                    deps@ == Model::List(ms),
                    ms.len() == xs@.len(),
                    forall|q: int| 0 <= q < xs@.len() ==> #[trigger] ms[q] == crate::value::model(xs@[q]),
                    forall|q: int| 0 <= q < j ==> ms[q] != Model::Text(name@),
                decreases xs.len() - j,
            {
                assert(ms[j as int] == crate::value::model(xs@[j as int]));
                match &xs[j] {
                    Value::Text(t) => {
                        if same(&chars_of(t.as_str()), name) {
                            assert(ms[j as int] == Model::Text(name@));
                            assert(ms.contains(Model::Text(name@)));
                            return true;
                        }
                    },
                    _ => {},
                }
                j = j + 1;
            }
            assert(deps@ == Model::List(ms));
            proof {
                if ms.contains(Model::Text(name@)) {
                    let q = choose|q: int| 0 <= q < ms.len() && ms[q] == Model::Text(name@);
                    assert(ms[q] != Model::Text(name@));
                }
            }
            false
        },
        _ => false,
    }
}

/// Whether a converted expression may be kept: every name it refers to is an
/// id of the record (else the unknown names are given, sorted, each once),
/// and a predicate's names are all listed in its entry's dependency list
/// `deps` (Null where the entry has none).
pub fn references_checked(refs: &Vec<String>, ids: &Vec<String>, deps: &Value, predicate: bool) -> (r: Result<(), Error>)
    ensures
        r is Ok <==> unknown_names(strings(refs@), str_set(ids@)).is_empty() && (predicate ==> all_declared(
            strings(refs@),
            deps@,
        )),
        r matches Err(e) ==> if unknown_names(strings(refs@), str_set(ids@)).is_empty() {
            e.0@ == undeclared_refusal()
        } else {
            exists|u: Seq<Seq<char>>|
                sorted_names(u) && u.to_set() == unknown_names(strings(refs@), str_set(ids@)) && e.0@
                    == unknown_prefix() + join(u, ", "@)
        },
{
    let ghost rv = strings(refs@);
    let ghost unk = unknown_names(rv, str_set(ids@));
    let mut missing: Vec<String> = Vec::new();
    let mut i: usize = 0;
    while i < refs.len()
        invariant
            0 <= i <= refs.len(),
            rv == strings(refs@),
            str_set(missing@) == Set::new(|x: Seq<char>| rv.take(i as int).contains(x) && !str_set(ids@).contains(x)),
        decreases refs.len() - i,
    {
        let r = chars_of(refs[i].as_str());
        let known = holds_string(ids, &r);
        let ghost before = missing@;
        if !known {
            missing.push(string_of(&r));
        }
        proof {
            let target = Set::new(|x: Seq<char>| rv.take(i + 1).contains(x) && !str_set(ids@).contains(x));
            assert(rv.take(i + 1) =~= rv.take(i as int).push(r@));
            assert(str_set(missing@) =~= target) by {
                assert forall|x: Seq<char>| #[trigger] str_set(missing@).contains(x) implies target.contains(x) by {
                    let q = choose|q: int| 0 <= q < missing@.len() && #[trigger] missing@[q]@ == x;
                    if q < before.len() {
                        assert(before[q] == missing@[q]);
                        assert(str_set(before).contains(x));
                        let k = choose|k: int| 0 <= k < rv.take(i as int).len() && #[trigger] rv.take(i as int)[k] == x;
                        assert(rv.take(i + 1)[k] == x);
                    } else {
                        assert(rv.take(i + 1)[i as int] == x);
                    }
                }
                assert forall|x: Seq<char>| #[trigger] target.contains(x) implies str_set(missing@).contains(x) by {
                    let k = choose|k: int| 0 <= k < rv.take(i + 1).len() && #[trigger] rv.take(i + 1)[k] == x;
                    if k < i {
                        assert(rv.take(i as int)[k] == x);
                        assert(str_set(before).contains(x));
                        let q = choose|q: int| 0 <= q < before.len() && #[trigger] before[q]@ == x;
                        assert(missing@[q] == before[q]);
                    } else {
                        assert(x == r@);
                        assert(missing@[missing@.len() - 1]@ == x);
                    }
                }
            }
        }
        i = i + 1;
    }
    assert(rv.take(refs.len() as int) =~= rv);
    assert(str_set(missing@) =~= unk);
    if missing.len() > 0 {
        let names = sorted_strings(&missing);
        let mut parts: Vec<Vec<char>> = Vec::new();
        let mut k: usize = 0;
        while k < names.len()
            invariant
                0 <= k <= names.len(),
                parts@.len() == k,
                forall|q: int| 0 <= q < k ==> #[trigger] parts@[q]@ == names@[q]@,
            decreases names.len() - k,
        {
            parts.push(chars_of(names[k].as_str()));
            k = k + 1;
        }
        let mut text = chars_of("unknown or ambiguous bare names: ");
        append(&mut text, &join_with(&parts, &chars_of(", ")));
        proof {
            let u = strings(names@);
            assert(char_views(parts@) =~= u);
            assert(u.to_set() =~= unk) by {
                assert forall|x: Seq<char>| u.to_set().contains(x) implies unk.contains(x) by {
                    let q = choose|q: int| 0 <= q < u.len() && #[trigger] u[q] == x;
                    assert(names@[q]@ == x);
                    assert(str_set(names@).contains(x));
                }
                assert forall|x: Seq<char>| unk.contains(x) implies u.to_set().contains(x) by {
                    assert(str_set(names@).contains(x));
                    let q = choose|q: int| 0 <= q < names@.len() && #[trigger] names@[q]@ == x;
                    assert(u[q] == x);
                }
            }
            assert(str_set(missing@).contains(missing@[0]@));
            assert(unk.contains(missing@[0]@));
            assert(!unk.is_empty());
            assert(sorted_names(u) && u.to_set() == unk && text@ == unknown_prefix() + join(u, ", "@));
        }
        return Err(Error(string_of(&text)));
    }
    proof {
        if unk.contains(choose|x: Seq<char>| unk.contains(x)) {
            let x = choose|x: Seq<char>| unk.contains(x);
            assert(str_set(missing@).contains(x));
        }
        assert(unk =~= Set::<Seq<char>>::empty());
    }
    if predicate {
        let mut j: usize = 0;
        while j < refs.len()
            invariant
                0 <= j <= refs.len(),
                rv == strings(refs@),
                unk == unknown_names(rv, str_set(ids@)),
                unk.is_empty(),
                predicate,
                forall|q: int| 0 <= q < j ==> declared_in(deps@, #[trigger] rv[q]),
            decreases refs.len() - j,
        {
            assert(rv[j as int] == refs@[j as int]@);
            if !lists_text(deps, &chars_of(refs[j].as_str())) {
                assert(!declared_in(deps@, rv[j as int]));
                assert(!all_declared(rv, deps@));
                return Err(Error(string_of(&chars_of("predicate references are not declared in rests_on"))));
            }
            j = j + 1;
        }
    }
    Ok(())
}

/// What a migration plans to convert, field by field: a field whose value
/// is a mapping is planned only in compact mode, only as an old expression
/// tree, and only where the mapping does not already hold `expr` (a compact
/// expression is left alone); a field whose value is text is planned only as
/// a new expression, and only where the text is not blank; a field whose
/// value is anything else is never planned.
pub proof fn lemma_planned_fields(fs: Seq<(Seq<char>, bool)>, body: Seq<(Seq<char>, Model)>, compact: bool, k: int)
    requires
        0 <= k < planned(fs, body, compact).len(),
    ensures
        ({
            let (f, p, old) = planned(fs, body, compact)[k];
            let v = value_at(body, f);
            &&& v is Mapping ==> (compact && old && !has_key(v->Mapping_0, "expr"@))
            &&& v is Text ==> (!old && trim(v->Text_0).len() > 0)
            &&& (v is Mapping || v is Text)
        }),
    decreases fs.len(),
{
    let prev = planned(fs.drop_last(), body, compact);
    if k < prev.len() {
        lemma_planned_fields(fs.drop_last(), body, compact, k);
    }
}

/// In compact mode a field that already holds a compact expression (a
/// mapping with `expr`) is never among the fields a migration converts.
pub proof fn lemma_compact_expression_left_alone(
    body: Seq<(Seq<char>, Model)>,
    predicate: bool,
    predicate_field: Seq<char>,
    implicit: bool,
    compact: bool,
    f: Seq<char>,
)
    requires
        value_at(body, f) is Mapping,
        has_key(value_at(body, f)->Mapping_0, "expr"@),
    ensures
        forall|k: int|
            0 <= k < planned(expression_fields(body, predicate, predicate_field, implicit), body, compact).len()
                ==> (#[trigger] planned(expression_fields(body, predicate, predicate_field, implicit), body, compact)[k]).0 != f,
{
    let fs = expression_fields(body, predicate, predicate_field, implicit);
    assert forall|k: int| 0 <= k < planned(fs, body, compact).len() implies (#[trigger] planned(fs, body, compact)[k]).0 != f by {
        lemma_planned_fields(fs, body, compact, k);
    }
}

/// Each candidate field whose value a migration can convert is planned,
/// with its predicate reading and whether it is read as an old tree: a
/// non-blank text as a new expression, and in compact mode a mapping
/// without `expr` as an old tree.
pub proof fn lemma_convertible_fields_planned(fs: Seq<(Seq<char>, bool)>, body: Seq<(Seq<char>, Model)>, compact: bool, j: int)
    requires
        0 <= j < fs.len(),
        ({
            let v = value_at(body, fs[j].0);
            (v is Text && trim(v->Text_0).len() > 0) || (compact && v is Mapping && !has_key(v->Mapping_0, "expr"@))
        }),
    ensures
        exists|k: int|
            0 <= k < planned(fs, body, compact).len() && #[trigger] planned(fs, body, compact)[k] == (
                fs[j].0,
                fs[j].1,
                value_at(body, fs[j].0) is Mapping,
            ),
    decreases fs.len(),
{
    let prev = planned(fs.drop_last(), body, compact);
    if j < fs.len() - 1 {
        assert(fs.drop_last()[j] == fs[j]);
        lemma_convertible_fields_planned(fs.drop_last(), body, compact, j);
        let k = choose|k: int| 0 <= k < prev.len() && #[trigger] prev[k] == (fs[j].0, fs[j].1, value_at(body, fs[j].0) is Mapping);
        assert(planned(fs, body, compact)[k] == prev[k]);
    } else {
        assert(planned(fs, body, compact)[prev.len() as int] == (fs[j].0, fs[j].1, value_at(body, fs[j].0) is Mapping));
    }
}

} // verus!
