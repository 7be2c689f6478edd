//! The roles a record's fields take: which field names what an entry rests
//! on, which holds the snapshot of what was seen, and which the predicate
//! that would make it wrong.
use vstd::prelude::*;
use crate::fields::{any_shaped, bad_dep, holds_dep, choice, choose_role, coll_view, collections, colls, core_profile, count_roles, error, field_uses, flat, header_only, id_set, is_core, is_header_only, known_ids, member_list, present_set, role_count, roles_code, roles_error, shaped_members, source_only, source_only_collections, tally_lists, unresolved_set, use_view, uses, vote_count, Use};
use crate::tally::{counter, holds_name, name_set, sorted_names, tally_wf};
use crate::text::{char_views, chars_of, string_of};
use crate::value::{Error, Model, Value, copy, entries, field, field_of, has_key, lemma_entries, map_entries, s, text, truth, truthy, text_is, lookup, first_key, model};

verus! {

broadcast use vstd::std_specs::vec::group_vec_axioms;

/// The record's schema: its `schema` entry where that is truthy, else an
/// empty mapping.
pub open spec fn schema_of(doc: Model) -> Model {
    let v = field_of(doc, "schema"@);
    if truthy(v) {
        v
    } else {
        Model::Mapping(Seq::empty())
    }
}

/// A role the schema declares is named by a non-empty text.
pub open spec fn role_ok(schema: Model, role: Seq<char>) -> bool {
    has_key(map_entries(schema), role) ==> match field_of(schema, role) {
        Model::Text(t) => t.len() > 0,
        _ => false,
    }
}

/// What a role is before any vote: the schema's value where it declares one
/// (a truthy one, when comparing), else the default name.
pub open spec fn declared_role(schema: Model, role: Seq<char>, default: Seq<char>, semantic: bool) -> Model {
    let v = field_of(schema, role);
    if has_key(map_entries(schema), role) && (!semantic || truthy(v)) {
        v
    } else {
        Model::Text(default)
    }
}

/// The three roles as a mapping's entries, in key order.
pub open spec fn roles(d: Model, p: Model, s: Model) -> Seq<(Seq<char>, Model)> {
    seq![("deps"@, d), ("predicate"@, p), ("snapshot"@, s)]
}

/// The texts the schema gives its three roles.
pub open spec fn schema_texts(schema: Model) -> Set<Seq<char>> {
    Set::new(
        |x: Seq<char>|
            field_of(schema, "deps"@) == Model::Text(x) || field_of(schema, "snapshot"@) == Model::Text(x)
                || field_of(schema, "predicate"@) == Model::Text(x),
    )
}

/// Lists whose outside names do not stop a record from being compared.
pub open spec fn ambient(f: Seq<char>) -> bool {
    f == "labels"@ || f == "tags"@ || f == "v"@ || f == "quoted"@
}

/// A record whose declared dependency field nothing carries can still be
/// compared when its schema declares all three roles, no list votes, only
/// ambient lists name what is not an entry, and no body reads as a judgment.
pub open spec fn portable(
    schema: Model,
    votes: spec_fn(Seq<char>) -> nat,
    unresolved: Set<Seq<char>>,
    ms: Seq<(Seq<char>, Model)>,
    core: bool,
) -> bool {
    &&& truthy(field_of(schema, "deps"@))
    &&& truthy(field_of(schema, "snapshot"@))
    &&& truthy(field_of(schema, "predicate"@))
    &&& forall|f: Seq<char>| #[trigger] votes(f) == 0
    &&& forall|f: Seq<char>| #[trigger] unresolved.contains(f) ==> ambient(f)
    &&& !any_shaped(ms, schema_texts(schema), core)
}

/// A record without a dependency field can still be compared when it holds
/// only a header, or only collections of sources, with no list naming what
/// is not an entry and no body that reads as a judgment.
pub open spec fn undepending(
    des: Seq<(Seq<char>, Model)>,
    cs: Seq<(Seq<char>, Seq<(Seq<char>, Model)>)>,
    unresolved: Set<Seq<char>>,
    ms: Seq<(Seq<char>, Model)>,
    core: bool,
) -> bool {
    &&& header_only(des) || (cs.len() > 0 && source_only(cs))
    &&& forall|f: Seq<char>| !#[trigger] unresolved.contains(f)
    &&& !any_shaped(ms, Set::empty(), core)
}

pub open spec fn vote_counter(us: Seq<Use>, ids: Set<Seq<char>>) -> spec_fn(Seq<char>) -> nat {
    |f: Seq<char>| vote_count(us, ids, f)
}

pub open spec fn role_counter(ms: Seq<(Seq<char>, Model)>, dep: Seq<char>, ids: Set<Seq<char>>, snapshot: bool) -> spec_fn(Seq<char>) -> nat {
    |f: Seq<char>| role_count(ms, dep, ids, snapshot, f)
}

/// The snapshot or predicate role once the dependency field is known: the
/// schema's truthy value when comparing, else the declared or best-voted
/// name; with neither, Null when comparing and otherwise what it was.
pub open spec fn later(schema: Model, role: Seq<char>, c: spec_fn(Seq<char>) -> nat, prev: Model, semantic: bool) -> Result<Model, ()> {
    if semantic && truthy(field_of(schema, role)) {
        Ok(field_of(schema, role))
    } else {
        match choice(schema, role, c) {
            Err(_) => Err(()),
            Ok(Some(n)) => Ok(Model::Text(n)),
            Ok(None) => Ok(
                if semantic {
                    Model::Null
                } else {
                    prev
                },
            ),
        }
    }
}

/// The field roles of a record, as `inferred_fields` reads them; `semantic`
/// reads them for comparing two records, where an empty result means that
/// the record cannot be compared by its roles.
pub open spec fn inferred(doc: Model, semantic: bool) -> Result<Seq<(Seq<char>, Model)>, Seq<char>> {
    let schema = schema_of(doc);
    if doc !is Mapping {
        Err("expected_mapping"@)
    } else if schema !is Mapping {
        Err(roles_code(semantic))
    } else if !semantic && !(role_ok(schema, "deps"@) && role_ok(schema, "snapshot"@) && role_ok(
        schema,
        "predicate"@,
    )) {
        Err("invalid_snapshot"@)
    } else {
        let core = core_profile(doc);
        let cs = colls(doc->Mapping_0, core);
        let ms = flat(cs);
        let us = uses(ms);
        let ids = id_set(ms, us);
        let d0 = declared_role(schema, "deps"@, "rests_on"@, semantic);
        let p0 = declared_role(schema, "predicate"@, "wrong_if"@, semantic);
        let s0 = declared_role(schema, "snapshot"@, "seen"@, semantic);
        let declared = field_of(schema, "deps"@);
        if truthy(declared) && declared is Text && !present_set(us).contains(declared->Text_0) {
            if semantic && !portable(schema, vote_counter(us, ids), unresolved_set(us, ids), ms, core) {
                Ok(Seq::empty())
            } else {
                Ok(roles(d0, p0, s0))
            }
        } else {
            match choice(schema, "deps"@, vote_counter(us, ids)) {
                Err(_) => Err("invalid_snapshot"@),
                Ok(None) => if semantic && !undepending(
                    doc->Mapping_0,
                    cs,
                    unresolved_set(us, ids),
                    ms,
                    core,
                ) {
                    Err("invalid_snapshot"@)
                } else {
                    Ok(roles(d0, p0, s0))
                },
                Ok(Some(dep)) => if bad_dep(ms, dep) {
                    Err(roles_code(semantic))
                } else {
                    match (
                        later(schema, "snapshot"@, role_counter(ms, dep, ids, true), s0, semantic),
                        later(schema, "predicate"@, role_counter(ms, dep, ids, false), p0, semantic),
                    ) {
                        (Ok(s1), Ok(p1)) => Ok(roles(Model::Text(dep), p1, s1)),
                        _ => Err("invalid_snapshot"@),
                    }
                },
            }
        }
    }
}

/// A role before any vote; outside comparison, a declared role must be a
/// non-empty text.
fn start_role(schema: &Value, role: &str, default: &str, semantic: bool) -> (r: Result<Value, Error>)
    ensures
        r is Ok <==> (semantic || role_ok(schema@, role@)),
        r matches Ok(v) ==> v@ == declared_role(schema@, role@, default@, semantic),
        r matches Err(e) ==> e.0@ == "invalid_snapshot"@,
{
    match field(schema, role) {
        Some(v) => {
            if semantic {
                if truth(v) {
                    Ok(copy(v))
                } else {
                    Ok(s(default))
                }
            } else {
                match text(v) {
                    Some(t) => {
                        if chars_of(t.as_str()).len() > 0 {
                            Ok(copy(v))
                        } else {
                            Err(error("invalid_snapshot"))
                        }
                    },
                    None => Err(error("invalid_snapshot")),
                }
            }
        },
        None => Ok(s(default)),
    }
}

/// The snapshot or predicate role, given the votes for it.
fn later_role(schema: &Value, role: &str, t: &Vec<(Vec<char>, usize)>, prev: Value, semantic: bool) -> (r: Result<Value, Error>)
    requires
        tally_wf(t@),
    ensures
        match r {
            Ok(v) => later(schema@, role@, counter(t@), prev@, semantic) == Ok::<Model, ()>(v@),
            Err(e) => later(schema@, role@, counter(t@), prev@, semantic) is Err && e.0@ == "invalid_snapshot"@,
        },
{
    if semantic {
        if let Some(v) = field(schema, role) {
            if truth(v) {
                return Ok(copy(v));
            }
        }
    }
    match choose_role(schema, role, t) {
        Err(e) => Err(e),
        Ok(Some(n)) => Ok(Value::Text(string_of(&n))),
        Ok(None) => Ok(
            if semantic {
                Value::Null
            } else {
                prev
            },
        ),
    }
}

/// The three roles as a mapping.
fn role_map(d: Value, p: Value, s: Value) -> (r: Vec<(String, Value)>)
    ensures
        entries(r@) == roles(d@, p@, s@),
{
    let mut out: Vec<(String, Value)> = Vec::new();
    out.push((string_of(&chars_of("deps")), d));
    out.push((string_of(&chars_of("predicate")), p));
    out.push((string_of(&chars_of("snapshot")), s));
    proof {
        lemma_entries(out@);
        assert(entries(out@) =~= roles(d@, p@, s@));
    }
    out
}

/// Whether the schema's declared roles leave a record comparable although no
/// entry carries its dependency field.
fn portable_roles(
    schema: &Value,
    ms: &Vec<(String, Value)>,
    votes: &Vec<(Vec<char>, usize)>,
    unres: &Vec<Vec<char>>,
    core: bool,
) -> (r: bool)
    requires
        tally_wf(votes@),
    ensures
        r == portable(schema@, counter(votes@), name_set(unres@), entries(ms@), core),
{
    let declared = role_truth(schema, "deps") && role_truth(schema, "snapshot") && role_truth(schema, "predicate");
    if !declared {
        return false;
    }
    if votes.len() > 0 {
        proof {
            crate::tally::lemma_count_at(votes@, 0);
            assert(counter(votes@)(votes@[0].0@) != 0);
        }
        return false;
    }
    proof {
        assert forall|f: Seq<char>| #[trigger] counter(votes@)(f) == 0 by {
            crate::tally::lemma_count_absent(votes@, f);
        }
    }
    let mut i: usize = 0;
    while i < unres.len()
        invariant
            0 <= i <= unres.len(),
            forall|j: int| 0 <= j < i ==> ambient(#[trigger] unres@[j]@),
        decreases unres.len() - i,
    {
        let n = &unres[i];
        let known = crate::text::same(n, &chars_of("labels")) || crate::text::same(n, &chars_of("tags"))
            || crate::text::same(n, &chars_of("v")) || crate::text::same(n, &chars_of("quoted"));
        if !known {
            proof {
                assert(name_set(unres@).contains(unres@[i as int]@));
            }
            return false;
        }
        i = i + 1;
    }
    proof {
        assert forall|f: Seq<char>| #[trigger] name_set(unres@).contains(f) implies ambient(f) by {
            let j = choose|j: int| 0 <= j < unres@.len() && #[trigger] unres@[j]@ == f;
            assert(ambient(unres@[j]@));
        }
    }
    let extra = schema_names(schema);
    !shaped_members(ms, &extra, core)
}

fn role_truth(schema: &Value, role: &str) -> (r: bool)
    ensures
        r == truthy(field_of(schema@, role@)),
{
    match field(schema, role) {
        Some(v) => truth(v),
        None => false,
    }
}

/// The texts the schema gives its roles.
fn schema_names(schema: &Value) -> (r: Vec<Vec<char>>)
    ensures
        name_set(r@) == schema_texts(schema@),
{
    let mut out: Vec<Vec<char>> = Vec::new();
    if let Some(v) = field(schema, "deps") {
        if let Some(t) = text(v) {
            out.push(chars_of(t.as_str()));
        }
    }
    let ghost a = out@;
    if let Some(v) = field(schema, "snapshot") {
        if let Some(t) = text(v) {
            out.push(chars_of(t.as_str()));
        }
    }
    let ghost b = out@;
    if let Some(v) = field(schema, "predicate") {
        if let Some(t) = text(v) {
            out.push(chars_of(t.as_str()));
        }
    }
    proof {
        assert(name_set(out@) =~= schema_texts(schema@)) by {
            assert forall|x: Seq<char>| #[trigger] name_set(out@).contains(x) implies schema_texts(schema@).contains(x) by {
                let j = choose|j: int| 0 <= j < out@.len() && #[trigger] out@[j]@ == x;
                if j < a.len() {
                    assert(a[j] == out@[j]);
                } else if j < b.len() {
                    assert(b[j] == out@[j]);
                }
            }
            assert forall|x: Seq<char>| #[trigger] schema_texts(schema@).contains(x) implies name_set(out@).contains(x) by {
                if field_of(schema@, "deps"@) == Model::Text(x) {
                    assert(out@[0]@ == x);
                } else if field_of(schema@, "snapshot"@) == Model::Text(x) {
                    assert(out@[a.len() as int]@ == x);
                } else {
                    assert(out@[b.len() as int]@ == x);
                }
            }
        }
    }
    out
}

/// The field roles of a record: `deps`, `snapshot` and `predicate`, each
/// taken from the schema or else from how the entries use their fields.
/// With `semantic`, reads them for comparing records, and answers an empty
/// mapping for a record that cannot be compared by its roles.
pub fn inferred_fields(document: &Value, semantic: bool) -> (r: Result<Vec<(String, Value)>, Error>)
    ensures
        match r {
            Ok(m) => inferred(document@, semantic) == Ok::<Seq<(Seq<char>, Model)>, Seq<char>>(entries(m@)),
            Err(e) => inferred(document@, semantic) == Err::<Seq<(Seq<char>, Model)>, Seq<char>>(e.0@),
        },
{
    let doc = match document {
        Value::Mapping(d) => d,
        _ => return Err(error("expected_mapping")),
    };
    let empty = Value::Mapping(Vec::new());
    let schema: &Value = match field(document, "schema") {
        Some(v) => if truth(v) {
            v
        } else {
            &empty
        },
        None => &empty,
    };
    proof {
        assert(entries(Seq::<(String, Value)>::empty()) =~= Seq::<(Seq<char>, Model)>::empty());
        assert(schema@ == schema_of(document@));
    }
    match schema {
        Value::Mapping(_) => {},
        _ => return Err(roles_error(semantic)),
    }
    let d0 = match start_role(schema, "deps", "rests_on", semantic) {
        Ok(v) => v,
        Err(e) => return Err(e),
    };
    let s0 = match start_role(schema, "snapshot", "seen", semantic) {
        Ok(v) => v,
        Err(e) => return Err(e),
    };
    let p0 = match start_role(schema, "predicate", "wrong_if", semantic) {
        Ok(v) => v,
        Err(e) => return Err(e),
    };
    let cs = match collections(document) {
        Ok(c) => c,
        Err(e) => return Err(e),
    };
    let ms = member_list(&cs);
    let us = field_uses(&ms);
    let ids = known_ids(&ms, &us);
    let (votes, unres, present) = tally_lists(&us, &ids);
    let core = is_core(document);
    let ghost cv = coll_view(cs@);
    let ghost mv = entries(ms@);
    let ghost uv = use_view(us@);
    let ghost idset = name_set(ids@);
    proof {
        assert(cv == colls(document@->Mapping_0, core_profile(document@)));
        assert(counter(votes@) =~= vote_counter(uv, idset));
    }
    let missing = match field(schema, "deps") {
        Some(v) => if truth(v) {
            match text(v) {
                Some(t) => !holds_name(&present, &chars_of(t.as_str())),
                None => false,
            }
        } else {
            false
        },
        None => false,
    };
    if missing {
        if semantic && !portable_roles(schema, &ms, &votes, &unres, core) {
            return Ok(Vec::new());
        }
        return Ok(role_map(d0, p0, s0));
    }
    proof {
        let declared = field_of(schema@, "deps"@);
        if truthy(declared) && declared is Text {
            assert(present_set(uv).contains(declared->Text_0));
        }
    }
    match choose_role(schema, "deps", &votes) {
        Err(e) => Err(e),
        Ok(None) => {
            if semantic {
                let hdr = is_header_only(doc);
                let src = cs.len() > 0 && source_only_collections(&cs);
                let none: Vec<Vec<char>> = Vec::new();
                let shaped = shaped_members(&ms, &none, core);
                proof {
                    assert(name_set(none@) =~= Set::<Seq<char>>::empty());
                    if unres.len() > 0 {
                        assert(name_set(unres@).contains(unres@[0]@));
                    }
                }
                if !((hdr || src) && unres.len() == 0 && !shaped) {
                    return Err(error("invalid_snapshot"));
                }
            }
            Ok(role_map(d0, p0, s0))
        },
        Ok(Some(dep)) => {
            let (snaps, preds) = match count_roles(&ms, &dep, &ids, semantic) {
                Ok(t) => t,
                Err(e) => return Err(e),
            };
            proof {
                assert(counter(snaps@) =~= role_counter(mv, dep@, idset, true));
                assert(counter(preds@) =~= role_counter(mv, dep@, idset, false));
            }
            let s1 = match later_role(schema, "snapshot", &snaps, s0, semantic) {
                Ok(v) => v,
                Err(e) => return Err(e),
            };
            let p1 = match later_role(schema, "predicate", &preds, p0, semantic) {
                Ok(v) => v,
                Err(e) => return Err(e),
            };
            Ok(role_map(Value::Text(string_of(&dep)), p1, s1))
        },
    }
}

/// The roles of a record's fields, outside comparison.
pub fn snapshot_fields(document: &Value) -> (r: Result<Vec<(String, Value)>, Error>)
    ensures
        match r {
            Ok(m) => inferred(document@, false) == Ok::<Seq<(Seq<char>, Model)>, Seq<char>>(entries(m@)),
            Err(e) => inferred(document@, false) == Err::<Seq<(Seq<char>, Model)>, Seq<char>>(e.0@),
        },
{
    inferred_fields(document, false)
}

/// Roles read outside comparison are the three roles, each named by a
/// text.
pub proof fn lemma_snapshot_text(doc: Model)
    requires
        inferred(doc, false) is Ok,
    ensures
        inferred(doc, false)->Ok_0.len() == 3,
        inferred(doc, false)->Ok_0[0].0 == "deps"@,
        inferred(doc, false)->Ok_0[1].0 == "predicate"@,
        inferred(doc, false)->Ok_0[2].0 == "snapshot"@,
        forall|i: int| 0 <= i < 3 ==> (#[trigger] inferred(doc, false)->Ok_0[i]).1 is Text,
{
    let r = inferred(doc, false)->Ok_0;
    assert(r[0].1 is Text);
    assert(r[1].1 is Text);
    assert(r[2].1 is Text);
}

/// Outside comparison, a role the schema declares is the role read: each of
/// the three roles a record's schema names by a truthy value is read as that
/// value.
pub proof fn lemma_declared_roles_kept(doc: Model)
    requires
        inferred(doc, false) is Ok,
    ensures
        truthy(field_of(schema_of(doc), "deps"@)) ==> inferred(doc, false)->Ok_0[0].1 == field_of(
            schema_of(doc),
            "deps"@,
        ),
        truthy(field_of(schema_of(doc), "predicate"@)) ==> inferred(doc, false)->Ok_0[1].1 == field_of(
            schema_of(doc),
            "predicate"@,
        ),
        truthy(field_of(schema_of(doc), "snapshot"@)) ==> inferred(doc, false)->Ok_0[2].1 == field_of(
            schema_of(doc),
            "snapshot"@,
        ),
{
    let schema = schema_of(doc);
    let es = map_entries(schema);
    if !has_key(es, "deps"@) {
        crate::value::lemma_no_key(es, "deps"@);
    }
    if !has_key(es, "predicate"@) {
        assert(lookup(es, "predicate"@) is None);
    }
    if !has_key(es, "snapshot"@) {
        assert(lookup(es, "snapshot"@) is None);
    }
}

/// The ids of the members whose bodies carry the dependency field.
pub open spec fn judgment_ids(ms: Seq<(Seq<char>, Model)>, dep: Seq<char>) -> Set<Seq<char>> {
    Set::new(|x: Seq<char>| exists|i: int| 0 <= i < ms.len() && #[trigger] ms[i].0 == x && holds_dep(ms[i].1, dep))
}

/// The roles for comparing two records, with the entries that are
/// judgments under them: None where the roles cannot be established, and
/// no judgments where the record cannot be compared by its roles.
pub open spec fn comparison_roles(doc: Model) -> Result<Option<(Set<Seq<char>>, Seq<(Seq<char>, Model)>)>, Seq<char>> {
    match inferred(doc, true) {
        Err(c) => if c == "invalid_snapshot"@ {
            Ok(None)
        } else {
            Err(c)
        },
        Ok(m) => if m.len() == 0 {
            Ok(Some((Set::empty(), m)))
        } else {
            Ok(Some((judgment_ids(flat(colls(doc->Mapping_0, core_profile(doc))), m[0].1->Text_0), m)))
        },
    }
}

/// Comparison roles that are not empty name a text dependency field first.
pub proof fn lemma_comparison_deps(doc: Model)
    requires
        inferred(doc, true) is Ok,
        inferred(doc, true)->Ok_0.len() > 0,
    ensures
        inferred(doc, true)->Ok_0.len() == 3,
        inferred(doc, true)->Ok_0[0].0 == "deps"@,
        inferred(doc, true)->Ok_0[0].1 is Text,
{
    let schema = schema_of(doc);
    let declared = field_of(schema, "deps"@);
    if !has_key(map_entries(schema), "deps"@) {
        assert(lookup(map_entries(schema), "deps"@) is None);
        assert(!truthy(declared));
    }
}

/// The comparison roles of a record, and which entries are judgments.
pub fn semantic_roles(document: &Value) -> (r: Result<Option<(Vec<Vec<char>>, Vec<(String, Value)>)>, Error>)
    ensures
        match r {
            Err(e) => comparison_roles(document@) == Err::<Option<(Set<Seq<char>>, Seq<(Seq<char>, Model)>)>, Seq<char>>(e.0@),
            Ok(None) => comparison_roles(document@) == Ok::<Option<(Set<Seq<char>>, Seq<(Seq<char>, Model)>)>, Seq<char>>(None),
            Ok(Some(found)) => comparison_roles(document@) == Ok::<Option<(Set<Seq<char>>, Seq<(Seq<char>, Model)>)>, Seq<char>>(
                Some((name_set(found.0@), entries(found.1@))),
            ),
        },
        r matches Ok(Some(found)) ==> sorted_names(char_views(found.0@)),
{
    let fields = match inferred_fields(document, true) {
        Ok(f) => f,
        Err(e) => {
            if text_is(&e.0, "invalid_snapshot") {
                return Ok(None);
            }
            return Err(e);
        },
    };
    proof {
        lemma_entries(fields@);
    }
    if fields.len() == 0 {
        let none: Vec<Vec<char>> = Vec::new();
        proof {
            assert(name_set(none@) =~= Set::<Seq<char>>::empty());
        }
        return Ok(Some((none, fields)));
    }
    proof {
        lemma_comparison_deps(document@);
    }
    let dep = match &fields[0].1 {
        Value::Text(t) => t,
        _ => {
            proof {
                assert(entries(fields@)[0].1 == model(fields@[0].1));
            }
            return Err(error("expected_text"));
        },
    };
    let cs = match collections(document) {
        Ok(c) => c,
        Err(e) => return Err(e),
    };
    let ms = member_list(&cs);
    proof {
        lemma_entries(ms@);
    }
    let ghost mv = entries(ms@);
    let mut found: Vec<Vec<char>> = Vec::new();
    let mut i: usize = 0;
    while i < ms.len()
        invariant
            0 <= i <= ms.len(),
            mv == entries(ms@),
            mv.len() == ms@.len(),
            forall|q: int| 0 <= q < ms@.len() ==> #[trigger] mv[q] == (ms@[q].0@, model(ms@[q].1)),
            name_set(found@) == judgment_ids(mv.take(i as int), dep@),
            sorted_names(char_views(found@)),
        decreases ms.len() - i,
    {
        let ghost before = found@;
        let holds = match &ms[i].1 {
            Value::Mapping(es) => crate::value::find(es, dep.as_str()).is_some(),
            _ => false,
        };
        proof {
            assert(mv[i as int] == (ms@[i as int].0@, model(ms@[i as int].1)));
            if holds {
                let es = ms@[i as int].1->Mapping_0@;
                let k = choose|k: int| first_key(entries(es), dep@, k);
                assert(entries(es)[k].0 == dep@);
            }
            assert(holds == holds_dep(mv[i as int].1, dep@));
        }
        if holds {
            crate::tally::add_name(&mut found, &chars_of(ms[i].0.as_str()));
        }
        proof {
            let t0 = mv.take(i as int);
            let t1 = mv.take(i + 1);
            assert forall|x: Seq<char>| #[trigger] judgment_ids(t1, dep@).contains(x) == name_set(found@).contains(x) by {
                if judgment_ids(t1, dep@).contains(x) {
                    let q = choose|q: int| 0 <= q < t1.len() && #[trigger] t1[q].0 == x && holds_dep(t1[q].1, dep@);
                    if q < i {
                        assert(t0[q] == t1[q]);
                        assert(judgment_ids(t0, dep@).contains(x));
                    }
                }
                if judgment_ids(t0, dep@).contains(x) {
                    let q = choose|q: int| 0 <= q < t0.len() && #[trigger] t0[q].0 == x && holds_dep(t0[q].1, dep@);
                    assert(t0[q] == t1[q]);
                }
                if holds && x == mv[i as int].0 {
                    assert(t1[i as int] == mv[i as int]);
                }
            }
            assert(name_set(found@) =~= judgment_ids(t1, dep@));
        }
        i = i + 1;
    }
    proof {
        assert(mv.take(ms.len() as int) =~= mv);
    }
    Ok(Some((found, fields)))
}

} // verus!
