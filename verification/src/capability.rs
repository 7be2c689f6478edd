//! The reasoning capabilities a record declares under `meta.reasoning`, and
//! the profile a reader takes it at.
use vstd::prelude::*;
use crate::fields::{error, reserved, texts};
use crate::roles::{inferred, lemma_snapshot_text, snapshot_fields};
use crate::text::{chars_lt, chars_of, seq_lt, string_of};
use crate::value::{Error, Model, Value, copy, copy_entries, entries, field, field_of, has_key, insert, is_int, lemma_entries, lemma_models, lookup, map_entries, model, models, put, s, string_is};

verus! {

broadcast use vstd::std_specs::vec::group_vec_axioms;

/// The capabilities this reader knows.
pub open spec fn known_capability(n: Seq<char>) -> bool {
    n == "arithmetic/v1"@ || n == "composition/v1"@ || n == "query/v1"@
}

/// Names in strictly increasing order.
pub open spec fn strictly_sorted(ns: Seq<Seq<char>>) -> bool {
    forall|i: int, j: int| 0 <= i < j < ns.len() && j == i + 1 ==> seq_lt(#[trigger] ns[i], #[trigger] ns[j])
}

/// The verdict on a declared `meta.reasoning`: well formed, and within what
/// this reader supports.
pub open spec fn declared_check(d: Model) -> Result<(), Seq<char>> {
    let es = map_entries(d);
    let version = field_of(d, "version"@);
    let profile = field_of(d, "profile"@);
    let listed = field_of(d, "requires"@);
    if d !is Mapping {
        Err("invalid_capability"@)
    } else if !(es.len() == 3 && has_key(es, "version"@) && has_key(es, "profile"@) && has_key(
        es,
        "requires"@,
    )) {
        Err("invalid_capability"@)
    } else if !(version is Integer && profile is Text) {
        Err("invalid_capability"@)
    } else if listed !is List {
        Err("invalid_capability"@)
    } else if !(forall|i: int|
        0 <= i < listed->List_0.len() ==> (#[trigger] listed->List_0[i]) is Text) {
        Err("invalid_capability"@)
    } else if !strictly_sorted(texts(listed->List_0)) {
        Err("invalid_capability"@)
    } else if !((version == Model::Integer("1"@) || version == Model::Integer("2"@)) && profile
        == Model::Text("core/v1"@)) {
        Err("unsupported_capability"@)
    } else if !(forall|i: int|
        0 <= i < texts(listed->List_0).len() ==> known_capability(
            #[trigger] texts(listed->List_0)[i],
        )) {
        Err("unsupported_capability"@)
    } else if !texts(listed->List_0).contains("arithmetic/v1"@) {
        Err("invalid_capability"@)
    } else {
        Ok(())
    }
}

/// What a record that declares nothing is read as.
pub open spec fn default_capability() -> Seq<(Seq<char>, Model)> {
    seq![
        ("profile"@, Model::Text("ordinary-reader/v1"@)),
        ("requires"@, Model::List(Seq::empty())),
        ("version"@, Model::Integer("1"@)),
    ]
}

/// A mapping whose `computed.version` is the number two.
pub open spec fn computed_two(v: Model) -> bool {
    &&& v is Mapping
    &&& field_of(v, "computed"@) is Mapping
    &&& field_of(field_of(v, "computed"@), "version"@) == Model::Integer("2"@)
}

/// Some entry of the mapping `es` holds a second-version computation.
pub open spec fn holds_two(es: Seq<(Seq<char>, Model)>) -> bool {
    exists|j: int| 0 <= j < es.len() && computed_two(#[trigger] es[j].1)
}

/// A member with a mapping field that holds a second-version computation.
pub open spec fn member_may_be_two(b: Model) -> bool {
    b is Mapping && exists|f: int|
        0 <= f < b->Mapping_0.len() && (#[trigger] b->Mapping_0[f]).1 is Mapping && holds_two(
            b->Mapping_0[f].1->Mapping_0,
        )
}

/// A member whose snapshot field holds a second-version computation.
pub open spec fn member_seen_two(b: Model, seen: Seq<char>) -> bool {
    b is Mapping && field_of(b, seen) is Mapping && holds_two(field_of(b, seen)->Mapping_0)
}

/// The members of the record's top-level mappings other than `meta`,
/// `schema`, `record` and `also`.
pub open spec fn is_member(des: Seq<(Seq<char>, Model)>, i: int, j: int) -> bool {
    &&& 0 <= i < des.len()
    &&& !reserved(des[i].0)
    &&& des[i].1 is Mapping
    &&& 0 <= j < des[i].1->Mapping_0.len()
}

pub open spec fn member(des: Seq<(Seq<char>, Model)>, i: int, j: int) -> Model {
    des[i].1->Mapping_0[j].1
}

pub open spec fn some_member_may_be_two(des: Seq<(Seq<char>, Model)>) -> bool {
    exists|i: int, j: int| is_member(des, i, j) && member_may_be_two(#[trigger] member(des, i, j))
}

pub open spec fn some_member_seen_two(des: Seq<(Seq<char>, Model)>, seen: Seq<char>) -> bool {
    exists|i: int, j: int| is_member(des, i, j) && member_seen_two(#[trigger] member(des, i, j), seen)
}

/// A reader profile asked for in place of the declared one.
pub open spec fn with_profile(es: Seq<(Seq<char>, Model)>, p: Seq<char>) -> Result<Seq<(Seq<char>, Model)>, Seq<char>> {
    let current = field_of(Model::Mapping(es), "profile"@);
    let core = p == "core/v1"@;
    if !(p == "ordinary-reader/v1"@ || p == "checked-reader/v1"@ || core) {
        Err("unsupported_capability"@)
    } else if current == Model::Text("core/v1"@) && !core {
        Err("unsupported_capability"@)
    } else if current == Model::Text(p) {
        Ok(es)
    } else {
        let e1 = put(es, "declared_profile"@, current);
        let e2 = put(e1, "profile"@, Model::Text(p));
        let e3 = put(
            e2,
            "requires"@,
            Model::List(
                if core {
                    seq![Model::Text("arithmetic/v1"@)]
                } else {
                    Seq::empty()
                },
            ),
        );
        Ok(put(e3, "experimental_override"@, Model::Bool(core)))
    }
}

/// The capabilities of a record, read at `profile` where one is asked for.
pub open spec fn capability(doc: Model, profile: Option<Seq<char>>) -> Result<Model, Seq<char>> {
    let meta = field_of(doc, "meta"@);
    let declared = has_key(map_entries(meta), "reasoning"@);
    let d = field_of(meta, "reasoning"@);
    if doc !is Mapping {
        Err("expected_mapping"@)
    } else if declared && declared_check(d) is Err {
        Err(declared_check(d)->Err_0)
    } else {
        let base = if declared {
            map_entries(d)
        } else {
            default_capability()
        };
        let des = doc->Mapping_0;
        let checked: Result<(), Seq<char>> = if field_of(Model::Mapping(base), "version"@) != Model::Integer(
            "2"@,
        ) && some_member_may_be_two(des) {
            match inferred(doc, false) {
                Err(c) => Err(c),
                Ok(m) => if some_member_seen_two(des, m[2].1->Text_0) {
                    Err("invalid_capability"@)
                } else {
                    Ok(())
                },
            }
        } else {
            Ok(())
        };
        match checked {
            Err(c) => Err(c),
            Ok(_) => match profile {
                None => Ok(Model::Mapping(base)),
                Some(p) => match with_profile(base, p) {
                    Ok(es) => Ok(Model::Mapping(es)),
                    Err(c) => Err(c),
                },
            },
        }
    }
}

/// What `declared_check` has established before it reads the names.
pub open spec fn declared_prefix(d: Model, ms: Seq<Model>) -> bool {
    &&& d is Mapping
    &&& map_entries(d).len() == 3
    &&& has_key(map_entries(d), "version"@)
    &&& has_key(map_entries(d), "profile"@)
    &&& has_key(map_entries(d), "requires"@)
    &&& field_of(d, "version"@) is Integer
    &&& field_of(d, "profile"@) is Text
    &&& field_of(d, "requires"@) == Model::List(ms)
}

/// An optional profile's characters.
pub open spec fn profile_view(p: Option<&str>) -> Option<Seq<char>> {
    match p {
        Some(t) => Some(t@),
        None => None,
    }
}

/// Checks a declared `meta.reasoning`.
fn check_declared(d: &Value) -> (r: Result<(), Error>)
    ensures
        match r {
            Ok(_) => declared_check(d@) is Ok,
            Err(e) => declared_check(d@) == Err::<(), Seq<char>>(e.0@),
        },
{
    let es = match d {
        Value::Mapping(es) => es,
        _ => return Err(error("invalid_capability")),
    };
    proof {
        lemma_entries(es@);
    }
    let (v, p, listed) = match (field(d, "version"), field(d, "profile"), field(d, "requires")) {
        (Some(v), Some(p), Some(l)) => (v, p, l),
        _ => return Err(error("invalid_capability")),
    };
    if es.len() != 3 {
        return Err(error("invalid_capability"));
    }
    let shapes = match (v, p) {
        (Value::Integer(_), Value::Text(_)) => true,
        _ => false,
    };
    if !shapes {
        return Err(error("invalid_capability"));
    }
    let xs = match listed {
        Value::List(xs) => xs,
        _ => return Err(error("invalid_capability")),
    };
    proof {
        lemma_models(xs@);
    }
    let ghost ms = models(xs@);
    assert(declared_prefix(d@, ms));
    let mut names: Vec<Vec<char>> = Vec::new();
    let mut i: usize = 0;
    while i < xs.len()
        invariant
            0 <= i <= xs.len(),
            declared_prefix(d@, ms),
            ms == models(xs@),
            ms.len() == xs@.len(),
            forall|q: int| 0 <= q < xs@.len() ==> #[trigger] ms[q] == model(xs@[q]),
            forall|q: int| 0 <= q < i ==> (#[trigger] ms[q]) is Text,
            names@.len() == texts(ms.take(i as int)).len(),
            forall|q: int| 0 <= q < names@.len() ==> #[trigger] names@[q]@ == texts(ms.take(i as int))[q],
        decreases xs.len() - i,
    {
        proof {
            assert(ms.take(i + 1).drop_last() =~= ms.take(i as int));
            assert(ms.take(i + 1).last() == model(xs@[i as int]));
        }
        match &xs[i] {
            Value::Text(t) => {
                names.push(chars_of(t.as_str()));
            },
            _ => {
                assert(!(ms[i as int] is Text));
                return Err(error("invalid_capability"));
            },
        }
        i = i + 1;
    }
    proof {
        assert(ms.take(xs.len() as int) =~= ms);
    }
    let ghost ns = texts(ms);
    let mut k: usize = 1;
    while k < names.len()
        invariant
            1 <= k,
            k <= names.len() || names.len() == 0,
            declared_prefix(d@, ms),
            ns == texts(ms),
            forall|q: int| 0 <= q < ms.len() ==> (#[trigger] ms[q]) is Text,
            names@.len() == ns.len(),
            forall|q: int| 0 <= q < names@.len() ==> #[trigger] names@[q]@ == ns[q],
            forall|a: int, b: int| 0 <= a < b < k && b == a + 1 ==> seq_lt(#[trigger] ns[a], #[trigger] ns[b]),
        decreases names.len() - k,
    {
        if !chars_lt(&names[k - 1], &names[k]) {
            proof {
                assert(!seq_lt(ns[k - 1], ns[k as int]));
            }
            return Err(error("invalid_capability"));
        }
        k = k + 1;
    }
    if !((is_int(v, "1") || is_int(v, "2")) && string_is(p, "core/v1")) {
        return Err(error("unsupported_capability"));
    }
    let mut has_arithmetic = false;
    let mut j: usize = 0;
    while j < names.len()
        invariant
            0 <= j <= names.len(),
            declared_prefix(d@, ms),
            ns == texts(ms),
            forall|q: int| 0 <= q < ms.len() ==> (#[trigger] ms[q]) is Text,
            strictly_sorted(ns),
            (field_of(d@, "version"@) == Model::Integer("1"@) || field_of(d@, "version"@) == Model::Integer("2"@)),
            field_of(d@, "profile"@) == Model::Text("core/v1"@),
            names@.len() == ns.len(),
            forall|q: int| 0 <= q < names@.len() ==> #[trigger] names@[q]@ == ns[q],
            forall|q: int| 0 <= q < j ==> known_capability(#[trigger] ns[q]),
            has_arithmetic <==> exists|q: int| 0 <= q < j && #[trigger] ns[q] == "arithmetic/v1"@,
        decreases names.len() - j,
    {
        let n = &names[j];
        let arithmetic = crate::text::same(n, &chars_of("arithmetic/v1"));
        let known = arithmetic || crate::text::same(n, &chars_of("composition/v1")) || crate::text::same(
            n,
            &chars_of("query/v1"),
        );
        if !known {
            proof {
                assert(!known_capability(ns[j as int]));
            }
            return Err(error("unsupported_capability"));
        }
        if arithmetic {
            has_arithmetic = true;
        }
        j = j + 1;
    }
    if !has_arithmetic {
        proof {
            if ns.contains("arithmetic/v1"@) {
                let q = choose|q: int| 0 <= q < ns.len() && ns[q] == "arithmetic/v1"@;
                assert(ns[q] == "arithmetic/v1"@);
            }
        }
        return Err(error("invalid_capability"));
    }
    proof {
        let q = choose|q: int| 0 <= q < ns.len() && #[trigger] ns[q] == "arithmetic/v1"@;
        assert(ns.contains("arithmetic/v1"@));
    }
    Ok(())
}

fn is_computed_two(v: &Value) -> (r: bool)
    ensures
        r == computed_two(v@),
{
    match field(v, "computed") {
        Some(c) => match c {
            Value::Mapping(_) => match field(c, "version") {
                Some(n) => is_int(n, "2"),
                None => false,
            },
            _ => false,
        },
        None => false,
    }
}

fn any_two(es: &Vec<(String, Value)>) -> (r: bool)
    ensures
        r == holds_two(entries(es@)),
{
    proof {
        lemma_entries(es@);
    }
    let mut j: usize = 0;
    while j < es.len()
        invariant
            0 <= j <= es.len(),
            entries(es@).len() == es@.len(),
            forall|q: int| 0 <= q < es@.len() ==> #[trigger] entries(es@)[q] == (es@[q].0@, model(es@[q].1)),
            forall|q: int| 0 <= q < j ==> !computed_two(#[trigger] entries(es@)[q].1),
        decreases es.len() - j,
    {
        if is_computed_two(&es[j].1) {
            assert(computed_two(entries(es@)[j as int].1));
            return true;
        }
        j = j + 1;
    }
    false
}

fn may_be_two(b: &Value) -> (r: bool)
    ensures
        r == member_may_be_two(b@),
{
    match b {
        Value::Mapping(fs) => {
            proof {
                lemma_entries(fs@);
            }
            let mut f: usize = 0;
            while f < fs.len()
                invariant
                    0 <= f <= fs.len(),
                    *b == Value::Mapping(*fs),
                    entries(fs@).len() == fs@.len(),
                    forall|q: int| 0 <= q < fs@.len() ==> #[trigger] entries(fs@)[q] == (fs@[q].0@, model(fs@[q].1)),
                    forall|q: int|
                        0 <= q < f ==> !((#[trigger] entries(fs@)[q]).1 is Mapping && holds_two(
                            entries(fs@)[q].1->Mapping_0,
                        )),
                decreases fs.len() - f,
            {
                if let Value::Mapping(gs) = &fs[f].1 {
                    if any_two(gs) {
                        assert(entries(fs@)[f as int].1 == Model::Mapping(entries(gs@)));
                        return true;
                    }
                }
                f = f + 1;
            }
            false
        },
        _ => false,
    }
}

fn seen_two(b: &Value, seen: &str) -> (r: bool)
    ensures
        r == member_seen_two(b@, seen@),
{
    match b {
        Value::Mapping(_) => match field(b, seen) {
            Some(Value::Mapping(gs)) => any_two(gs),
            _ => false,
        },
        _ => false,
    }
}

/// Whether some member of the record may hold a second-version computation
/// (`snapshot` false), or holds one in its `seen` field (`snapshot` true).
fn members_two(des: &Vec<(String, Value)>, snapshot: bool, seen: &str) -> (r: bool)
    ensures
        snapshot ==> r == some_member_seen_two(entries(des@), seen@),
        !snapshot ==> r == some_member_may_be_two(entries(des@)),
{
    proof {
        lemma_entries(des@);
    }
    let ghost dm = entries(des@);
    let mut i: usize = 0;
    while i < des.len()
        invariant
            0 <= i <= des.len(),
            dm == entries(des@),
            dm.len() == des@.len(),
            forall|q: int| 0 <= q < des@.len() ==> #[trigger] dm[q] == (des@[q].0@, model(des@[q].1)),
            forall|a: int, b: int|
                0 <= a < i && is_member(dm, a, b) ==> !(if snapshot {
                    member_seen_two(#[trigger] member(dm, a, b), seen@)
                } else {
                    member_may_be_two(member(dm, a, b))
                }),
        decreases des.len() - i,
    {
        assert(dm[i as int] == (des@[i as int].0@, model(des@[i as int].1)));
        if !crate::fields::is_reserved(&des[i].0) {
            if let Value::Mapping(ms) = &des[i].1 {
                proof {
                    lemma_entries(ms@);
                }
                let mut j: usize = 0;
                while j < ms.len()
                    invariant
                        0 <= j <= ms.len(),
                        0 <= i < des.len(),
                        dm == entries(des@),
                        dm.len() == des@.len(),
                        dm[i as int] == (des@[i as int].0@, model(des@[i as int].1)),
                        !reserved(dm[i as int].0),
                        des@[i as int].1 == Value::Mapping(*ms),
                        entries(ms@).len() == ms@.len(),
                        forall|q: int| 0 <= q < ms@.len() ==> #[trigger] entries(ms@)[q] == (ms@[q].0@, model(ms@[q].1)),
                        forall|a: int, b: int|
                            0 <= a < i && is_member(dm, a, b) ==> !(if snapshot {
                                member_seen_two(#[trigger] member(dm, a, b), seen@)
                            } else {
                                member_may_be_two(member(dm, a, b))
                            }),
                        forall|b: int|
                            0 <= b < j ==> !(if snapshot {
                                member_seen_two(#[trigger] member(dm, i as int, b), seen@)
                            } else {
                                member_may_be_two(member(dm, i as int, b))
                            }),
                    decreases ms.len() - j,
                {
                    let hit = if snapshot {
                        seen_two(&ms[j].1, seen)
                    } else {
                        may_be_two(&ms[j].1)
                    };
                    assert(member(dm, i as int, j as int) == model(ms@[j as int].1));
                    if hit {
                        assert(is_member(dm, i as int, j as int));
                        return true;
                    }
                    j = j + 1;
                }
            }
        }
        i = i + 1;
    }
    false
}

/// Applies an asked-for reader profile.
fn apply_profile(es: Vec<(String, Value)>, p: &str) -> (r: Result<Vec<(String, Value)>, Error>)
    ensures
        match r {
            Ok(m) => with_profile(entries(es@), p@) == Ok::<Seq<(Seq<char>, Model)>, Seq<char>>(entries(m@)),
            Err(e) => with_profile(entries(es@), p@) == Err::<Seq<(Seq<char>, Model)>, Seq<char>>(e.0@),
        },
{
    let asked = chars_of(p);
    let core = crate::text::same(&asked, &chars_of("core/v1"));
    if !(core || crate::text::same(&asked, &chars_of("ordinary-reader/v1")) || crate::text::same(
        &asked,
        &chars_of("checked-reader/v1"),
    )) {
        return Err(error("unsupported_capability"));
    }
    let current = match crate::value::get(&es, "profile") {
        Some(v) => copy(v),
        None => Value::Null,
    };
    assert(current@ == field_of(Model::Mapping(entries(es@)), "profile"@));
    if string_is(&current, "core/v1") && !core {
        return Err(error("unsupported_capability"));
    }
    if string_is(&current, p) {
        return Ok(es);
    }
    let mut out = es;
    insert(&mut out, "declared_profile", current);
    insert(&mut out, "profile", s(p));
    let mut listed: Vec<Value> = Vec::new();
    if core {
        listed.push(s("arithmetic/v1"));
    }
    proof {
        lemma_models(listed@);
        assert(models(listed@) =~= if core {
            seq![Model::Text("arithmetic/v1"@)]
        } else {
            Seq::<Model>::empty()
        });
    }
    insert(&mut out, "requires", Value::List(listed));
    insert(&mut out, "experimental_override", Value::Bool(core));
    Ok(out)
}

/// The capabilities of a record: its `meta.reasoning` where it declares
/// one, checked, else the ordinary reader's; a record that declares the
/// first version and holds second-version computations in its snapshots is
/// refused. Read at `profile` where one is asked for.
pub fn capabilities(document: &Value, profile: Option<&str>) -> (r: Result<Value, Error>)
    ensures
        match r {
            Ok(v) => capability(document@, profile_view(profile)) == Ok::<Model, Seq<char>>(v@),
            Err(e) => capability(document@, profile_view(profile)) == Err::<Model, Seq<char>>(e.0@),
        },
{
    let des = match document {
        Value::Mapping(des) => des,
        _ => return Err(error("expected_mapping")),
    };
    let reasoning = match field(document, "meta") {
        Some(meta) => field(meta, "reasoning"),
        None => None,
    };
    proof {
        let meta = field_of(document@, "meta"@);
        if reasoning is None && lookup(map_entries(document@), "meta"@) is None {
            assert(meta == Model::Null);
        }
    }
    let base: Vec<(String, Value)> = match reasoning {
        Some(d) => {
            match check_declared(d) {
                Ok(_) => {},
                Err(e) => return Err(e),
            }
            match d {
                Value::Mapping(es) => copy_entries(es),
                _ => return Err(error("invalid_capability")),
            }
        },
        None => {
            let mut es: Vec<(String, Value)> = Vec::new();
            es.push((string_of(&chars_of("profile")), s("ordinary-reader/v1")));
            es.push((string_of(&chars_of("requires")), Value::List(Vec::new())));
            es.push((string_of(&chars_of("version")), Value::Integer(string_of(&chars_of("1")))));
            proof {
                lemma_entries(es@);
                assert(models(Seq::<Value>::empty()) =~= Seq::<Model>::empty());
                assert(entries(es@) =~= default_capability());
            }
            es
        },
    };
    let second = match crate::value::get(&base, "version") {
        Some(v) => is_int(v, "2"),
        None => false,
    };
    if !second && members_two(des, false, "") {
        let role = match snapshot_fields(document) {
            Ok(m) => m,
            Err(e) => return Err(e),
        };
        proof {
            lemma_snapshot_text(document@);
            lemma_entries(role@);
            assert(entries(role@)[2].1 == model(role@[2].1));
        }
        let seen = match &role[2].1 {
            Value::Text(t) => t,
            _ => return Err(error("expected_text")),
        };
        if members_two(des, true, seen.as_str()) {
            return Err(error("invalid_capability"));
        }
    }
    match profile {
        None => Ok(Value::Mapping(base)),
        Some(p) => match apply_profile(base, p) {
            Ok(es) => Ok(Value::Mapping(es)),
            Err(e) => Err(e),
        },
    }
}


/// Asking for the profile a record is already read at changes nothing: the
/// capabilities read at the profile they name are the same capabilities.
pub proof fn lemma_same_profile(doc: Model, p: Seq<char>)
    requires
        capability(doc, None) is Ok,
        field_of(capability(doc, None)->Ok_0, "profile"@) == Model::Text(p),
    ensures
        capability(doc, Some(p)) == capability(doc, None),
{
    let meta = field_of(doc, "meta"@);
    let d = field_of(meta, "reasoning"@);
    if has_key(map_entries(meta), "reasoning"@) {
        assert(declared_check(d) is Ok);
        assert(field_of(d, "profile"@) == Model::Text("core/v1"@));
        assert(field_of(Model::Mapping(map_entries(d)), "profile"@) == field_of(d, "profile"@));
    } else {
        let base = default_capability();
        crate::value::lemma_key_index(base, "profile"@, 0);
        assert(field_of(Model::Mapping(base), "profile"@) == Model::Text("ordinary-reader/v1"@));
    }
}

/// Read at `core/v1`, a record is at `core/v1` and requires arithmetic.
pub proof fn lemma_core_requires_arithmetic(doc: Model)
    requires
        capability(doc, Some("core/v1"@)) is Ok,
    ensures
        field_of(capability(doc, Some("core/v1"@))->Ok_0, "profile"@) == Model::Text("core/v1"@),
        field_of(capability(doc, Some("core/v1"@))->Ok_0, "requires"@) is List,
        texts(field_of(capability(doc, Some("core/v1"@))->Ok_0, "requires"@)->List_0).contains("arithmetic/v1"@),
{
    let meta = field_of(doc, "meta"@);
    let declared = crate::value::has_key(map_entries(meta), "reasoning"@);
    let d = field_of(meta, "reasoning"@);
    let base = if declared {
        map_entries(d)
    } else {
        default_capability()
    };
    let current = field_of(Model::Mapping(base), "profile"@);
    reveal_strlit("core/v1");
    reveal_strlit("ordinary-reader/v1");
    reveal_strlit("profile");
    reveal_strlit("requires");
    reveal_strlit("version");
    reveal_strlit("declared_profile");
    reveal_strlit("experimental_override");
    reveal_strlit("arithmetic/v1");
    if declared {
        assert(declared_check(d) is Ok);
        assert(d is Mapping);
        assert(Model::Mapping(base) == d);
    } else {
        let dc = default_capability();
        assert(dc[0].0 == "profile"@);
        crate::value::lemma_key_index(dc, "profile"@, 0);
        assert(current == Model::Text("ordinary-reader/v1"@));
        assert("ordinary-reader/v1"@.len() != "core/v1"@.len());
        assert(current != Model::Text("core/v1"@));
        assert("experimental_override"@.len() != "requires"@.len());
        assert("experimental_override"@.len() != "profile"@.len());
        assert("requires"@.len() != "profile"@.len());
        let core = Model::Text("core/v1"@);
        let e1 = put(base, "declared_profile"@, current);
        let e2 = put(e1, "profile"@, core);
        let listed = Model::List(seq![Model::Text("arithmetic/v1"@)]);
        let e3 = put(e2, "requires"@, listed);
        let e4 = put(e3, "experimental_override"@, Model::Bool(true));
        crate::value::lemma_put_same(e1, "profile"@, core);
        crate::value::lemma_put_other(e2, "requires"@, listed, "profile"@);
        crate::value::lemma_put_other(e3, "experimental_override"@, Model::Bool(true), "profile"@);
        crate::value::lemma_put_same(e2, "requires"@, listed);
        crate::value::lemma_put_other(e3, "experimental_override"@, Model::Bool(true), "requires"@);
        assert(texts(seq![Model::Text("arithmetic/v1"@)]) =~= seq!["arithmetic/v1"@]) by {
            let one = seq![Model::Text("arithmetic/v1"@)];
            assert(one.drop_last() =~= Seq::<Model>::empty());
            assert(one.last() == Model::Text("arithmetic/v1"@));
            assert(texts(one.drop_last()) =~= Seq::<Seq<char>>::empty());
        }
        assert(seq!["arithmetic/v1"@][0] == "arithmetic/v1"@);
    }
}

} // verus!
