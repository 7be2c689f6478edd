//! A declared navigation profile laid over a session's nodes as a whole:
//! each node's topic, the profile's orientation and opening depth, and the
//! ids it names that no node answers to, ordered as Python sorts them.
use vstd::prelude::*;
use crate::page::{holds_string, str_set, strings};
use crate::profile::{
    Assigned, Assignment, assign_groups, assignment_view, depth_spec, empty_mapping, opening_depth,
    orientation_checked, orientation_spec, profile_assignment, topics, topics_spec,
};
use crate::projection::record_view;
use crate::text::{chars_lt, chars_of, seq_lt, string_of};
use crate::value::{Error, Model, Value, copy, field, lemma_models, lookup, map_entries, model, models};

verus! {

broadcast use vstd::std_specs::vec::group_vec_axioms;

/// `s` without its leading zeros.
pub open spec fn strip_zeros(s: Seq<char>) -> Seq<char>
    decreases s.len(),
{
    if s.len() > 0 && s[0] == '0' {
        strip_zeros(s.skip(1))
    } else {
        s
    }
}

/// The digits of an integer text, without its sign and leading zeros.
pub open spec fn magnitude(t: Seq<char>) -> Seq<char> {
    strip_zeros(
        if t.len() > 0 && t[0] == '-' {
            t.skip(1)
        } else {
            t
        },
    )
}

/// Whether an integer text writes a number below zero.
pub open spec fn negative(t: Seq<char>) -> bool {
    t.len() > 0 && t[0] == '-' && magnitude(t).len() > 0
}

/// Digit strings without leading zeros compared as numbers: the shorter is
/// smaller, and of two as long the first differing digit decides.
pub open spec fn magnitude_lt(a: Seq<char>, b: Seq<char>) -> bool {
    a.len() < b.len() || (a.len() == b.len() && seq_lt(a, b))
}

/// Integer texts compared as the numbers they write.
pub open spec fn int_before(a: Seq<char>, b: Seq<char>) -> bool {
    if negative(a) && !negative(b) {
        true
    } else if !negative(a) && negative(b) {
        false
    } else if !negative(a) {
        magnitude_lt(magnitude(a), magnitude(b))
    } else {
        magnitude_lt(magnitude(b), magnitude(a))
    }
}

/// How Python's sort groups an unmatched id: texts, numbers (booleans
/// among them), and nulls.
pub open spec fn kind_of(m: Model) -> u8 {
    match m {
        Model::Text(_) => 0,
        Model::Integer(_) | Model::Bool(_) | Model::NonFinite(_) => 1,
        _ => 2,
    }
}

/// The Python type name of an unmatched id.
pub open spec fn python_type(m: Model) -> Seq<char> {
    match m {
        Model::Text(_) => "str"@,
        Model::Integer(_) | Model::NonFinite(_) => "int"@,
        Model::Bool(_) => "bool"@,
        _ => "NoneType"@,
    }
}

/// The integer text a number stands for: its own, or `1` and `0` for the
/// booleans.
pub open spec fn number_text(m: Model) -> Seq<char> {
    match m {
        Model::Integer(t) => t,
        Model::Bool(b) => if b {
            "1"@
        } else {
            "0"@
        },
        _ => Seq::empty(),
    }
}

pub open spec fn text_of(m: Model) -> Seq<char> {
    match m {
        Model::Text(t) => t,
        _ => Seq::empty(),
    }
}

/// Whether `x` sorts strictly before `y` among ids of kind `kind`: texts by
/// character, numbers by value, nulls never.
pub open spec fn before(kind: u8, x: Model, y: Model) -> bool {
    if kind == 0 {
        seq_lt(text_of(x), text_of(y))
    } else if kind == 1 {
        int_before(number_text(x), number_text(y))
    } else {
        false
    }
}

/// Where `x` goes in the sorted `s`: after every id it does not sort before.
pub open spec fn slot(s: Seq<Model>, x: Model, kind: u8, i: int) -> int
    decreases s.len() - i,
{
    if i >= s.len() {
        s.len() as int
    } else if before(kind, x, s[i]) {
        i
    } else {
        slot(s, x, kind, i + 1)
    }
}

/// A stable sort by `before`: each id in turn placed after every earlier id
/// it does not sort before.
pub open spec fn sort_by(xs: Seq<Model>, kind: u8) -> Seq<Model>
    decreases xs.len(),
{
    if xs.len() == 0 {
        Seq::empty()
    } else {
        let s = sort_by(xs.drop_last(), kind);
        s.insert(slot(s, xs.last(), kind, 0), xs.last())
    }
}

/// The ids with a topic path that no node answers to, in order, as texts.
pub open spec fn strays(assigned: Seq<(Seq<char>, Seq<Seq<char>>)>, nodes: Set<Seq<char>>) -> Seq<Model>
    decreases assigned.len(),
{
    if assigned.len() == 0 {
        Seq::empty()
    } else {
        let rest = strays(assigned.drop_last(), nodes);
        if nodes.contains(assigned.last().0) {
            rest
        } else {
            rest.push(Model::Text(assigned.last().0))
        }
    }
}

/// The ids a profile names that no node answers to: the ids that are not
/// texts, in the order listed, then the text ids no node has, by id.
pub open spec fn unmatched_spec(st: Assigned, nodes: Set<Seq<char>>) -> Seq<Model> {
    st.unmatched + sort_by(strays(st.assigned, nodes), 0)
}

/// The first id from `i` on whose Python type is not the first id's.
pub open spec fn first_other(u: Seq<Model>, i: int) -> int
    decreases u.len() - i,
{
    if i >= u.len() {
        u.len() as int
    } else if python_type(u[i]) != python_type(u[0]) {
        i
    } else {
        first_other(u, i + 1)
    }
}

/// Sorting the unmatched ids as Python does: refused where texts sit beside
/// other ids, or numbers beside nulls, else in order.
pub open spec fn sorted_unmatched(u: Seq<Model>) -> Result<Seq<Model>, Seq<char>> {
    if (exists|i: int| 0 <= i < u.len() && #[trigger] u[i] is Text) && (exists|j: int|
        0 <= j < u.len() && !(#[trigger] u[j] is Text)) {
        Err("'<' not supported between instances of 'str' and 'int'"@)
    } else if exists|i: int| 0 <= i < u.len() && kind_of(#[trigger] u[i]) != kind_of(u[0]) {
        Err(
            "'<' not supported between instances of '"@ + python_type(u[first_other(u, 0)]) + "' and '"@ + python_type(
                u[0],
            ) + "'"@,
        )
    } else if u.len() == 0 {
        Ok(u)
    } else {
        Ok(sort_by(u, kind_of(u[0])))
    }
}

/// What laying a profile over the nodes gives.
pub struct ProfiledModel {
    pub topics: Seq<(Seq<char>, Seq<Seq<char>>)>,
    pub orientation: Model,
    pub unmatched: Seq<Model>,
    pub opening_depth: u64,
    pub description: Seq<char>,
}

pub open spec fn field_or(profile: Model, k: Seq<char>, otherwise: Model) -> Model {
    match lookup(map_entries(profile), k) {
        Some(v) => v,
        None => otherwise,
    }
}

pub open spec fn description_of(profile: Model) -> Seq<char> {
    match lookup(map_entries(profile), "description"@) {
        Some(Model::Text(t)) => t,
        _ => "Declared navigation."@,
    }
}

/// Laying a profile over the nodes: nothing for an empty profile; else its
/// groups assigned, its orientation and opening depth checked, and its
/// unmatched ids sorted, each refusal in that order.
pub open spec fn profile_spec(nodes: Seq<Seq<char>>, ns: Set<Seq<char>>, profile: Model) -> Result<
    Option<ProfiledModel>,
    Seq<char>,
> {
    if empty_mapping(profile) {
        Ok(None)
    } else {
        match lookup(map_entries(profile), "groups"@) {
            Some(Model::Mapping(gs)) => match assign_groups(gs) {
                Err(e) => Err(e),
                Ok(st) => {
                    let orientation = field_or(profile, "orientation"@, Model::Mapping(Seq::empty()));
                    match orientation_spec(orientation, ns) {
                        Err(e) => Err(e),
                        Ok(()) => match depth_spec(lookup(map_entries(profile), "opening_depth"@)) {
                            Err(e) => Err(e),
                            Ok(d) => match sorted_unmatched(unmatched_spec(st, ns)) {
                                Err(e) => Err(e),
                                Ok(u) => Ok(
                                    Some(
                                        ProfiledModel {
                                            topics: topics_spec(nodes, st.assigned),
                                            orientation,
                                            unmatched: u,
                                            opening_depth: d,
                                            description: description_of(profile),
                                        },
                                    ),
                                ),
                            },
                        },
                    }
                },
            },
            _ => Err("profile must contain declared groups"@),
        }
    }
}

fn strip_from(s: &Vec<char>, from: usize) -> (r: Vec<char>)
    requires
        from <= s.len(),
    ensures
        r@ == strip_zeros(s@.skip(from as int)),
{
    let mut k = from;
    while k < s.len() && s[k] == '0'
        invariant
            from <= k <= s.len(),
            strip_zeros(s@.skip(from as int)) == strip_zeros(s@.skip(k as int)),
        decreases s.len() - k,
    {
        assert(s@.skip(k as int).skip(1) =~= s@.skip(k + 1));
        k = k + 1;
    }
    let mut out: Vec<char> = Vec::new();
    let mut j = k;
    while j < s.len()
        invariant
            k <= j <= s.len(),
            out@ == s@.subrange(k as int, j as int),
        decreases s.len() - j,
    {
        out.push(s[j]);
        j = j + 1;
    }
    assert(out@ =~= s@.skip(k as int));
    out
}

fn magnitude_of(t: &Vec<char>) -> (r: (bool, Vec<char>))
    ensures
        r.0 == negative(t@),
        r.1@ == magnitude(t@),
{
    let signed = t.len() > 0 && t[0] == '-';
    let m = if signed {
        strip_from(t, 1)
    } else {
        assert(t@.skip(0) =~= t@);
        strip_from(t, 0)
    };
    (signed && m.len() > 0, m)
}

fn magnitude_lt_exec(a: &Vec<char>, b: &Vec<char>) -> (r: bool)
    ensures
        r == magnitude_lt(a@, b@),
{
    a.len() < b.len() || (a.len() == b.len() && chars_lt(a, b))
}

fn int_before_exec(a: &Vec<char>, b: &Vec<char>) -> (r: bool)
    ensures
        r == int_before(a@, b@),
{
    let (na, ma) = magnitude_of(a);
    let (nb, mb) = magnitude_of(b);
    if na && !nb {
        true
    } else if !na && nb {
        false
    } else if !na {
        magnitude_lt_exec(&ma, &mb)
    } else {
        magnitude_lt_exec(&mb, &ma)
    }
}

fn number_chars(v: &Value) -> (r: Vec<char>)
    ensures
        r@ == number_text(v@),
{
    match v {
        Value::Integer(t) => chars_of(t.as_str()),
        Value::Bool(b) => if *b {
            chars_of("1")
        } else {
            chars_of("0")
        },
        _ => Vec::new(),
    }
}

fn before_exec(kind: u8, x: &Value, y: &Value) -> (r: bool)
    ensures
        r == before(kind, x@, y@),
{
    if kind == 0 {
        let a: Vec<char> = match x {
            Value::Text(a) => chars_of(a.as_str()),
            _ => Vec::new(),
        };
        let b: Vec<char> = match y {
            Value::Text(b) => chars_of(b.as_str()),
            _ => Vec::new(),
        };
        chars_lt(&a, &b)
    } else if kind == 1 {
        int_before_exec(&number_chars(x), &number_chars(y))
    } else {
        false
    }
}

fn sort_ids(xs: &Vec<Value>, kind: u8) -> (r: Vec<Value>)
    ensures
        models(r@) == sort_by(models(xs@), kind),
{
    let ghost ms = models(xs@);
    proof {
        lemma_models(xs@);
    }
    let mut out: Vec<Value> = Vec::new();
    let mut i: usize = 0;
    assert(ms.take(0) =~= Seq::<Model>::empty());
    proof {
        lemma_models(out@);
    }
    assert(models(out@) =~= Seq::<Model>::empty());
    while i < xs.len()
        invariant
            0 <= i <= xs.len(),
            ms == models(xs@),
            ms.len() == xs@.len(),
            forall|q: int| 0 <= q < xs@.len() ==> #[trigger] ms[q] == model(xs@[q]),
            models(out@) == sort_by(ms.take(i as int), kind),
        decreases xs.len() - i,
    {
        assert(ms.take(i + 1).drop_last() =~= ms.take(i as int));
        assert(ms.take(i + 1).last() == ms[i as int]);
        let ghost s = models(out@);
        proof {
            lemma_models(out@);
        }
        let mut p: usize = 0;
        while p < out.len() && !before_exec(kind, &xs[i], &out[p])
            invariant
                0 <= p <= out.len(),
                i < xs.len(),
                s == models(out@),
                s.len() == out@.len(),
                forall|q: int| 0 <= q < out@.len() ==> #[trigger] s[q] == model(out@[q]),
                ms[i as int] == model(xs@[i as int]),
                slot(s, ms[i as int], kind, 0) == slot(s, ms[i as int], kind, p as int),
            decreases out.len() - p,
        {
            p = p + 1;
        }
        assert(slot(s, ms[i as int], kind, 0) == p);
        let c = copy(&xs[i]);
        let ghost old_out = out@;
        out.insert(p, c);
        proof {
            lemma_models(out@);
            assert(models(out@) =~= s.insert(p as int, ms[i as int])) by {
                assert forall|q: int| 0 <= q < out@.len() implies #[trigger] models(out@)[q] == s.insert(p as int, ms[i as int])[q] by {
                    if q < p {
                        assert(out@[q] == old_out[q]);
                    } else if q == p {
                        assert(out@[q] == c);
                    } else {
                        assert(out@[q] == old_out[q - 1]);
                    }
                }
            }
        }
        i = i + 1;
    }
    assert(ms.take(xs.len() as int) =~= ms);
    out
}

fn strays_of(assigned: &Vec<(String, Vec<String>)>, nodes: &Vec<String>) -> (r: Vec<Value>)
    ensures
        models(r@) == strays(record_view(assigned@), str_set(nodes@)),
{
    let ghost av = record_view(assigned@);
    let mut out: Vec<Value> = Vec::new();
    let mut i: usize = 0;
    assert(av.take(0) =~= Seq::<(Seq<char>, Seq<Seq<char>>)>::empty());
    proof {
        lemma_models(out@);
    }
    assert(models(out@) =~= Seq::<Model>::empty());
    while i < assigned.len()
        invariant
            0 <= i <= assigned.len(),
            av == record_view(assigned@),
            av.len() == assigned@.len(),
            models(out@) == strays(av.take(i as int), str_set(nodes@)),
        decreases assigned.len() - i,
    {
        assert(av.take(i + 1).drop_last() =~= av.take(i as int));
        assert(av.take(i + 1).last() == av[i as int]);
        assert(av[i as int].0 == assigned@[i as int].0@);
        let id = chars_of(assigned[i].0.as_str());
        if !holds_string(nodes, &id) {
            let ghost before = out@;
            out.push(Value::Text(string_of(&id)));
            proof {
                lemma_models(out@);
                lemma_models(before);
                assert(models(out@) =~= models(before).push(Model::Text(id@)));
            }
        }
        i = i + 1;
    }
    assert(av.take(assigned.len() as int) =~= av);
    out
}

fn sort_unmatched(u: &Vec<Value>) -> (r: Result<Vec<Value>, Error>)
    ensures
        match r {
            Ok(v) => sorted_unmatched(models(u@)) == Ok::<Seq<Model>, Seq<char>>(models(v@)),
            Err(e) => sorted_unmatched(models(u@)) == Err::<Seq<Model>, Seq<char>>(e.0@),
        },
{
    let ghost m = models(u@);
    proof {
        lemma_models(u@);
    }
    let mut any_text = false;
    let mut any_other = false;
    let mut i: usize = 0;
    while i < u.len()
        invariant
            0 <= i <= u.len(),
            m == models(u@),
            m.len() == u@.len(),
            forall|q: int| 0 <= q < u@.len() ==> #[trigger] m[q] == model(u@[q]),
            any_text == exists|q: int| 0 <= q < i && #[trigger] m[q] is Text,
            any_other == exists|q: int| 0 <= q < i && !(#[trigger] m[q] is Text),
        decreases u.len() - i,
    {
        match &u[i] {
            Value::Text(_) => {
                assert(m[i as int] is Text);
                any_text = true;
            },
            _ => {
                assert(!(m[i as int] is Text));
                any_other = true;
            },
        }
        i = i + 1;
    }
    if any_text && any_other {
        return Err(Error(string_of(&chars_of("'<' not supported between instances of 'str' and 'int'"))));
    }
    if u.len() == 0 {
        return Ok(Vec::new());
    }
    let k0 = kind_exec(&u[0]);
    let mut same = true;
    let mut j: usize = 0;
    while j < u.len()
        invariant
            0 <= j <= u.len(),
            u@.len() > 0,
            m == models(u@),
            m.len() == u@.len(),
            forall|q: int| 0 <= q < u@.len() ==> #[trigger] m[q] == model(u@[q]),
            k0 == kind_of(m[0]),
            same == forall|q: int| 0 <= q < j ==> kind_of(#[trigger] m[q]) == k0,
        decreases u.len() - j,
    {
        let kj = kind_exec(&u[j]);
        assert(kj == kind_of(m[j as int]));
        if kj != k0 {
            same = false;
        }
        j = j + 1;
    }
    if !same {
        let t0 = type_exec(&u[0]);
        let mut r: usize = 0;
        while r < u.len() && same_chars(&type_exec(&u[r]), &t0)
            invariant
                0 <= r <= u.len(),
                u@.len() > 0,
                m == models(u@),
                m.len() == u@.len(),
                forall|q: int| 0 <= q < u@.len() ==> #[trigger] m[q] == model(u@[q]),
                t0@ == python_type(m[0]),
                first_other(m, 0) == first_other(m, r as int),
            decreases u.len() - r,
        {
            r = r + 1;
        }
        proof {
            let q = choose|q: int| 0 <= q < m.len() && kind_of(#[trigger] m[q]) != kind_of(m[0]);
            lemma_other_before(m, 0, q);
        }
        assert(r < u.len());
        let mut msg = chars_of("'<' not supported between instances of '");
        crate::text::append(&mut msg, &type_exec(&u[r]));
        crate::text::append(&mut msg, &chars_of("' and '"));
        crate::text::append(&mut msg, &t0);
        crate::text::append(&mut msg, &chars_of("'"));
        return Err(Error(string_of(&msg)));
    }
    assert(!exists|q: int| 0 <= q < m.len() && kind_of(#[trigger] m[q]) != kind_of(m[0]));
    Ok(sort_ids(u, k0))
}

/// An id of another kind than the first has another type name too, so the
/// search for one ends before it.
proof fn lemma_other_before(m: Seq<Model>, i: int, q: int)
    requires
        0 <= i <= q < m.len(),
        kind_of(m[q]) != kind_of(m[0]),
    ensures
        first_other(m, i) <= q,
    decreases q - i,
{
    lemma_kind_type(m[q], m[0]);
    if i < q && python_type(m[i]) == python_type(m[0]) {
        lemma_other_before(m, i + 1, q);
    }
}

/// Ids of different kinds have different type names.
proof fn lemma_kind_type(a: Model, b: Model)
    ensures
        kind_of(a) != kind_of(b) ==> python_type(a) != python_type(b),
{
    reveal_strlit("str");
    reveal_strlit("int");
    reveal_strlit("bool");
    reveal_strlit("NoneType");
    assert("str"@[0] != "int"@[0]);
    assert("str"@ != "int"@);
    assert("str"@.len() != "bool"@.len() && "str"@.len() != "NoneType"@.len());
    assert("int"@.len() != "bool"@.len() && "int"@.len() != "NoneType"@.len());
    assert("bool"@.len() != "NoneType"@.len());
    match a {
        Model::Text(_) => {},
        Model::Integer(_) => {},
        Model::Bool(_) => {},
        Model::NonFinite(_) => {},
        _ => {},
    }
    match b {
        Model::Text(_) => {},
        Model::Integer(_) => {},
        Model::Bool(_) => {},
        Model::NonFinite(_) => {},
        _ => {},
    }
}

fn kind_exec(v: &Value) -> (r: u8)
    ensures
        r == kind_of(v@),
{
    match v {
        Value::Text(_) => 0,
        Value::Integer(_) | Value::Bool(_) | Value::NonFinite(_) => 1,
        _ => 2,
    }
}

fn type_exec(v: &Value) -> (r: Vec<char>)
    ensures
        r@ == python_type(v@),
{
    match v {
        Value::Text(_) => chars_of("str"),
        Value::Integer(_) | Value::NonFinite(_) => chars_of("int"),
        Value::Bool(_) => chars_of("bool"),
        _ => chars_of("NoneType"),
    }
}

fn same_chars(a: &Vec<char>, b: &Vec<char>) -> (r: bool)
    ensures
        r == (a@ == b@),
{
    crate::text::same(a, b)
}

/// A profile laid over the nodes.
pub struct Profiled {
    /// Each node with its topic path, in the nodes' order.
    pub topics: Vec<(String, Vec<String>)>,
    /// The profile's orientation (an empty mapping where it declares none).
    pub orientation: Value,
    /// The ids it names that no node answers to, sorted.
    pub unmatched: Vec<Value>,
    pub opening_depth: u64,
    pub description: String,
}

pub open spec fn profiled_view(p: Profiled) -> ProfiledModel {
    ProfiledModel {
        topics: record_view(p.topics@),
        orientation: p.orientation@,
        unmatched: models(p.unmatched@),
        opening_depth: p.opening_depth,
        description: p.description@,
    }
}

/// Lays a declared navigation profile over the nodes (the graph's node ids,
/// in order): `None` for an empty profile, else each node's topic, the
/// orientation, the opening depth and the ids no node answers to; or the
/// first refusal.
pub fn apply_profile(nodes: &Vec<String>, profile: &Value) -> (r: Result<Option<Profiled>, Error>)
    ensures
        match r {
            Ok(Some(p)) => profile_spec(strings(nodes@), str_set(nodes@), profile@) == Ok::<Option<ProfiledModel>, Seq<char>>(
                Some(profiled_view(p)),
            ),
            Ok(None) => profile_spec(strings(nodes@), str_set(nodes@), profile@) == Ok::<Option<ProfiledModel>, Seq<char>>(None),
            Err(e) => profile_spec(strings(nodes@), str_set(nodes@), profile@) == Err::<Option<ProfiledModel>, Seq<char>>(e.0@),
        },
{
    if let Value::Mapping(es) = profile {
        if es.len() == 0 {
            proof {
                crate::value::lemma_entries(es@);
            }
            return Ok(None);
        }
        proof {
            crate::value::lemma_entries(es@);
        }
    }
    let gs = match field(profile, "groups") {
        Some(Value::Mapping(gs)) => gs,
        _ => return Err(Error(string_of(&chars_of("profile must contain declared groups")))),
    };
    let a = match profile_assignment(gs) {
        Ok(a) => a,
        Err(e) => return Err(e),
    };
    let orientation = match field(profile, "orientation") {
        Some(o) => copy(o),
        None => {
            let e = Value::Mapping(Vec::new());
            proof {
                crate::value::lemma_entries(Seq::<(String, Value)>::empty());
            }
            assert(e@ == Model::Mapping(Seq::empty()));
            e
        },
    };
    match orientation_checked(&orientation, nodes) {
        Ok(()) => {},
        Err(e) => return Err(e),
    }
    let d = match opening_depth(profile) {
        Ok(d) => d,
        Err(e) => return Err(e),
    };
    let mut u: Vec<Value> = Vec::new();
    let mut i: usize = 0;
    while i < a.unmatched.len()
        invariant
            0 <= i <= a.unmatched.len(),
            u@.len() == i,
            forall|q: int| 0 <= q < i ==> #[trigger] u@[q]@ == a.unmatched@[q]@,
        decreases a.unmatched.len() - i,
    {
        u.push(copy(&a.unmatched[i]));
        i = i + 1;
    }
    let st = strays_of(&a.assigned, nodes);
    let sorted_st = sort_ids(&st, 0);
    let ghost front = u@;
    assert(forall|q: int| 0 <= q < front.len() ==> #[trigger] front[q]@ == a.unmatched@[q]@);
    assert(front.len() == a.unmatched@.len());
    let mut j: usize = 0;
    while j < sorted_st.len()
        invariant
            0 <= j <= sorted_st.len(),
            u@.len() == front.len() + j,
            forall|q: int| 0 <= q < front.len() ==> #[trigger] u@[q] == front[q],
            forall|q: int| 0 <= q < front.len() ==> #[trigger] front[q]@ == a.unmatched@[q]@,
            front.len() == a.unmatched@.len(),
            forall|q: int| 0 <= q < j ==> #[trigger] u@[front.len() + q]@ == sorted_st@[q]@,
        decreases sorted_st.len() - j,
    {
        u.push(copy(&sorted_st[j]));
        j = j + 1;
    }
    proof {
        lemma_models(u@);
        lemma_models(a.unmatched@);
        lemma_models(sorted_st@);
        assert forall|q: int| 0 <= q < u@.len() implies #[trigger] models(u@)[q] == (models(a.unmatched@) + models(sorted_st@))[q] by {
            let ua = models(a.unmatched@);
            let us = models(sorted_st@);
            assert(ua.len() == front.len());
            if q < front.len() {
                assert(u@[q] == front[q]);
                assert(models(u@)[q] == u@[q]@);
                assert(ua[q] == a.unmatched@[q]@);
                assert((ua + us)[q] == ua[q]);
            } else {
                assert(u@[front.len() + (q - front.len())]@ == sorted_st@[q - front.len()]@);
                assert(models(u@)[q] == u@[q]@);
                assert(us[q - front.len()] == sorted_st@[q - front.len()]@);
                assert((ua + us)[q] == us[q - ua.len()]);
            }
        }
        assert(models(u@) =~= models(a.unmatched@) + models(sorted_st@));
    }
    let un = match sort_unmatched(&u) {
        Ok(v) => v,
        Err(e) => return Err(e),
    };
    let ts = topics(nodes, &a.assigned);
    let description = match field(profile, "description") {
        Some(Value::Text(t)) => string_of(&chars_of(t.as_str())),
        _ => string_of(&chars_of("Declared navigation.")),
    };
    Ok(Some(Profiled { topics: ts, orientation, unmatched: un, opening_depth: d, description }))
}

/// Whether every character of `s` is a decimal digit.
pub open spec fn all_digits(s: Seq<char>) -> bool {
    forall|i: int| 0 <= i < s.len() ==> '0' <= #[trigger] s[i] <= '9'
}

/// An integer written in decimals: an optional `-` and one or more digits.
pub open spec fn decimal_text(t: Seq<char>) -> bool {
    if t.len() > 0 && t[0] == '-' {
        t.len() > 1 && all_digits(t.skip(1))
    } else {
        t.len() > 0 && all_digits(t)
    }
}

/// The number a decimal integer text writes.
pub open spec fn int_value(t: Seq<char>) -> int {
    if t.len() > 0 && t[0] == '-' {
        -(crate::pointer::digits_value(t.skip(1)) as int)
    } else {
        crate::pointer::digits_value(t) as int
    }
}

pub open spec fn ten(n: nat) -> nat
    decreases n,
{
    if n == 0 {
        1
    } else {
        10 * ten((n - 1) as nat)
    }
}

proof fn lemma_ten_grows(a: nat, b: nat)
    requires
        a <= b,
    ensures
        ten(a) <= ten(b),
        ten(a) >= 1,
    decreases b,
{
    if b > a {
        lemma_ten_grows(a, (b - 1) as nat);
    } else if a > 0 {
        lemma_ten_grows((a - 1) as nat, (a - 1) as nat);
    }
}

proof fn lemma_digits_below(s: Seq<char>)
    requires
        all_digits(s),
    ensures
        crate::pointer::digits_value(s) < ten(s.len()),
    decreases s.len(),
{
    if s.len() > 0 {
        assert(all_digits(s.drop_last()));
        lemma_digits_below(s.drop_last());
        assert('0' <= s.last() <= '9');
    }
}

/// A digit string's value is its first digit's worth plus the rest's.
proof fn lemma_digits_front(s: Seq<char>)
    requires
        all_digits(s),
        s.len() > 0,
    ensures
        crate::pointer::digits_value(s) == (s[0] as nat - '0' as nat) * ten((s.len() - 1) as nat) + crate::pointer::digits_value(
            s.skip(1),
        ),
    decreases s.len(),
{
    if s.len() > 1 {
        let d = s.drop_last();
        assert(all_digits(d));
        lemma_digits_front(d);
        assert(d.skip(1) =~= s.skip(1).drop_last());
        assert(s.skip(1).last() == s.last());
        assert(d[0] == s[0]);
        assert('0' <= s[s.len() - 1] <= '9');
        let last = (s.last() as nat - '0' as nat) as nat;
        assert(crate::pointer::digits_value(s) == 10 * crate::pointer::digits_value(d) + last);
        assert(crate::pointer::digits_value(s.skip(1)) == 10 * crate::pointer::digits_value(s.skip(1).drop_last()) + last);
        assert(ten((s.len() - 1) as nat) == 10 * ten((s.len() - 2) as nat));
        let f = (s[0] as nat - '0' as nat) as int;
        let t = ten((s.len() - 2) as nat) as int;
        assert(10 * (f * t) == f * (10 * t)) by (nonlinear_arith);
        let r = crate::pointer::digits_value(d.skip(1)) as int;
        assert(crate::pointer::digits_value(d) == f * t + r);
        assert(crate::pointer::digits_value(s) == 10 * (f * t + r) + last);
        assert(crate::pointer::digits_value(s) == f * (10 * t) + (10 * r + last));
        assert(crate::pointer::digits_value(s) == f * ten((s.len() - 1) as nat) + crate::pointer::digits_value(s.skip(1)));
    } else {
        assert(s.skip(1) =~= Seq::<char>::empty());
        assert(s.drop_last() =~= Seq::<char>::empty());
        assert('0' <= s[0] <= '9');
        assert(crate::pointer::digits_value(s.drop_last()) == 0);
        assert(ten(0) == 1);
        assert(crate::pointer::digits_value(s) == (s[0] as nat - '0' as nat));
    }
}

/// A digit string that does not start with `0` is worth at least its
/// lowest number of as many digits.
proof fn lemma_digits_above(s: Seq<char>)
    requires
        all_digits(s),
        s.len() > 0,
        s[0] != '0',
    ensures
        crate::pointer::digits_value(s) >= ten((s.len() - 1) as nat),
{
    lemma_digits_front(s);
    let f = (s[0] as nat - '0' as nat) as int;
    let t = ten((s.len() - 1) as nat) as int;
    assert(f >= 1);
    assert(t >= 0);
    assert(f * t >= t) by (nonlinear_arith)
        requires
            f >= 1,
            t >= 0,
    ;
}

proof fn lemma_strip_value(s: Seq<char>)
    requires
        all_digits(s),
    ensures
        all_digits(strip_zeros(s)),
        crate::pointer::digits_value(strip_zeros(s)) == crate::pointer::digits_value(s),
        strip_zeros(s).len() == 0 || strip_zeros(s)[0] != '0',
    decreases s.len(),
{
    if s.len() > 0 && s[0] == '0' {
        assert(all_digits(s.skip(1)));
        lemma_strip_value(s.skip(1));
        lemma_digits_front(s);
    }
}

/// Of two digit strings as long as each other, the one first in character
/// order is the smaller number.
proof fn lemma_digits_order(a: Seq<char>, b: Seq<char>)
    requires
        all_digits(a),
        all_digits(b),
        a.len() == b.len(),
    ensures
        seq_lt(a, b) <==> crate::pointer::digits_value(a) < crate::pointer::digits_value(b),
    decreases a.len(),
{
    if a.len() > 0 {
        assert(all_digits(a.skip(1)) && all_digits(b.skip(1)));
        assert(a.drop_first() =~= a.skip(1));
        assert(b.drop_first() =~= b.skip(1));
        lemma_digits_order(a.skip(1), b.skip(1));
        lemma_digits_front(a);
        lemma_digits_front(b);
        lemma_digits_below(a.skip(1));
        lemma_digits_below(b.skip(1));
        let t = ten((a.len() - 1) as nat) as int;
        let x = (a[0] as nat - '0' as nat) as int;
        let y = (b[0] as nat - '0' as nat) as int;
        let ra = crate::pointer::digits_value(a.skip(1)) as int;
        let rb = crate::pointer::digits_value(b.skip(1)) as int;
        if x < y {
            assert(x * t + ra < y * t + rb) by (nonlinear_arith)
                requires
                    x < y,
                    0 <= ra < t,
                    0 <= rb,
                    x >= 0,
            ;
        } else if y < x {
            assert(y * t + rb < x * t + ra) by (nonlinear_arith)
                requires
                    y < x,
                    0 <= rb < t,
                    0 <= ra,
                    y >= 0,
            ;
        } else {
            assert(a[0] == b[0]);
        }
    } else {
        assert(a =~= b);
    }
}

proof fn lemma_magnitude_order(a: Seq<char>, b: Seq<char>)
    requires
        all_digits(a),
        all_digits(b),
        a.len() == 0 || a[0] != '0',
        b.len() == 0 || b[0] != '0',
    ensures
        magnitude_lt(a, b) <==> crate::pointer::digits_value(a) < crate::pointer::digits_value(b),
{
    lemma_digits_below(a);
    lemma_digits_below(b);
    if a.len() < b.len() {
        lemma_digits_above(b);
        lemma_ten_grows(a.len(), (b.len() - 1) as nat);
    } else if b.len() < a.len() {
        lemma_digits_above(a);
        lemma_ten_grows(b.len(), (a.len() - 1) as nat);
    } else {
        lemma_digits_order(a, b);
    }
}

/// Integer texts are ordered as the numbers they write: for decimal
/// integers, `int_before` is the order of their values.
pub proof fn lemma_int_before_is_numeric(a: Seq<char>, b: Seq<char>)
    requires
        decimal_text(a),
        decimal_text(b),
    ensures
        int_before(a, b) <==> int_value(a) < int_value(b),
{
    let da = if a[0] == '-' {
        a.skip(1)
    } else {
        a
    };
    let db = if b[0] == '-' {
        b.skip(1)
    } else {
        b
    };
    assert(all_digits(da)) by {
        if a[0] == '-' {
            assert(all_digits(a.skip(1)));
        }
    }
    assert(all_digits(db)) by {
        if b[0] == '-' {
            assert(all_digits(b.skip(1)));
        }
    }
    assert(magnitude(a) == strip_zeros(da));
    assert(magnitude(b) == strip_zeros(db));
    lemma_strip_value(da);
    lemma_strip_value(db);
    if magnitude(a).len() > 0 {
        lemma_digits_above(magnitude(a));
        lemma_ten_grows(0, (magnitude(a).len() - 1) as nat);
    }
    if magnitude(b).len() > 0 {
        lemma_digits_above(magnitude(b));
        lemma_ten_grows(0, (magnitude(b).len() - 1) as nat);
    }
    lemma_magnitude_order(magnitude(a), magnitude(b));
    lemma_magnitude_order(magnitude(b), magnitude(a));
    if magnitude(a).len() == 0 {
        assert(crate::pointer::digits_value(magnitude(a)) == 0);
    }
    if magnitude(b).len() == 0 {
        assert(crate::pointer::digits_value(magnitude(b)) == 0);
    }
}

} // verus!
