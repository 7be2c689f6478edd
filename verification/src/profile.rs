//! A declared navigation profile laid over a session graph: the topic path
//! each group names, the topic an undeclared node falls under, and the checks
//! on the profile's orientation and opening depth.
use vstd::prelude::*;
use crate::page::{holds_string, str_set, strings};
use crate::text::{append, chars_of, split, split_on, string_of};
use crate::value::{Error, Model, Value, field, field_of, lemma_models, models};

verus! {

broadcast use vstd::std_specs::vec::group_vec_axioms;

/// The topic path a profile group names: its `/`-separated parts, none of
/// which may be empty.
pub open spec fn profile_path_spec(path: Seq<char>) -> Result<Seq<Seq<char>>, Seq<char>> {
    let parts = split(path, '/');
    if path.len() == 0 || exists|i: int| 0 <= i < parts.len() && (#[trigger] parts[i]).len() == 0 {
        Err("invalid profile path"@)
    } else {
        Ok(parts)
    }
}

pub fn profile_path(path: &str) -> (r: Result<Vec<String>, Error>)
    ensures
        match r {
            Ok(ps) => profile_path_spec(path@) == Ok::<Seq<Seq<char>>, Seq<char>>(strings(ps@)),
            Err(e) => profile_path_spec(path@) == Err::<Seq<Seq<char>>, Seq<char>>(e.0@),
        },
{
    let cs = chars_of(path);
    let parts = split_on(&cs, '/');
    let ghost sp = split(path@, '/');
    let mut out: Vec<String> = Vec::new();
    let mut i: usize = 0;
    while i < parts.len()
        invariant
            0 <= i <= parts.len(),
            cs@ == path@,
            sp == split(path@, '/'),
            parts@.len() == sp.len(),
            forall|q: int| 0 <= q < parts@.len() ==> #[trigger] parts@[q]@ == sp[q],
            out@.len() == i,
            forall|q: int| 0 <= q < i ==> #[trigger] out@[q]@ == sp[q] && sp[q].len() > 0,
        decreases parts.len() - i,
    {
        if parts[i].len() == 0 || cs.len() == 0 {
            return Err(Error(string_of(&chars_of("invalid profile path"))));
        }
        out.push(string_of(&parts[i]));
        i = i + 1;
    }
    if cs.len() == 0 {
        return Err(Error(string_of(&chars_of("invalid profile path"))));
    }
    proof {
        assert(strings(out@) =~= sp);
        assert forall|q: int| 0 <= q < sp.len() implies (#[trigger] sp[q]).len() != 0 by {
            assert(out@[q]@ == sp[q]);
        }
    }
    Ok(out)
}

/// The topic of a node no group names: `catalog`, then the parts of its id
/// before the last.
pub open spec fn default_topic_spec(id: Seq<char>) -> Seq<Seq<char>> {
    let parts = split(id, '.');
    seq!["catalog"@] + parts.take(parts.len() - 1)
}

pub fn default_topic(id: &str) -> (r: Vec<String>)
    ensures
        strings(r@) == default_topic_spec(id@),
{
    let parts = split_on(&chars_of(id), '.');
    proof {
        crate::text::lemma_split_nonempty(id@, '.');
    }
    let ghost sp = split(id@, '.');
    let mut out: Vec<String> = Vec::new();
    out.push(string_of(&chars_of("catalog")));
    let mut i: usize = 0;
    while i + 1 < parts.len()
        invariant
            0 <= i < parts.len(),
            parts@.len() == sp.len(),
            forall|q: int| 0 <= q < parts@.len() ==> #[trigger] parts@[q]@ == sp[q],
            out@.len() == i + 1,
            out@[0]@ == "catalog"@,
            forall|q: int| 0 <= q < i ==> #[trigger] out@[q + 1]@ == sp[q],
        decreases parts.len() - i,
    {
        out.push(string_of(&parts[i]));
        i = i + 1;
    }
    proof {
        let want = default_topic_spec(id@);
        assert(strings(out@) =~= want) by {
            assert forall|q: int| 0 <= q < want.len() implies #[trigger] strings(out@)[q] == want[q] by {
                if q > 0 {
                    assert(out@[(q - 1) + 1]@ == sp[q - 1]);
                }
            }
        }
    }
    out
}

/// Whether a value is an empty mapping.
pub open spec fn empty_mapping(m: Model) -> bool {
    m matches Model::Mapping(es) && es.len() == 0
}

/// The first item of a basis that is not an id (a text), if any.
pub open spec fn first_not_text(xs: Seq<Model>, n: nat) -> Option<int>
    decreases n,
{
    if n == 0 {
        None
    } else {
        match first_not_text(xs, (n - 1) as nat) {
            Some(i) => Some(i),
            None => if xs[n - 1] is Text {
                None
            } else {
                Some(n - 1)
            },
        }
    }
}

/// What a profile's orientation must be: empty, or a non-empty text and a
/// non-empty basis of ids, each a node of the graph; the first item of the
/// basis that fails decides the refusal.
pub open spec fn basis_check(xs: Seq<Model>, nodes: Set<Seq<char>>, n: nat) -> Result<(), Seq<char>>
    decreases n,
{
    if n == 0 {
        Ok(())
    } else {
        match basis_check(xs, nodes, (n - 1) as nat) {
            Err(e) => Err(e),
            Ok(()) => match xs[n - 1] {
                Model::Text(id) => if nodes.contains(id) {
                    Ok(())
                } else {
                    Err("orientation basis missing: "@ + id)
                },
                _ => Err("orientation basis must list IDs"@),
            },
        }
    }
}

pub open spec fn orientation_spec(orientation: Model, nodes: Set<Seq<char>>) -> Result<(), Seq<char>> {
    if empty_mapping(orientation) {
        Ok(())
    } else {
        let text = field_of(orientation, "text"@);
        let basis = field_of(orientation, "basis"@);
        if !(text matches Model::Text(t) && t.len() > 0) || !(basis matches Model::List(xs) && xs.len() > 0) {
            Err("orientation needs text and basis"@)
        } else {
            basis_check(basis->List_0, nodes, basis->List_0.len())
        }
    }
}

/// The checks on a profile's orientation against the graph's node ids.
pub fn orientation_checked(orientation: &Value, nodes: &Vec<String>) -> (r: Result<(), Error>)
    ensures
        match r {
            Ok(()) => orientation_spec(orientation@, str_set(nodes@)) == Ok::<(), Seq<char>>(()),
            Err(e) => orientation_spec(orientation@, str_set(nodes@)) == Err::<(), Seq<char>>(e.0@),
        },
{
    match orientation {
        Value::Mapping(es) => {
            if es.len() == 0 {
                return Ok(());
            }
        },
        _ => {},
    }
    let text_ok = match field(orientation, "text") {
        Some(Value::Text(t)) => t.as_str().unicode_len() > 0,
        _ => false,
    };
    let xs = match field(orientation, "basis") {
        Some(Value::List(xs)) => xs,
        _ => return Err(Error(string_of(&chars_of("orientation needs text and basis")))),
    };
    if !text_ok || xs.len() == 0 {
        return Err(Error(string_of(&chars_of("orientation needs text and basis"))));
    }
    proof {
        lemma_models(xs@);
    }
    let ghost ms = models(xs@);
    let ghost ns = str_set(nodes@);
    proof {
        match orientation@ {
            Model::Mapping(es) => {},
            _ => {},
        }
        assert(field_of(orientation@, "basis"@) == Model::List(ms));
        assert(!empty_mapping(orientation@));
    }
    assert(orientation_spec(orientation@, ns) == basis_check(ms, ns, ms.len()));
    let mut i: usize = 0;
    while i < xs.len()
        invariant
            0 <= i <= xs.len(),
            orientation_spec(orientation@, ns) == basis_check(ms, ns, ms.len()),
            ms == models(xs@),
            ms.len() == xs@.len(),
            forall|q: int| 0 <= q < xs@.len() ==> #[trigger] ms[q] == crate::value::model(xs@[q]),
            ns == str_set(nodes@),
            basis_check(ms, ns, i as nat) == Ok::<(), Seq<char>>(()),
        decreases xs.len() - i,
    {
        assert(ms[i as int] == crate::value::model(xs@[i as int]));
        match &xs[i] {
            Value::Text(id) => {
                if !holds_string(nodes, &chars_of(id.as_str())) {
                    let mut m = chars_of("orientation basis missing: ");
                    append(&mut m, &chars_of(id.as_str()));
                    assert(basis_check(ms, ns, (i + 1) as nat) == Err::<(), Seq<char>>(m@));
                    proof {
                        lemma_basis_rest(ms, ns, (i + 1) as nat, xs@.len() as nat, m@);
                    }
                    return Err(Error(string_of(&m)));
                }
            },
            _ => {
                let m = chars_of("orientation basis must list IDs");
                proof {
                    lemma_basis_rest(ms, ns, (i + 1) as nat, xs@.len() as nat, m@);
                }
                return Err(Error(string_of(&m)));
            },
        }
        i = i + 1;
    }
    Ok(())
}

proof fn lemma_basis_rest(xs: Seq<Model>, nodes: Set<Seq<char>>, k: nat, n: nat, e: Seq<char>)
    requires
        k <= n,
        basis_check(xs, nodes, k) == Err::<(), Seq<char>>(e),
    ensures
        basis_check(xs, nodes, n) == Err::<(), Seq<char>>(e),
    decreases n - k,
{
    if k < n {
        lemma_basis_rest(xs, nodes, k, (n - 1) as nat, e);
    }
}

/// A profile's opening depth: 1 where it names none, else an integer from 1
/// to 8.
pub open spec fn depth_spec(depth: Option<Model>) -> Result<u64, Seq<char>> {
    match depth {
        None => Ok(1),
        Some(Model::Integer(t)) => if t.len() == 1 && '1' <= t[0] <= '8' {
            Ok((t[0] as u64 - '0' as u64) as u64)
        } else {
            Err("opening_depth must be 1..8"@)
        },
        Some(_) => Err("opening_depth must be 1..8"@),
    }
}

pub fn opening_depth(profile: &Value) -> (r: Result<u64, Error>)
    ensures
        match r {
            Ok(d) => depth_spec(crate::value::lookup(crate::value::map_entries(profile@), "opening_depth"@)) == Ok::<u64, Seq<char>>(d),
            Err(e) => depth_spec(crate::value::lookup(crate::value::map_entries(profile@), "opening_depth"@)) == Err::<u64, Seq<char>>(e.0@),
        },
{
    match field(profile, "opening_depth") {
        None => Ok(1),
        Some(Value::Integer(t)) => {
            let cs = chars_of(t.as_str());
            if cs.len() == 1 && '1' <= cs[0] && cs[0] <= '8' {
                let d: u64 = if cs[0] == '1' {
                    1
                } else if cs[0] == '2' {
                    2
                } else if cs[0] == '3' {
                    3
                } else if cs[0] == '4' {
                    4
                } else if cs[0] == '5' {
                    5
                } else if cs[0] == '6' {
                    6
                } else if cs[0] == '7' {
                    7
                } else {
                    8
                };
                Ok(d)
            } else {
                Err(Error(string_of(&chars_of("opening_depth must be 1..8"))))
            }
        },
        Some(_) => Err(Error(string_of(&chars_of("opening_depth must be 1..8")))),
    }
}

/// The topic path of each node: the one a group assigns it, else its
/// default topic.
pub open spec fn topics_spec(
    nodes: Seq<Seq<char>>,
    assigned: Seq<(Seq<char>, Seq<Seq<char>>)>,
) -> Seq<(Seq<char>, Seq<Seq<char>>)> {
    Seq::new(
        nodes.len(),
        |i: int|
            (
                nodes[i],
                match crate::value::lookup(assigned, nodes[i]) {
                    Some(p) => p,
                    None => default_topic_spec(nodes[i]),
                },
            ),
    )
}

pub fn topics(nodes: &Vec<String>, assigned: &Vec<(String, Vec<String>)>) -> (r: Vec<(String, Vec<String>)>)
    ensures
        crate::projection::record_view(r@) == topics_spec(strings(nodes@), crate::projection::record_view(assigned@)),
{
    let mut out: Vec<(String, Vec<String>)> = Vec::new();
    let mut i: usize = 0;
    while i < nodes.len()
        invariant
            0 <= i <= nodes.len(),
            out@.len() == i,
            forall|q: int|
                0 <= q < i ==> (#[trigger] out@[q]).0@ == nodes@[q]@ && strings(out@[q].1@) == match crate::value::lookup(
                    crate::projection::record_view(assigned@),
                    nodes@[q]@,
                ) {
                    Some(p) => p,
                    None => default_topic_spec(nodes@[q]@),
                },
        decreases nodes.len() - i,
    {
        let path = match crate::projection::record_of(assigned, nodes[i].as_str()) {
            Some(p) => {
                let mut c: Vec<String> = Vec::new();
                let mut k: usize = 0;
                while k < p.len()
                    invariant
                        0 <= k <= p.len(),
                        c@.len() == k,
                        forall|q: int| 0 <= q < k ==> #[trigger] c@[q]@ == p@[q]@,
                    decreases p.len() - k,
                {
                    c.push(string_of(&chars_of(p[k].as_str())));
                    k = k + 1;
                }
                assert(strings(c@) =~= strings(p@));
                c
            },
            None => default_topic(nodes[i].as_str()),
        };
        out.push((string_of(&chars_of(nodes[i].as_str())), path));
        i = i + 1;
    }
    proof {
        let want = topics_spec(strings(nodes@), crate::projection::record_view(assigned@));
        assert(crate::projection::record_view(out@) =~= want) by {
            assert forall|q: int| 0 <= q < want.len() implies #[trigger] crate::projection::record_view(out@)[q] == want[q] by {
                assert(strings(nodes@)[q] == nodes@[q]@);
            }
        }
    }
    out
}

/// Python's `==` on the scalar ids a profile lists: texts, nulls and
/// booleans by value, integers by their decimal text, a boolean equal to the
/// integer 1 or 0 it stands for, and the infinities each equal to itself
/// (NaN equals nothing).
pub open spec fn scalar_eq(a: Model, b: Model) -> bool {
    match (a, b) {
        (Model::Text(x), Model::Text(y)) => x == y,
        (Model::Null, Model::Null) => true,
        (Model::Bool(x), Model::Bool(y)) => x == y,
        (Model::Integer(x), Model::Integer(y)) => x == y,
        (Model::Bool(x), Model::Integer(y)) => y == (if x {
            "1"@
        } else {
            "0"@
        }),
        (Model::Integer(x), Model::Bool(y)) => x == (if y {
            "1"@
        } else {
            "0"@
        }),
        (Model::NonFinite(x), Model::NonFinite(y)) => x == y && x != crate::value::NonFinite::NaN,
        _ => false,
    }
}

/// What a profile's groups have assigned so far: each text id with its topic
/// path, every id listed, and the ids that are not texts.
pub struct Assigned {
    pub assigned: Seq<(Seq<char>, Seq<Seq<char>>)>,
    pub values: Seq<Model>,
    pub unmatched: Seq<Model>,
}

/// One id of a group with topic path `parts`.
pub open spec fn assign_id(st: Assigned, parts: Seq<Seq<char>>, id: Model) -> Result<Assigned, Seq<char>> {
    if id is List {
        Err("unhashable type: 'list'"@)
    } else if id is Mapping {
        Err("unhashable type: 'dict'"@)
    } else if exists|i: int| 0 <= i < st.values.len() && scalar_eq(#[trigger] st.values[i], id) {
        Err("profile assigns an ID more than once"@)
    } else {
        match id {
            Model::Text(t) => Ok(Assigned { assigned: st.assigned.push((t, parts)), values: st.values.push(id), ..st }),
            _ => Ok(Assigned { values: st.values.push(id), unmatched: st.unmatched.push(id), ..st }),
        }
    }
}

pub open spec fn assign_ids(st: Assigned, parts: Seq<Seq<char>>, ids: Seq<Model>) -> Result<Assigned, Seq<char>>
    decreases ids.len(),
{
    if ids.len() == 0 {
        Ok(st)
    } else {
        match assign_ids(st, parts, ids.drop_last()) {
            Err(e) => Err(e),
            Ok(s) => assign_id(s, parts, ids.last()),
        }
    }
}

/// A profile's groups read in order: each group's path must be a topic path
/// and its ids a list, and no id may be listed twice.
pub open spec fn assign_groups(groups: Seq<(Seq<char>, Model)>) -> Result<Assigned, Seq<char>>
    decreases groups.len(),
{
    if groups.len() == 0 {
        Ok(Assigned { assigned: Seq::empty(), values: Seq::empty(), unmatched: Seq::empty() })
    } else {
        match assign_groups(groups.drop_last()) {
            Err(e) => Err(e),
            Ok(st) => {
                let (path, ids) = groups.last();
                match profile_path_spec(path) {
                    Err(e) => Err(e),
                    Ok(parts) => match ids {
                        Model::List(xs) => assign_ids(st, parts, xs),
                        _ => Err("profile group must list IDs"@),
                    },
                }
            },
        }
    }
}

fn scalar_eq_exec(a: &Value, b: &Value) -> (r: bool)
    ensures
        r == scalar_eq(a@, b@),
{
    match (a, b) {
        (Value::Text(x), Value::Text(y)) => crate::text::same(&chars_of(x.as_str()), &chars_of(y.as_str())),
        (Value::Null, Value::Null) => true,
        (Value::Bool(x), Value::Bool(y)) => *x == *y,
        (Value::Integer(x), Value::Integer(y)) => crate::text::same(&chars_of(x.as_str()), &chars_of(y.as_str())),
        (Value::Bool(x), Value::Integer(y)) => crate::value::text_is(y, if *x {
            "1"
        } else {
            "0"
        }),
        (Value::Integer(x), Value::Bool(y)) => crate::value::text_is(x, if *y {
            "1"
        } else {
            "0"
        }),
        (Value::NonFinite(x), Value::NonFinite(y)) => match (x, y) {
            (crate::value::NonFinite::Infinity, crate::value::NonFinite::Infinity) => true,
            (crate::value::NonFinite::NegInfinity, crate::value::NonFinite::NegInfinity) => true,
            _ => false,
        },
        _ => false,
    }
}

/// The ids a profile's groups assign.
#[derive(Debug)]
pub struct Assignment {
    /// Each text id, once, with its topic path, in the order listed.
    pub assigned: Vec<(String, Vec<String>)>,
    /// Every id listed, in order.
    pub values: Vec<Value>,
    /// The ids that are not texts, in order.
    pub unmatched: Vec<Value>,
}

pub open spec fn assignment_view(a: Assignment) -> Assigned {
    Assigned {
        assigned: crate::projection::record_view(a.assigned@),
        values: crate::value::models(a.values@),
        unmatched: crate::value::models(a.unmatched@),
    }
}

fn copy_path(parts: &Vec<String>) -> (r: Vec<String>)
    ensures
        strings(r@) == strings(parts@),
{
    let mut out: Vec<String> = Vec::new();
    let mut j: usize = 0;
    while j < parts.len()
        invariant
            0 <= j <= parts.len(),
            out@.len() == j,
            forall|q: int| 0 <= q < j ==> #[trigger] out@[q]@ == parts@[q]@,
        decreases parts.len() - j,
    {
        out.push(string_of(&chars_of(parts[j].as_str())));
        j = j + 1;
    }
    assert(strings(out@) =~= strings(parts@));
    out
}

/// Whether `id` equals, as Python compares ids, one already listed.
fn listed_before(values: &Vec<Value>, id: &Value) -> (r: bool)
    ensures
        r == (exists|i: int| 0 <= i < models(values@).len() && scalar_eq(#[trigger] models(values@)[i], id@)),
{
    proof {
        lemma_models(values@);
    }
    let mut k: usize = 0;
    while k < values.len()
        invariant
            0 <= k <= values.len(),
            models(values@).len() == values@.len(),
            forall|q: int| 0 <= q < values@.len() ==> #[trigger] models(values@)[q] == crate::value::model(values@[q]),
            forall|q: int| 0 <= q < k ==> !scalar_eq(#[trigger] models(values@)[q], id@),
        decreases values.len() - k,
    {
        if scalar_eq_exec(&values[k], id) {
            assert(scalar_eq(models(values@)[k as int], id@));
            return true;
        }
        k = k + 1;
    }
    false
}

/// Adds one id of a group with topic path `parts`.
fn assign_one(acc: &mut Assignment, parts: &Vec<String>, id: &Value) -> (r: Result<(), Error>)
    ensures
        match r {
            Ok(_) => assign_id(assignment_view(*old(acc)), strings(parts@), id@) == Ok::<Assigned, Seq<char>>(assignment_view(*final(acc))),
            Err(e) => assign_id(assignment_view(*old(acc)), strings(parts@), id@) == Err::<Assigned, Seq<char>>(e.0@),
        },
{
    match id {
        Value::List(_) => return Err(Error(string_of(&chars_of("unhashable type: 'list'")))),
        Value::Mapping(_) => return Err(Error(string_of(&chars_of("unhashable type: 'dict'")))),
        _ => {},
    }
    if listed_before(&acc.values, id) {
        return Err(Error(string_of(&chars_of("profile assigns an ID more than once"))));
    }
    let ghost bv = acc.values@;
    let ghost bu = acc.unmatched@;
    let ghost ba = acc.assigned@;
    let copy = crate::value::copy(id);
    match id {
        Value::Text(t) => {
            let ps = copy_path(parts);
            acc.assigned.push((string_of(&chars_of(t.as_str())), ps));
            acc.values.push(copy);
            proof {
                lemma_models(acc.values@);
                lemma_models(bv);
                assert(models(acc.values@) =~= models(bv).push(id@));
                assert(crate::projection::record_view(acc.assigned@) =~= crate::projection::record_view(ba).push((t@, strings(parts@))));
            }
        },
        _ => {
            acc.values.push(copy);
            acc.unmatched.push(crate::value::copy(id));
            proof {
                lemma_models(acc.values@);
                lemma_models(bv);
                lemma_models(acc.unmatched@);
                lemma_models(bu);
                assert(models(acc.values@) =~= models(bv).push(id@));
                assert(models(acc.unmatched@) =~= models(bu).push(id@));
            }
        },
    }
    Ok(())
}

/// Adds the ids of one group, in order, stopping at the first refused.
fn assign_list(acc: &mut Assignment, parts: &Vec<String>, xs: &Vec<Value>) -> (r: Result<(), Error>)
    ensures
        match r {
            Ok(_) => assign_ids(assignment_view(*old(acc)), strings(parts@), models(xs@)) == Ok::<Assigned, Seq<char>>(assignment_view(*final(acc))),
            Err(e) => assign_ids(assignment_view(*old(acc)), strings(parts@), models(xs@)) == Err::<Assigned, Seq<char>>(e.0@),
        },
{
    let ghost st0 = assignment_view(*acc);
    let ghost pv = strings(parts@);
    let ghost ms = models(xs@);
    proof {
        lemma_models(xs@);
        assert(ms.take(0) =~= Seq::<Model>::empty());
    }
    let mut i: usize = 0;
    while i < xs.len()
        invariant
            0 <= i <= xs.len(),
            ms == models(xs@),
            ms.len() == xs@.len(),
            forall|q: int| 0 <= q < xs@.len() ==> #[trigger] ms[q] == crate::value::model(xs@[q]),
            pv == strings(parts@),
            st0 == assignment_view(*old(acc)),
            assign_ids(st0, pv, ms.take(i as int)) == Ok::<Assigned, Seq<char>>(assignment_view(*acc)),
        decreases xs.len() - i,
    {
        proof {
            assert(ms.take(i + 1).drop_last() =~= ms.take(i as int));
            assert(ms.take(i + 1).last() == ms[i as int]);
        }
        match assign_one(acc, parts, &xs[i]) {
            Ok(_) => {},
            Err(e) => {
                proof {
                    assert(ms.take(xs@.len() as int) =~= ms);
                    lemma_assign_ids_err(st0, pv, ms, (i + 1) as int, e.0@);
                }
                return Err(e);
            },
        }
        i = i + 1;
    }
    assert(ms.take(xs.len() as int) =~= ms);
    Ok(())
}

/// Once a prefix of the ids is refused, so is the whole list, with the same
/// error.
proof fn lemma_assign_ids_err(st: Assigned, parts: Seq<Seq<char>>, ids: Seq<Model>, n: int, e: Seq<char>)
    requires
        0 <= n <= ids.len(),
        assign_ids(st, parts, ids.take(n)) == Err::<Assigned, Seq<char>>(e),
    ensures
        assign_ids(st, parts, ids) == Err::<Assigned, Seq<char>>(e),
    decreases ids.len() - n,
{
    if n < ids.len() {
        assert(ids.take(n + 1).drop_last() =~= ids.take(n));
        lemma_assign_ids_err(st, parts, ids, n + 1, e);
    } else {
        assert(ids.take(n) =~= ids);
    }
}

/// Once a prefix of the groups is refused, so are all of them, with the same
/// error.
proof fn lemma_assign_groups_err(groups: Seq<(Seq<char>, Model)>, n: int, e: Seq<char>)
    requires
        0 <= n <= groups.len(),
        assign_groups(groups.take(n)) == Err::<Assigned, Seq<char>>(e),
    ensures
        assign_groups(groups) == Err::<Assigned, Seq<char>>(e),
    decreases groups.len() - n,
{
    if n < groups.len() {
        assert(groups.take(n + 1).drop_last() =~= groups.take(n));
        lemma_assign_groups_err(groups, n + 1, e);
    } else {
        assert(groups.take(n) =~= groups);
    }
}

/// Reads a profile's declared groups (a mapping of topic paths to lists of
/// ids): which id goes under which topic, and which ids are not texts.
pub fn profile_assignment(groups: &Vec<(String, Value)>) -> (r: Result<Assignment, Error>)
    ensures
        match r {
            Ok(a) => assign_groups(crate::value::entries(groups@)) == Ok::<Assigned, Seq<char>>(assignment_view(a)),
            Err(e) => assign_groups(crate::value::entries(groups@)) == Err::<Assigned, Seq<char>>(e.0@),
        },
{
    let ghost gs = crate::value::entries(groups@);
    proof {
        crate::value::lemma_entries(groups@);
    }
    let mut acc = Assignment { assigned: Vec::new(), values: Vec::new(), unmatched: Vec::new() };
    proof {
        lemma_models(acc.values@);
        lemma_models(acc.unmatched@);
        assert(crate::projection::record_view(acc.assigned@) =~= Seq::<(Seq<char>, Seq<Seq<char>>)>::empty());
        assert(models(acc.values@) =~= Seq::<Model>::empty());
        assert(models(acc.unmatched@) =~= Seq::<Model>::empty());
        assert(gs.take(0) =~= Seq::<(Seq<char>, Model)>::empty());
    }
    let mut g: usize = 0;
    while g < groups.len()
        invariant
            0 <= g <= groups.len(),
            gs == crate::value::entries(groups@),
            gs.len() == groups@.len(),
            forall|q: int| 0 <= q < groups@.len() ==> #[trigger] gs[q] == (groups@[q].0@, crate::value::model(groups@[q].1)),
            assign_groups(gs.take(g as int)) == Ok::<Assigned, Seq<char>>(assignment_view(acc)),
        decreases groups.len() - g,
    {
        proof {
            assert(gs.take(g + 1).drop_last() =~= gs.take(g as int));
            assert(gs.take(g + 1).last() == gs[g as int]);
        }
        let parts = match profile_path(groups[g].0.as_str()) {
            Ok(p) => p,
            Err(e) => {
                proof {
                    lemma_assign_groups_err(gs, g + 1, e.0@);
                }
                return Err(e);
            },
        };
        let xs = match &groups[g].1 {
            Value::List(xs) => xs,
            _ => {
                let e = Error(string_of(&chars_of("profile group must list IDs")));
                proof {
                    lemma_assign_groups_err(gs, g + 1, e.0@);
                }
                return Err(e);
            },
        };
        match assign_list(&mut acc, &parts, xs) {
            Ok(_) => {},
            Err(e) => {
                proof {
                    lemma_assign_groups_err(gs, g + 1, e.0@);
                }
                return Err(e);
            },
        }
        g = g + 1;
    }
    assert(gs.take(groups.len() as int) =~= gs);
    Ok(acc)
}

/// No two ids of `values` are equal as Python compares them, the earlier
/// one on the left.
pub open spec fn listed_once(values: Seq<Model>) -> bool {
    forall|i: int, j: int| 0 <= i < j < values.len() ==> !scalar_eq(#[trigger] values[i], #[trigger] values[j])
}

proof fn lemma_assign_ids_once(st: Assigned, parts: Seq<Seq<char>>, ids: Seq<Model>)
    requires
        listed_once(st.values),
        assign_ids(st, parts, ids) is Ok,
    ensures
        listed_once(assign_ids(st, parts, ids)->Ok_0.values),
    decreases ids.len(),
{
    if ids.len() > 0 {
        lemma_assign_ids_once(st, parts, ids.drop_last());
        let s = assign_ids(st, parts, ids.drop_last())->Ok_0;
        let id = ids.last();
        let v2 = assign_id(s, parts, id)->Ok_0.values;
        assert(v2 == s.values.push(id));
        assert forall|i: int, j: int| 0 <= i < j < v2.len() implies !scalar_eq(#[trigger] v2[i], #[trigger] v2[j]) by {
            if j == v2.len() - 1 {
                assert(v2[i] == s.values[i]);
            } else {
                assert(v2[i] == s.values[i] && v2[j] == s.values[j]);
            }
        }
    }
}

/// A profile whose groups are read without error assigns no id twice: no
/// two ids it lists are equal as Python compares them.
pub proof fn lemma_profile_assigns_once(groups: Seq<(Seq<char>, Model)>)
    requires
        assign_groups(groups) is Ok,
    ensures
        listed_once(assign_groups(groups)->Ok_0.values),
    decreases groups.len(),
{
    if groups.len() == 0 {
        assert(listed_once(Seq::<Model>::empty()));
    } else {
        lemma_profile_assigns_once(groups.drop_last());
        let st = assign_groups(groups.drop_last())->Ok_0;
        let (path, ids) = groups.last();
        let parts = profile_path_spec(path)->Ok_0;
        lemma_assign_ids_once(st, parts, ids->List_0);
    }
}

} // verus!
