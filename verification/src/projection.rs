//! What a page counts of a record's intents: which entries record each
//! intent, and which intents a tab earns by picking what records them.
use vstd::prelude::*;
use crate::page::{body, body_of, deps, deps_spec, holds_string, readable_node, str_set, strings};
use crate::text::{chars_of, string_of};
use crate::value::{Model, Value, copy_entries, entries, field_of, get, lookup};

verus! {

broadcast use vstd::std_specs::vec::group_vec_axioms;

/// Whether entry `id` records intent `intent`: it reads from the intent, or
/// it is a judgment that rests on it.
pub open spec fn records_intent(
    nodes: Seq<(Seq<char>, Model)>,
    id: Seq<char>,
    intent: Seq<char>,
    judgments: Set<Seq<char>>,
    dep: Seq<char>,
) -> bool {
    match body_of(nodes, id) {
        Some(b) => field_of(b, "from"@) == Model::Text(intent) || (judgments.contains(id) && deps_spec(b, dep).contains(
            intent,
        )),
        None => false,
    }
}

/// The ids, in order, that record the intent.
pub open spec fn recorded_spec(
    ids: Seq<Seq<char>>,
    nodes: Seq<(Seq<char>, Model)>,
    intent: Seq<char>,
    judgments: Set<Seq<char>>,
    dep: Seq<char>,
) -> Seq<Seq<char>>
    decreases ids.len(),
{
    if ids.len() == 0 {
        Seq::empty()
    } else {
        let p = recorded_spec(ids.drop_last(), nodes, intent, judgments, dep);
        if records_intent(nodes, ids.last(), intent, judgments, dep) {
            p.push(ids.last())
        } else {
            p
        }
    }
}

/// The ids, in the page's order, whose entries record `intent`.
pub fn recorded_for(
    intent: &str,
    ids: &Vec<String>,
    judgments: &Vec<String>,
    nodes: &Vec<(String, Value)>,
    dep: &str,
) -> (r: Vec<String>)
    requires
        forall|i: int| 0 <= i < ids@.len() ==> readable_node(entries(nodes@), #[trigger] ids@[i]@),
    ensures
        strings(r@) == recorded_spec(strings(ids@), entries(nodes@), intent@, str_set(judgments@), dep@),
{
    let ghost iv = strings(ids@);
    let mut out: Vec<String> = Vec::new();
    let mut i: usize = 0;
    while i < ids.len()
        invariant
            0 <= i <= ids.len(),
            iv == strings(ids@),
            forall|q: int| 0 <= q < ids@.len() ==> readable_node(entries(nodes@), #[trigger] ids@[q]@),
            strings(out@) == recorded_spec(iv.take(i as int), entries(nodes@), intent@, str_set(judgments@), dep@),
        decreases ids.len() - i,
    {
        assert(readable_node(entries(nodes@), ids@[i as int]@));
        let hit = match body(nodes, ids[i].as_str()) {
            Some(b) => {
                proof {
                    crate::value::lemma_entries(b@);
                }
                let from_intent = match get(b, "from") {
                    Some(Value::Text(t)) => crate::value::text_is(t, intent),
                    _ => false,
                };
                if from_intent {
                    true
                } else if holds_string(judgments, &chars_of(ids[i].as_str())) {
                    let whole = Value::Mapping(copy_entries(b));
                    let ds = deps(&whole, dep);
                    let found = holds_string(&ds, &chars_of(intent));
                    proof {
                        let dv = deps_spec(whole@, dep@);
                        if found {
                            let q = choose|q: int| 0 <= q < ds@.len() && #[trigger] ds@[q]@ == intent@;
                            assert(dv[q] == intent@);
                        }
                        if dv.contains(intent@) {
                            let q = choose|q: int| 0 <= q < dv.len() && dv[q] == intent@;
                            assert(ds@[q]@ == intent@);
                        }
                    }
                    found
                } else {
                    false
                }
            },
            None => false,
        };
        proof {
            assert(iv.take(i + 1).drop_last() =~= iv.take(i as int));
            assert(iv.take(i + 1).last() == ids@[i as int]@);
        }
        if hit {
            let ghost before = out@;
            out.push(string_of(&chars_of(ids[i].as_str())));
            proof {
                assert(strings(out@) =~= strings(before).push(ids@[i as int]@));
            }
        }
        i = i + 1;
    }
    assert(iv.take(ids.len() as int) =~= iv);
    out
}

/// Whether a tab earns an intent: some entry that records it is among what
/// the tab picks.
pub open spec fn earns(recorded: Option<Seq<Seq<char>>>, picked: Set<Seq<char>>) -> bool {
    match recorded {
        Some(rs) => exists|i: int| 0 <= i < rs.len() && picked.contains(#[trigger] rs[i]),
        None => false,
    }
}

pub open spec fn record_view(rs: Seq<(String, Vec<String>)>) -> Seq<(Seq<char>, Seq<Seq<char>>)> {
    rs.map_values(|p: (String, Vec<String>)| (p.0@, strings(p.1@)))
}

/// The intents a tab serves that it earns, in the order it names them.
pub open spec fn earned_spec(
    serves: Seq<Seq<char>>,
    recorded: Seq<(Seq<char>, Seq<Seq<char>>)>,
    picked: Set<Seq<char>>,
) -> Seq<Seq<char>>
    decreases serves.len(),
{
    if serves.len() == 0 {
        Seq::empty()
    } else {
        let p = earned_spec(serves.drop_last(), recorded, picked);
        if earns(lookup(recorded, serves.last()), picked) {
            p.push(serves.last())
        } else {
            p
        }
    }
}

pub(crate) fn record_of<'a>(recorded: &'a Vec<(String, Vec<String>)>, k: &str) -> (r: Option<&'a Vec<String>>)
    ensures
        match r {
            Some(v) => lookup(record_view(recorded@), k@) == Some(strings(v@)),
            None => lookup(record_view(recorded@), k@) is None,
        },
{
    let ghost rv = record_view(recorded@);
    let mut i: usize = 0;
    while i < recorded.len()
        invariant
            0 <= i <= recorded.len(),
            rv == record_view(recorded@),
            rv.len() == recorded@.len(),
            forall|j: int| 0 <= j < i ==> #[trigger] rv[j].0 != k@,
        decreases recorded.len() - i,
    {
        assert(rv[i as int] == (recorded@[i as int].0@, strings(recorded@[i as int].1@)));
        if crate::value::text_is(&recorded[i].0, k) {
            proof {
                crate::value::lemma_key_index(rv, k@, i as int);
            }
            return Some(&recorded[i].1);
        }
        i = i + 1;
    }
    proof {
        crate::value::lemma_no_key(rv, k@);
    }
    None
}

/// The intents a tab serves and earns: those that some entry picked by the
/// tab records.
pub fn earned(serves: &Vec<String>, recorded: &Vec<(String, Vec<String>)>, picked: &Vec<String>) -> (r: Vec<String>)
    ensures
        strings(r@) == earned_spec(strings(serves@), record_view(recorded@), str_set(picked@)),
{
    let ghost sv = strings(serves@);
    let ghost rv = record_view(recorded@);
    let mut out: Vec<String> = Vec::new();
    let mut i: usize = 0;
    while i < serves.len()
        invariant
            0 <= i <= serves.len(),
            sv == strings(serves@),
            rv == record_view(recorded@),
            strings(out@) == earned_spec(sv.take(i as int), rv, str_set(picked@)),
        decreases serves.len() - i,
    {
        let hit = match record_of(recorded, serves[i].as_str()) {
            Some(rs) => {
                let ghost want = strings(rs@);
                let mut found = false;
                let mut k: usize = 0;
                while k < rs.len()
                    invariant
                        0 <= k <= rs.len(),
                        found == exists|q: int| 0 <= q < k && str_set(picked@).contains(#[trigger] strings(rs@)[q]),
                    decreases rs.len() - k,
                {
                    if holds_string(picked, &chars_of(rs[k].as_str())) {
                        found = true;
                    }
                    proof {
                        assert(strings(rs@)[k as int] == rs@[k as int]@);
                    }
                    k = k + 1;
                }
                proof {
                    let ps = str_set(picked@);
                    assert(want.len() == rs@.len());
                    assert(earns(Some(want), ps) == exists|q: int| 0 <= q < want.len() && ps.contains(#[trigger] want[q]));
                    if found {
                        let q = choose|q: int| 0 <= q < rs@.len() && ps.contains(#[trigger] strings(rs@)[q]);
                        assert(ps.contains(want[q]));
                        assert(earns(Some(want), ps));
                    }
                    if earns(Some(want), ps) {
                        let q = choose|q: int| 0 <= q < want.len() && ps.contains(#[trigger] want[q]);
                        assert(ps.contains(strings(rs@)[q]));
                        assert(found);
                    }
                }
                found
            },
            None => false,
        };
        proof {
            assert(sv.take(i + 1).drop_last() =~= sv.take(i as int));
            assert(sv.take(i + 1).last() == serves@[i as int]@);
            assert(sv[i as int] == serves@[i as int]@);
            assert(hit == earns(lookup(rv, sv[i as int]), str_set(picked@)));
        }
        if hit {
            let ghost before = out@;
            out.push(string_of(&chars_of(serves[i].as_str())));
            proof {
                assert(strings(out@) =~= strings(before).push(serves@[i as int]@));
            }
        }
        i = i + 1;
    }
    assert(sv.take(serves.len() as int) =~= sv);
    out
}

} // verus!
