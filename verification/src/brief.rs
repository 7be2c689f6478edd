//! What a brief says of an entry: its sections (its own and its tabs'), the
//! names a value lists, and the ids a text cites in `{{ ... }}`.
use vstd::prelude::*;
use crate::python::{py, py_str};
use crate::fields::{dotted_end, lemma_dotted_end};
use crate::text::{chars_of, spec_is_whitespace, string_of};
use crate::value::{Model, Value, copy, entries, field, field_of, lemma_entries, lemma_models, model, models};

verus! {

broadcast use vstd::std_specs::vec::group_vec_axioms;

/// Where the run of whitespace from `i` ends.
pub open spec fn ws_end(s: Seq<char>, i: int) -> int
    decreases s.len() - i,
{
    if 0 <= i < s.len() && spec_is_whitespace(s[i]) {
        ws_end(s, i + 1)
    } else {
        i
    }
}

pub proof fn lemma_ws_end(s: Seq<char>, i: int)
    requires
        0 <= i <= s.len(),
    ensures
        i <= ws_end(s, i) <= s.len(),
    decreases s.len() - i,
{
    if i < s.len() && spec_is_whitespace(s[i]) {
        lemma_ws_end(s, i + 1);
    }
}

/// The citation that starts at `i`, if one does: `{{`, whitespace, a dotted
/// name, whitespace and `}}`; where the name starts and ends, and where the
/// citation ends.
pub open spec fn cite_at(s: Seq<char>, i: int) -> Option<(int, int, int)> {
    if 0 <= i && i + 1 < s.len() && s[i] == '{' && s[i + 1] == '{' {
        let a = ws_end(s, i + 2);
        match dotted_end(s, a) {
            Some(b) => {
                let c = ws_end(s, b);
                if 0 <= c && c + 1 < s.len() && s[c] == '}' && s[c + 1] == '}' {
                    Some((a, b, c + 2))
                } else {
                    None
                }
            },
            None => None,
        }
    } else {
        None
    }
}

pub proof fn lemma_cite_at(s: Seq<char>, i: int)
    requires
        0 <= i < s.len(),
        cite_at(s, i) is Some,
    ensures
        match cite_at(s, i) {
            Some((a, b, e)) => i < e <= s.len(),
            None => false,
        },
{
    lemma_ws_end(s, i + 2);
    let a = ws_end(s, i + 2);
    lemma_dotted_end(s, a);
    lemma_ws_end(s, dotted_end(s, a)->0);
}

/// The ids cited from position `i` on, left to right.
pub open spec fn cited_from(s: Seq<char>, i: int) -> Seq<Seq<char>>
    decreases s.len() - i,
{
    if i < 0 || i >= s.len() {
        Seq::empty()
    } else {
        match cite_at(s, i) {
            Some((a, b, e)) => {
                proof {
                    lemma_cite_at(s, i);
                }
                seq![s.subrange(a, b)] + cited_from(s, e)
            },
            None => cited_from(s, i + 1),
        }
    }
}

/// The ids a text cites as `{{ id }}`, in order: the names captured by the
/// leftmost matches of `\{\{\s*(dotted name)\s*\}\}`, left to right.
#[verifier::opaque]
pub open spec fn cited_ids(text: Seq<char>) -> Seq<Seq<char>> {
    cited_from(text, 0)
}

/// `regex::Regex::captures_iter` with the citation pattern
/// `{{ id }}` (an id being dotted names): the ids of the citations in
/// order, as `cited_ids` states them.
#[verifier::external_body]
fn find_cited(text: &str) -> (r: Vec<Vec<char>>)
    ensures
        r@.len() == cited_ids(text@).len(),
        forall|i: int| 0 <= i < r@.len() ==> #[trigger] r@[i]@ == cited_ids(text@)[i],
{
    let pattern = regex::Regex::new(r"\{\{\s*([A-Za-z_][A-Za-z0-9_]*(?:\.[A-Za-z0-9_]+)+)\s*\}\}").unwrap();
    pattern.captures_iter(text).map(|c| c[1].chars().collect()).collect()
}

/// A text that cites `id`.
pub open spec fn cites(value: Model, id: Seq<char>) -> bool {
    match value {
        Model::Text(t) => cited_ids(t).contains(id),
        _ => false,
    }
}

/// Whether a value is a text that cites `id` as `{{ id }}`.
pub fn template_refs(value: &Value, id: &str) -> (r: bool)
    ensures
        r == cites(value@, id@),
{
    match value {
        Value::Text(t) => {
            let found = find_cited(t.as_str());
            let mut i: usize = 0;
            while i < found.len()
                invariant
                    0 <= i <= found.len(),
                    value@ == Model::Text(t@),
                    found@.len() == cited_ids(t@).len(),
                    forall|q: int| 0 <= q < found@.len() ==> #[trigger] found@[q]@ == cited_ids(t@)[q],
                    forall|q: int| 0 <= q < i ==> cited_ids(t@)[q] != id@,
                decreases found.len() - i,
            {
                if crate::text::same(&found[i], &chars_of(id)) {
                    assert(cited_ids(t@)[i as int] == id@);
                    assert(cited_ids(t@).contains(id@));
                    return true;
                }
                i = i + 1;
            }
            proof {
                if cited_ids(t@).contains(id@) {
                    let q = choose|q: int| 0 <= q < cited_ids(t@).len() && cited_ids(t@)[q] == id@;
                    assert(cited_ids(t@)[q] != id@);
                }
            }
            false
        },
        _ => false,
    }
}

/// The mappings among some values, in order.
pub open spec fn map_items(xs: Seq<Model>) -> Seq<Model>
    decreases xs.len(),
{
    if xs.len() == 0 {
        Seq::empty()
    } else if xs.last() is Mapping {
        map_items(xs.drop_last()).push(xs.last())
    } else {
        map_items(xs.drop_last())
    }
}

/// The sections a list of sections holds: its mappings.
pub open spec fn listed_sections(v: Model) -> Seq<Model> {
    match v {
        Model::List(xs) => map_items(xs),
        _ => Seq::empty(),
    }
}

/// The sections of some tabs, tab by tab.
pub open spec fn tab_sections(tabs: Seq<Model>) -> Seq<Model>
    decreases tabs.len(),
{
    if tabs.len() == 0 {
        Seq::empty()
    } else {
        tab_sections(tabs.drop_last()) + listed_sections(field_of(tabs.last(), "sections"@))
    }
}

/// A brief's sections: its own, then those of each of its tabs.
pub open spec fn brief_sections(brief: Model) -> Seq<Model> {
    listed_sections(field_of(brief, "sections"@)) + match field_of(brief, "tabs"@) {
        Model::List(ts) => tab_sections(ts),
        _ => Seq::empty(),
    }
}

/// Appends the sections a list of sections holds.
fn push_sections(out: &mut Vec<Value>, v: Option<&Value>)
    ensures
        models(final(out)@) == models(old(out)@) + match v {
            Some(x) => listed_sections(x@),
            None => Seq::empty(),
        },
{
    proof {
        lemma_models(out@);
    }
    if let Some(Value::List(xs)) = v {
        let ghost start = models(out@);
        proof {
            lemma_models(xs@);
        }
        let mut i: usize = 0;
        while i < xs.len()
            invariant
                0 <= i <= xs.len(),
                models(xs@).len() == xs@.len(),
                forall|q: int| 0 <= q < xs@.len() ==> #[trigger] models(xs@)[q] == model(xs@[q]),
                models(out@) == start + map_items(models(xs@).take(i as int)),
            decreases xs.len() - i,
        {
            proof {
                let t = models(xs@).take(i + 1);
                assert(t.drop_last() =~= models(xs@).take(i as int));
                assert(t.last() == model(xs@[i as int]));
            }
            if let Value::Mapping(_) = &xs[i] {
                let ghost before = out@;
                out.push(copy(&xs[i]));
                proof {
                    lemma_models(out@);
                    lemma_models(before);
                    assert(models(out@) =~= models(before).push(model(xs@[i as int])));
                }
            }
            i = i + 1;
        }
        proof {
            assert(models(xs@).take(xs.len() as int) =~= models(xs@));
        }
    } else {
        proof {
            assert(models(out@) =~= models(out@) + Seq::<Model>::empty());
        }
    }
}

/// A brief's sections: its own, then those of each of its tabs.
pub fn sections(brief: &Value) -> (r: Vec<Value>)
    ensures
        models(r@) == brief_sections(brief@),
{
    let mut out: Vec<Value> = Vec::new();
    proof {
        lemma_models(out@);
        assert(models(out@) =~= Seq::<Model>::empty());
    }
    let own = field(brief, "sections");
    proof {
        if own is None {
            assert(field_of(brief@, "sections"@) == Model::Null);
        }
    }
    push_sections(&mut out, own);
    let ghost head = models(out@);
    match field(brief, "tabs") {
        Some(Value::List(tabs)) => {
            proof {
                lemma_models(tabs@);
            }
            let mut i: usize = 0;
            while i < tabs.len()
                invariant
                    0 <= i <= tabs.len(),
                    models(tabs@).len() == tabs@.len(),
                    forall|q: int| 0 <= q < tabs@.len() ==> #[trigger] models(tabs@)[q] == model(tabs@[q]),
                    models(out@) == head + tab_sections(models(tabs@).take(i as int)),
                decreases tabs.len() - i,
            {
                proof {
                    let t = models(tabs@).take(i + 1);
                    assert(t.drop_last() =~= models(tabs@).take(i as int));
                    assert(t.last() == model(tabs@[i as int]));
                }
                let given = field(&tabs[i], "sections");
                proof {
                    if given is None {
                        assert(field_of(model(tabs@[i as int]), "sections"@) == Model::Null);
                    }
                }
                let ghost before = models(out@);
                push_sections(&mut out, given);
                proof {
                    let t = models(tabs@).take(i + 1);
                    assert(tab_sections(t) == tab_sections(t.drop_last()) + listed_sections(field_of(t.last(), "sections"@)));
                    assert(models(out@) =~= head + tab_sections(t));
                }
                i = i + 1;
            }
            proof {
                assert(models(tabs@).take(tabs.len() as int) =~= models(tabs@));
            }
        },
        _ => {
            proof {
                assert(models(out@) =~= head + Seq::<Model>::empty());
            }
        },
    }
    out
}

/// The names a value offers: a list's items as Python writes them, a
/// mapping's keys, or each character of a text.
pub open spec fn iterable(m: Model) -> Seq<Seq<char>> {
    match m {
        Model::List(xs) => xs.map_values(|x: Model| py_str(x)),
        Model::Mapping(es) => es.map_values(|e: (Seq<char>, Model)| e.0),
        Model::Text(t) => t.map_values(|c: char| seq![c]),
        _ => Seq::empty(),
    }
}

/// The names a value offers: a list's items as Python writes them, a
/// mapping's keys, or each character of a text.
pub fn iterable_text(value: &Value) -> (r: Vec<String>)
    ensures
        crate::page::strings(r@) == iterable(value@),
{
    let mut out: Vec<String> = Vec::new();
    match value {
        Value::List(xs) => {
            proof {
                lemma_models(xs@);
            }
            let mut i: usize = 0;
            while i < xs.len()
                invariant
                    0 <= i <= xs.len(),
                    models(xs@).len() == xs@.len(),
                    forall|q: int| 0 <= q < xs@.len() ==> #[trigger] models(xs@)[q] == model(xs@[q]),
                    out@.len() == i,
                    forall|q: int| 0 <= q < i ==> #[trigger] out@[q]@ == py_str(models(xs@)[q]),
                decreases xs.len() - i,
            {
                out.push(string_of(&py(&xs[i])));
                i = i + 1;
            }
            proof {
                assert(crate::page::strings(out@) =~= iterable(value@));
            }
        },
        Value::Mapping(es) => {
            proof {
                lemma_entries(es@);
            }
            let mut i: usize = 0;
            while i < es.len()
                invariant
                    0 <= i <= es.len(),
                    entries(es@).len() == es@.len(),
                    forall|q: int| 0 <= q < es@.len() ==> #[trigger] entries(es@)[q] == (es@[q].0@, model(es@[q].1)),
                    out@.len() == i,
                    forall|q: int| 0 <= q < i ==> #[trigger] out@[q]@ == entries(es@)[q].0,
                decreases es.len() - i,
            {
                assert(entries(es@)[i as int].0 == es@[i as int].0@);
                out.push(es[i].0.clone());
                i = i + 1;
            }
            proof {
                assert(crate::page::strings(out@) =~= iterable(value@));
            }
        },
        Value::Text(t) => {
            let cs = chars_of(t.as_str());
            let mut i: usize = 0;
            while i < cs.len()
                invariant
                    0 <= i <= cs.len(),
                    cs@ == t@,
                    out@.len() == i,
                    forall|q: int| 0 <= q < i ==> #[trigger] out@[q]@ == seq![cs@[q]],
                decreases cs.len() - i,
            {
                let one = vec![cs[i]];
                let piece = string_of(&one);
                assert(piece@ =~= seq![cs@[i as int]]);
                out.push(piece);
                i = i + 1;
            }
            proof {
                assert(crate::page::strings(out@) =~= iterable(value@));
            }
        },
        _ => {
            proof {
                assert(crate::page::strings(out@) =~= iterable(value@));
            }
        },
    }
    out
}

} // verus!
