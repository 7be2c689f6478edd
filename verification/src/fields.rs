//! Field roles of an ordinary record: which field of an entry names what it
//! rests on, which holds its snapshot and which its predicate.
use vstd::prelude::*;
use crate::tally::{add_name, bump, count_in, counter, holds_name, inc, name_set, sorted_names, tally_wf};
use crate::text::{char_views, chars_of, has_prefix, same, string_of};
use crate::value::{
    Error, Model, Value, copy, copy_entries, copy_string, entries, field, field_of, lemma_entries,
    map_entries, model, string_is, text_is,
};

verus! {

broadcast use vstd::std_specs::vec::group_vec_axioms;

/// A character of an identifier: an ASCII letter or digit, or `_`.
pub open spec fn word_char(c: char) -> bool {
    ('a' <= c && c <= 'z') || ('A' <= c && c <= 'Z') || ('0' <= c && c <= '9') || c == '_'
}

/// A character an identifier may begin with: an ASCII letter or `_`.
pub open spec fn head_char(c: char) -> bool {
    ('a' <= c && c <= 'z') || ('A' <= c && c <= 'Z') || c == '_'
}

/// Where the run of identifier characters from `i` ends.
pub open spec fn run_end(s: Seq<char>, i: int) -> int
    decreases s.len() - i,
{
    if 0 <= i < s.len() && word_char(s[i]) {
        run_end(s, i + 1)
    } else {
        i
    }
}

pub proof fn lemma_run_end(s: Seq<char>, i: int)
    requires
        0 <= i <= s.len(),
    ensures
        i <= run_end(s, i) <= s.len(),
    decreases s.len() - i,
{
    if i < s.len() && word_char(s[i]) {
        lemma_run_end(s, i + 1);
    }
}

/// Where the `.segment`s that follow position `e` end: each a dot and a
/// non-empty run of identifier characters, as many as follow.
pub open spec fn segments_end(s: Seq<char>, e: int) -> int
    decreases s.len() - e,
{
    if 0 <= e && e + 1 < s.len() && s[e] == '.' && word_char(s[e + 1]) {
        proof {
            lemma_run_end(s, e + 1);
        }
        segments_end(s, run_end(s, e + 1))
    } else {
        e
    }
}

pub proof fn lemma_segments_end(s: Seq<char>, e: int)
    requires
        0 <= e <= s.len(),
    ensures
        e <= segments_end(s, e) <= s.len(),
    decreases s.len() - e,
{
    if e + 1 < s.len() && s[e] == '.' && word_char(s[e + 1]) {
        lemma_run_end(s, e + 1);
        lemma_segments_end(s, run_end(s, e + 1));
    }
}

/// Where the dotted name that starts at `i` ends, if one does: an identifier
/// followed by one or more `.segment`s, each run as long as it goes.
pub open spec fn dotted_end(s: Seq<char>, i: int) -> Option<int> {
    if 0 <= i < s.len() && head_char(s[i]) {
        let e = run_end(s, i + 1);
        if e + 1 < s.len() && s[e] == '.' && word_char(s[e + 1]) {
            Some(segments_end(s, e))
        } else {
            None
        }
    } else {
        None
    }
}

pub proof fn lemma_dotted_end(s: Seq<char>, i: int)
    requires
        0 <= i < s.len(),
        dotted_end(s, i) is Some,
    ensures
        i < dotted_end(s, i)->0 <= s.len(),
{
    lemma_run_end(s, i + 1);
    lemma_segments_end(s, run_end(s, i + 1));
}

/// The dotted names from position `i` on, left to right: the leftmost one
/// that starts at or after `i`, then those after it.
pub open spec fn dotted_from(s: Seq<char>, i: int) -> Seq<Seq<char>>
    decreases s.len() - i,
{
    if i < 0 || i >= s.len() {
        Seq::empty()
    } else {
        match dotted_end(s, i) {
            Some(e) => {
                proof {
                    lemma_dotted_end(s, i);
                }
                seq![s.subrange(i, e)] + dotted_from(s, e)
            },
            None => dotted_from(s, i + 1),
        }
    }
}

/// The names that a text mentions as dotted identifiers, in order: the
/// matches of `[A-Za-z_][A-Za-z0-9_]*(?:\.[A-Za-z0-9_]+)+`, left to right,
/// each as long as it goes.
#[verifier::opaque]
pub open spec fn dotted_names(text: Seq<char>) -> Seq<Seq<char>> {
    dotted_from(text, 0)
}

/// Whether a text reads as an expression: it holds one of `<>=!+-*/()`, or
/// the word `or`, `and` or `not` standing alone.
pub uninterp spec fn reads_as_expression(text: Seq<char>) -> bool;

/// `regex::Regex::find_iter` with the dotted-identifier pattern: the matches'
/// texts in order, as `dotted_names` states them (leftmost matches, each as
/// long as the pattern's greedy runs make it).
#[verifier::external_body]
fn find_dotted_names(text: &str) -> (r: Vec<Vec<char>>)
    ensures
        r@.len() == dotted_names(text@).len(),
        forall|i: int| 0 <= i < r@.len() ==> #[trigger] r@[i]@ == dotted_names(text@)[i],
{
    let pattern = regex::Regex::new(r"[A-Za-z_][A-Za-z0-9_]*(?:\.[A-Za-z0-9_]+)+").unwrap();
    pattern.find_iter(text).map(|m| m.as_str().chars().collect()).collect()
}

/// One of the operator characters `<>=!+-*/()`.
pub open spec fn operator_char(c: char) -> bool {
    c == '<' || c == '>' || c == '=' || c == '!' || c == '+' || c == '-' || c == '*' || c == '/' || c == '('
        || c == ')'
}

/// Whether a text holds an operator character.
pub open spec fn holds_operator(t: Seq<char>) -> bool {
    exists|i: int| 0 <= i < t.len() && operator_char(#[trigger] t[i])
}

/// A letter, digit or underscore, among ASCII characters.
pub open spec fn ascii_word_char(c: char) -> bool {
    ('a' <= c <= 'z') || ('A' <= c <= 'Z') || ('0' <= c <= '9') || c == '_'
}

/// Whether `w` stands in `t` at `i` with no word character on either side.
pub open spec fn word_at(t: Seq<char>, i: int, w: Seq<char>) -> bool {
    &&& 0 <= i && i + w.len() <= t.len()
    &&& t.subrange(i, i + w.len()) == w
    &&& (i == 0 || !ascii_word_char(t[i - 1]))
    &&& (i + w.len() == t.len() || !ascii_word_char(t[i + w.len()]))
}

/// Whether the word `or`, `and` or `not` stands alone in an ASCII text.
pub open spec fn holds_keyword(t: Seq<char>) -> bool {
    exists|i: int| #[trigger] word_at(t, i, "or"@) || word_at(t, i, "and"@) || word_at(t, i, "not"@)
}

pub open spec fn ascii_text(t: Seq<char>) -> bool {
    forall|i: int| 0 <= i < t.len() ==> (#[trigger] t[i] as u32) < 128
}

/// `regex::Regex::is_match` with the expression pattern, which the contract
/// names `reads_as_expression`. Any text holding an operator character
/// matches; on an ASCII text the pattern's letter and number classes are the
/// ASCII letters and digits, so there the match is stated in full. On other
/// texts the word boundaries rest on Unicode's letter and number classes,
/// which the name stands for.
#[verifier::external_body]
fn expression_like(text: &str) -> (r: bool)
    ensures
        r == reads_as_expression(text@),
        holds_operator(text@) ==> r,
        ascii_text(text@) ==> (r == (holds_operator(text@) || holds_keyword(text@))),
{
    let pattern = regex::Regex::new(
        r"[<>=!+\-*/()]|(?:^|[^\p{L}\p{N}_])(?:or|and|not)(?:$|[^\p{L}\p{N}_])",
    ).unwrap();
    pattern.is_match(text)
}

/// The counters the reader computes itself.
pub open spec fn builtin(n: Seq<char>) -> bool {
    n == "graph.entries"@ || n == "graph.judgments"@ || n == "graph.open"@ || n == "graph.flagged"@
        || n == "graph.blocked"@ || n == "graph.broken"@ || n == "graph.unchecked"@ || n
        == "graph.moved"@ || n == "graph.falsified"@ || n == "graph.no_predicate"@ || n
        == "graph.hypotheses"@ || n == "graph.contested"@ || n == "graph.prior_reversal_rate"@
        || n == "page.spill"@ || n == "page.unserved"@ || n == "page.drift"@ || n
        == "page.recent_unserved"@ || n == "page.covered"@
}

/// Whether a name is one of the reader's own counters.
pub fn is_builtin(n: &str) -> (r: bool)
    ensures
        r == builtin(n@),
{
    let c = chars_of(n);
    same(&c, &chars_of("graph.entries")) || same(&c, &chars_of("graph.judgments")) || same(
        &c,
        &chars_of("graph.open"),
    ) || same(&c, &chars_of("graph.flagged")) || same(&c, &chars_of("graph.blocked")) || same(
        &c,
        &chars_of("graph.broken"),
    ) || same(&c, &chars_of("graph.unchecked")) || same(&c, &chars_of("graph.moved")) || same(
        &c,
        &chars_of("graph.falsified"),
    ) || same(&c, &chars_of("graph.no_predicate")) || same(&c, &chars_of("graph.hypotheses"))
        || same(&c, &chars_of("graph.contested")) || same(&c, &chars_of("graph.prior_reversal_rate"))
        || same(&c, &chars_of("page.spill")) || same(&c, &chars_of("page.unserved")) || same(
        &c,
        &chars_of("page.drift"),
    ) || same(&c, &chars_of("page.recent_unserved")) || same(&c, &chars_of("page.covered"))
}

/// Top-level keys that are never collections.
pub open spec fn reserved(k: Seq<char>) -> bool {
    k == "meta"@ || k == "schema"@ || k == "record"@ || k == "also"@
}

pub fn is_reserved(k: &String) -> (r: bool)
    ensures
        r == reserved(k@),
{
    text_is(k, "meta") || text_is(k, "schema") || text_is(k, "record") || text_is(k, "also")
}

/// Whether the record declares the `core/v1` reasoning profile.
pub open spec fn core_profile(doc: Model) -> bool {
    field_of(field_of(field_of(doc, "meta"@), "reasoning"@), "profile"@) == Model::Text("core/v1"@)
}

pub fn is_core(document: &Value) -> (r: bool)
    ensures
        r == core_profile(document@),
{
    match field(document, "meta") {
        Some(meta) => match field(meta, "reasoning") {
            Some(reasoning) => match field(reasoning, "profile") {
                Some(profile) => string_is(profile, "core/v1"),
                None => false,
            },
            None => false,
        },
        None => false,
    }
}

/// A non-empty mapping whose members are not lists (unless under `core/v1`).
pub open spec fn collection_body(v: Model, core: bool) -> bool {
    &&& v is Mapping
    &&& map_entries(v).len() > 0
    &&& forall|j: int|
        0 <= j < map_entries(v).len() ==> core || (#[trigger] map_entries(v)[j]).1 !is List
}

/// The collections among a record's top-level entries, in order.
pub open spec fn colls(es: Seq<(Seq<char>, Model)>, core: bool) -> Seq<(Seq<char>, Seq<(Seq<char>, Model)>)>
    decreases es.len(),
{
    if es.len() == 0 {
        Seq::empty()
    } else {
        let prev = colls(es.drop_last(), core);
        let k = es.last().0;
        let v = es.last().1;
        if !reserved(k) && collection_body(v, core) {
            prev.push((k, map_entries(v)))
        } else {
            prev
        }
    }
}

/// The collections of a record, or None for a record that is not a mapping.
pub open spec fn collections_of(doc: Model) -> Option<Seq<(Seq<char>, Seq<(Seq<char>, Model)>)>> {
    match doc {
        Model::Mapping(es) => Some(colls(es, core_profile(doc))),
        _ => None,
    }
}

/// The reading of collections as kept by `collections`.
pub open spec fn coll_view(c: Seq<(String, Vec<(String, Value)>)>) -> Seq<(Seq<char>, Seq<(Seq<char>, Model)>)> {
    c.map_values(|p: (String, Vec<(String, Value)>)| (p.0@, entries(p.1@)))
}

pub fn error(code: &str) -> (e: Error)
    ensures
        e.0@ == code@,
{
    Error(string_of(&chars_of(code)))
}

/// The collections of a record: every top-level mapping other than `meta`,
/// `schema`, `record` and `also` that is non-empty and whose members are not
/// lists (a `core/v1` record's members may be lists), in the record's order.
pub fn collections(document: &Value) -> (r: Result<Vec<(String, Vec<(String, Value)>)>, Error>)
    ensures
        match r {
            Ok(c) => collections_of(document@) == Some(coll_view(c@)),
            Err(e) => collections_of(document@) is None && e.0@ == "expected_mapping"@,
        },
{
    let core = is_core(document);
    match document {
        Value::Mapping(doc) => {
            proof {
                lemma_entries(doc@);
            }
            let ghost es = entries(doc@);
            let mut out: Vec<(String, Vec<(String, Value)>)> = Vec::new();
            let mut i: usize = 0;
            while i < doc.len()
                invariant
                    0 <= i <= doc.len(),
                    es == entries(doc@),
                    es.len() == doc@.len(),
                    forall|j: int| 0 <= j < doc@.len() ==> #[trigger] es[j] == (doc@[j].0@, model(doc@[j].1)),
                    coll_view(out@) == colls(es.take(i as int), core),
                decreases doc.len() - i,
            {
                proof {
                    assert(es.take(i + 1).drop_last() =~= es.take(i as int));
                }
                let ghost before = out@;
                if !is_reserved(&doc[i].0) {
                    if let Value::Mapping(members) = &doc[i].1 {
                        proof {
                            lemma_entries(members@);
                        }
                        if members.len() > 0 {
                            let mut fine = true;
                            let mut j: usize = 0;
                            while j < members.len()
                                invariant
                                    0 <= j <= members.len(),
                                    entries(members@).len() == members@.len(),
                                    forall|q: int| 0 <= q < members@.len() ==> #[trigger] entries(members@)[q] == (members@[q].0@, model(members@[q].1)),
                                    fine == forall|q: int| 0 <= q < j ==> core || (#[trigger] entries(members@)[q]).1 !is List,
                                decreases members.len() - j,
                            {
                                let ghost was = fine;
                                if !core {
                                    if let Value::List(_) = &members[j].1 {
                                        fine = false;
                                    }
                                }
                                proof {
                                    assert(entries(members@)[j as int] == (members@[j as int].0@, model(members@[j as int].1)));
                                    if fine {
                                        assert forall|q: int| 0 <= q < j + 1 implies core || (#[trigger] entries(members@)[q]).1 !is List by {
                                            if q < j {
                                                assert(was);
                                            }
                                        }
                                    } else {
                                        if was {
                                            assert(!core && entries(members@)[j as int].1 is List);
                                        }
                                    }
                                }
                                j = j + 1;
                            }
                            if fine {
                                let k = copy_string(&doc[i].0);
                                let ms = copy_entries(members);
                                out.push((k, ms));
                                proof {
                                    assert(coll_view(out@) =~= coll_view(before).push((doc@[i as int].0@, entries(members@))));
                                }
                            }
                        }
                    }
                }
                i = i + 1;
            }
            assert(es.take(doc.len() as int) =~= es);
            Ok(out)
        },
        _ => Err(error("expected_mapping")),
    }
}

} // verus!

verus! {

/// The members of the collections, in order: each entry's id and body.
pub open spec fn flat(cs: Seq<(Seq<char>, Seq<(Seq<char>, Model)>)>) -> Seq<(Seq<char>, Model)>
    decreases cs.len(),
{
    if cs.len() == 0 {
        Seq::empty()
    } else {
        flat(cs.drop_last()) + cs.last().1
    }
}

/// One field of one member: its holder's id, the field, its value, and
/// whether the holder is a refuted hypothesis record (`v: refuted`).
pub type Use = (Seq<char>, Seq<char>, Model, bool);

pub open spec fn body_uses(holder: Seq<char>, fields: Seq<(Seq<char>, Model)>, refuted: bool) -> Seq<Use> {
    fields.map_values(|p: (Seq<char>, Model)| (holder, p.0, p.1, refuted))
}

/// Every field of every member that is a mapping, in order.
pub open spec fn uses(ms: Seq<(Seq<char>, Model)>) -> Seq<Use>
    decreases ms.len(),
{
    if ms.len() == 0 {
        Seq::empty()
    } else {
        uses(ms.drop_last()) + match ms.last().1 {
            Model::Mapping(fs) => body_uses(
                ms.last().0,
                fs,
                field_of(ms.last().1, "v"@) == Model::Text("refuted"@),
            ),
            _ => Seq::empty(),
        }
    }
}

pub open spec fn use_view(s: Seq<(String, String, Value, bool)>) -> Seq<Use> {
    s.map_values(|u: (String, String, Value, bool)| (u.0@, u.1@, u.2@, u.3))
}

/// The members of all collections, in order.
pub fn member_list(cs: &Vec<(String, Vec<(String, Value)>)>) -> (r: Vec<(String, Value)>)
    ensures
        entries(r@) == flat(coll_view(cs@)),
{
    let mut out: Vec<(String, Value)> = Vec::new();
    let mut i: usize = 0;
    while i < cs.len()
        invariant
            0 <= i <= cs.len(),
            entries(out@) == flat(coll_view(cs@.take(i as int))),
        decreases cs.len() - i,
    {
        proof {
            assert(coll_view(cs@.take(i + 1)).drop_last() =~= coll_view(cs@.take(i as int)));
            lemma_entries(cs@[i as int].1@);
        }
        let ghost start = out@;
        let members = &cs[i].1;
        let mut j: usize = 0;
        while j < members.len()
            invariant
                0 <= j <= members.len(),
                entries(out@) == entries(start) + entries(members@.take(j as int)),
            decreases members.len() - j,
        {
            let c = copy(&members[j].1);
            let k = copy_string(&members[j].0);
            let ghost before = out@;
            out.push((k, c));
            proof {
                assert(out@.drop_last() =~= before);
                assert(members@.take(j + 1).drop_last() =~= members@.take(j as int));
                assert(entries(start) + entries(members@.take(j + 1)) =~= (entries(start) + entries(members@.take(j as int))).push((members@[j as int].0@, model(members@[j as int].1))));
            }
            j = j + 1;
        }
        proof {
            assert(members@.take(members.len() as int) =~= members@);
            assert(coll_view(cs@.take(i + 1)).last() == (cs@[i as int].0@, entries(cs@[i as int].1@)));
        }
        i = i + 1;
    }
    proof {
        assert(cs@.take(cs.len() as int) =~= cs@);
    }
    out
}

/// Every field of every member that is a mapping, in order, with its holder.
pub fn field_uses(ms: &Vec<(String, Value)>) -> (r: Vec<(String, String, Value, bool)>)
    ensures
        use_view(r@) == uses(entries(ms@)),
{
    proof {
        lemma_entries(ms@);
    }
    let ghost es = entries(ms@);
    let mut out: Vec<(String, String, Value, bool)> = Vec::new();
    let mut i: usize = 0;
    while i < ms.len()
        invariant
            0 <= i <= ms.len(),
            es == entries(ms@),
            es.len() == ms@.len(),
            forall|q: int| 0 <= q < ms@.len() ==> #[trigger] es[q] == (ms@[q].0@, model(ms@[q].1)),
            use_view(out@) == uses(es.take(i as int)),
        decreases ms.len() - i,
    {
        proof {
            assert(es.take(i + 1).drop_last() =~= es.take(i as int));
        }
        let ghost start = out@;
        if let Value::Mapping(fs) = &ms[i].1 {
            proof {
                lemma_entries(fs@);
            }
            let refuted = match field(&ms[i].1, "v") {
                Some(v) => string_is(v, "refuted"),
                None => false,
            };
            let ghost bu = body_uses(ms@[i as int].0@, entries(fs@), refuted);
            let mut j: usize = 0;
            while j < fs.len()
                invariant
                    0 <= j <= fs.len(),
                    i < ms@.len(),
                    bu == body_uses(ms@[i as int].0@, entries(fs@), refuted),
                    entries(fs@).len() == fs@.len(),
                    forall|q: int| 0 <= q < fs@.len() ==> #[trigger] entries(fs@)[q] == (fs@[q].0@, model(fs@[q].1)),
                    use_view(out@) == use_view(start) + bu.take(j as int),
                decreases fs.len() - j,
            {
                let h = copy_string(&ms[i].0);
                let f = copy_string(&fs[j].0);
                let c = copy(&fs[j].1);
                let ghost before = out@;
                out.push((h, f, c, refuted));
                proof {
                    assert(use_view(out@) =~= use_view(before).push((ms@[i as int].0@, fs@[j as int].0@, model(fs@[j as int].1), refuted)));
                    assert(bu.take(j + 1) =~= bu.take(j as int).push(bu[j as int]));
                }
                j = j + 1;
            }
            proof {
                assert(bu.take(fs.len() as int) =~= bu);
                assert(field_of(es[i as int].1, "v"@) == Model::Text("refuted"@) <==> refuted);
            }
        } else {
            proof {
                assert(use_view(out@) =~= use_view(start));
            }
        }
        i = i + 1;
    }
    proof {
        assert(es.take(ms.len() as int) =~= es);
    }
    out
}

/// The texts among a list's items, in order.
pub open spec fn texts(xs: Seq<Model>) -> Seq<Seq<char>>
    decreases xs.len(),
{
    if xs.len() == 0 {
        Seq::empty()
    } else {
        match xs.last() {
            Model::Text(t) => texts(xs.drop_last()).push(t),
            _ => texts(xs.drop_last()),
        }
    }
}

/// The names a field's value can mention: a text, the texts of a list, or
/// the keys of a mapping.
pub open spec fn mentions(v: Model) -> Seq<Seq<char>> {
    match v {
        Model::Text(t) => seq![t],
        Model::List(xs) => texts(xs),
        Model::Mapping(es) => es.map_values(|p: (Seq<char>, Model)| p.0),
        _ => Seq::empty(),
    }
}

/// A reader counter mentioned in a member's field.
pub open spec fn mentioned_builtin(us: Seq<Use>, x: Seq<char>) -> bool {
    builtin(x) && exists|i: int, k: int|
        0 <= i < us.len() && 0 <= k < mentions(us[i].2).len() && #[trigger] dotted_names(
            #[trigger] mentions(us[i].2)[k],
        ).contains(x)
}

/// The names a record's lists may rest on: its entries and the counters its
/// fields mention.
pub open spec fn id_set(ms: Seq<(Seq<char>, Model)>, us: Seq<Use>) -> Set<Seq<char>> {
    Set::new(
        |x: Seq<char>|
            (exists|i: int| 0 <= i < ms.len() && #[trigger] ms[i].0 == x) || mentioned_builtin(us, x),
    )
}

fn mentions_of(v: &Value) -> (r: Vec<Vec<char>>)
    ensures
        r@.len() == mentions(v@).len(),
        forall|i: int| 0 <= i < r@.len() ==> #[trigger] r@[i]@ == mentions(v@)[i],
{
    let mut out: Vec<Vec<char>> = Vec::new();
    match v {
        Value::Text(t) => {
            out.push(chars_of(t.as_str()));
        },
        Value::List(xs) => {
            proof {
                crate::value::lemma_models(xs@);
            }
            let ghost ms = crate::value::models(xs@);
            let mut i: usize = 0;
            while i < xs.len()
                invariant
                    0 <= i <= xs.len(),
                    ms == crate::value::models(xs@),
                    ms.len() == xs@.len(),
                    forall|q: int| 0 <= q < xs@.len() ==> #[trigger] ms[q] == model(xs@[q]),
                    out@.len() == texts(ms.take(i as int)).len(),
                    forall|q: int| 0 <= q < out@.len() ==> #[trigger] out@[q]@ == texts(ms.take(i as int))[q],
                decreases xs.len() - i,
            {
                proof {
                    assert(ms.take(i + 1).drop_last() =~= ms.take(i as int));
                    assert(ms.take(i + 1).last() == model(xs@[i as int]));
                }
                if let Value::Text(t) = &xs[i] {
                    out.push(chars_of(t.as_str()));
                }
                i = i + 1;
            }
            assert(ms.take(xs.len() as int) =~= ms);
        },
        Value::Mapping(es) => {
            proof {
                lemma_entries(es@);
            }
            let mut i: usize = 0;
            while i < es.len()
                invariant
                    0 <= i <= es.len(),
                    out@.len() == i,
                    entries(es@).len() == es@.len(),
                    forall|q: int| 0 <= q < es@.len() ==> #[trigger] entries(es@)[q] == (es@[q].0@, model(es@[q].1)),
                    forall|q: int| 0 <= q < i ==> #[trigger] out@[q]@ == es@[q].0@,
                decreases es.len() - i,
            {
                out.push(chars_of(es[i].0.as_str()));
                i = i + 1;
            }
        },
        _ => {},
    }
    out
}

/// The names a record's lists may rest on: the ids of its members and the
/// reader counters that their fields mention.
pub fn known_ids(ms: &Vec<(String, Value)>, us: &Vec<(String, String, Value, bool)>) -> (r: Vec<Vec<char>>)
    ensures
        name_set(r@) == id_set(entries(ms@), use_view(us@)),
        sorted_names(char_views(r@)),
{
    proof {
        lemma_entries(ms@);
    }
    let ghost es = entries(ms@);
    let ghost uv = use_view(us@);
    let mut names: Vec<Vec<char>> = Vec::new();
    let mut i: usize = 0;
    while i < ms.len()
        invariant
            sorted_names(char_views(names@)),
            0 <= i <= ms.len(),
            es == entries(ms@),
            es.len() == ms@.len(),
            forall|q: int| 0 <= q < ms@.len() ==> #[trigger] es[q] == (ms@[q].0@, model(ms@[q].1)),
            name_set(names@) == Set::new(|x: Seq<char>| exists|q: int| 0 <= q < i && #[trigger] es[q].0 == x),
        decreases ms.len() - i,
    {
        let k = chars_of(ms[i].0.as_str());
        let ghost before = name_set(names@);
        add_name(&mut names, &k);
        proof {
            assert(name_set(names@) =~= Set::new(|x: Seq<char>| exists|q: int| 0 <= q < i + 1 && #[trigger] es[q].0 == x)) by {
                assert forall|x: Seq<char>| name_set(names@).contains(x) == Set::new(|x: Seq<char>| exists|q: int| 0 <= q < i + 1 && #[trigger] es[q].0 == x).contains(x) by {
                    if x == k@ {
                        assert(es[i as int].0 == x);
                    }
                    if exists|q: int| 0 <= q < i + 1 && #[trigger] es[q].0 == x {
                        let q = choose|q: int| 0 <= q < i + 1 && #[trigger] es[q].0 == x;
                        if q < i {
                            assert(before.contains(x));
                        }
                    }
                }
            }
        }
        i = i + 1;
    }
    let ghost member_ids = name_set(names@);
    let mut u: usize = 0;
    while u < us.len()
        invariant
            sorted_names(char_views(names@)),
            0 <= u <= us.len(),
            uv == use_view(us@),
            uv.len() == us@.len(),
            name_set(names@) == member_ids.union(Set::new(|x: Seq<char>| builtin(x) && exists|i: int, k: int|
                0 <= i < u && 0 <= k < mentions(uv[i].2).len() && #[trigger] dotted_names(
                    #[trigger] mentions(uv[i].2)[k],
                ).contains(x))),
        decreases us.len() - u,
    {
        let ms_u = mentions_of(&us[u].2);
        proof {
            assert(uv[u as int].2 == us@[u as int].2@);
        }
        let ghost prior = name_set(names@);
        let mut k: usize = 0;
        while k < ms_u.len()
            invariant
                sorted_names(char_views(names@)),
                0 <= k <= ms_u.len(),
                ms_u@.len() == mentions(uv[u as int].2).len(),
                forall|q: int| 0 <= q < ms_u@.len() ==> #[trigger] ms_u@[q]@ == mentions(uv[u as int].2)[q],
                name_set(names@) == prior.union(Set::new(|x: Seq<char>| builtin(x) && exists|q: int|
                    0 <= q < k && #[trigger] dotted_names(mentions(uv[u as int].2)[q]).contains(x))),
            decreases ms_u.len() - k,
        {
            let found = find_dotted_names(string_of(&ms_u[k]).as_str());
            let ghost mid = name_set(names@);
            let ghost dn = dotted_names(mentions(uv[u as int].2)[k as int]);
            let mut n: usize = 0;
            while n < found.len()
                invariant
                    sorted_names(char_views(names@)),
                    0 <= n <= found.len(),
                    dn == dotted_names(mentions(uv[u as int].2)[k as int]),
                    found@.len() == dn.len(),
                    forall|q: int| 0 <= q < found@.len() ==> #[trigger] found@[q]@ == dn[q],
                    name_set(names@) == mid.union(Set::new(|x: Seq<char>| builtin(x) && exists|q: int| 0 <= q < n && dn[q] == x)),
                decreases found.len() - n,
            {
                let ghost b2 = name_set(names@);
                if is_builtin(string_of(&found[n]).as_str()) {
                    add_name(&mut names, &found[n]);
                }
                proof {
                    assert(name_set(names@) =~= mid.union(Set::new(|x: Seq<char>| builtin(x) && exists|q: int| 0 <= q < n + 1 && dn[q] == x))) by {
                        assert forall|x: Seq<char>| #[trigger] name_set(names@).contains(x) == mid.union(Set::new(|x: Seq<char>| builtin(x) && exists|q: int| 0 <= q < n + 1 && dn[q] == x)).contains(x) by {
                            if x == dn[n as int] && builtin(x) {
                                assert(exists|q: int| 0 <= q < n + 1 && dn[q] == x);
                            }
                            if builtin(x) && exists|q: int| 0 <= q < n + 1 && dn[q] == x {
                                let q = choose|q: int| 0 <= q < n + 1 && dn[q] == x;
                                if q < n {
                                    assert(b2.contains(x));
                                }
                            }
                        }
                    }
                }
                n = n + 1;
            }
            proof {
                assert(name_set(names@) =~= prior.union(Set::new(|x: Seq<char>| builtin(x) && exists|q: int|
                    0 <= q < k + 1 && #[trigger] dotted_names(mentions(uv[u as int].2)[q]).contains(x)))) by {
                    assert forall|x: Seq<char>| #[trigger] name_set(names@).contains(x) == prior.union(Set::new(|x: Seq<char>| builtin(x) && exists|q: int|
                        0 <= q < k + 1 && #[trigger] dotted_names(mentions(uv[u as int].2)[q]).contains(x))).contains(x) by {
                        if builtin(x) && dn.contains(x) {
                            let q = choose|q: int| 0 <= q < dn.len() && dn[q] == x;
                            assert(exists|q2: int| 0 <= q2 < found@.len() && dn[q2] == x);
                        }
                        if builtin(x) && exists|q: int| 0 <= q < k + 1 && #[trigger] dotted_names(mentions(uv[u as int].2)[q]).contains(x) {
                            let q = choose|q: int| 0 <= q < k + 1 && #[trigger] dotted_names(mentions(uv[u as int].2)[q]).contains(x);
                            if q == k {
                                let p = choose|p: int| 0 <= p < dn.len() && dn[p] == x;
                                assert(mid.union(Set::new(|x: Seq<char>| builtin(x) && exists|q: int| 0 <= q < found@.len() && dn[q] == x)).contains(x));
                            }
                        }
                    }
                }
            }
            k = k + 1;
        }
        proof {
            assert(name_set(names@) =~= member_ids.union(Set::new(|x: Seq<char>| builtin(x) && exists|i: int, k: int|
                0 <= i < u + 1 && 0 <= k < mentions(uv[i].2).len() && #[trigger] dotted_names(
                    #[trigger] mentions(uv[i].2)[k],
                ).contains(x)))) by {
                assert forall|x: Seq<char>| #[trigger] name_set(names@).contains(x) == member_ids.union(Set::new(|x: Seq<char>| builtin(x) && exists|i: int, k: int|
                    0 <= i < u + 1 && 0 <= k < mentions(uv[i].2).len() && #[trigger] dotted_names(
                        #[trigger] mentions(uv[i].2)[k],
                    ).contains(x))).contains(x) by {
                    if builtin(x) && exists|i: int, k: int|
                        0 <= i < u + 1 && 0 <= k < mentions(uv[i].2).len() && #[trigger] dotted_names(
                            #[trigger] mentions(uv[i].2)[k]).contains(x) {
                        let (i, k2) = choose|i: int, k: int|
                            0 <= i < u + 1 && 0 <= k < mentions(uv[i].2).len() && #[trigger] dotted_names(
                                #[trigger] mentions(uv[i].2)[k]).contains(x);
                        if i == u {
                            assert(dotted_names(mentions(uv[u as int].2)[k2]).contains(x));
                        } else {
                            assert(prior.contains(x));
                        }
                    }
                }
            }
        }
        u = u + 1;
    }
    proof {
        assert(name_set(names@) =~= id_set(es, uv));
    }
    names
}

} // verus!

verus! {

/// Fields that never vote: `also`, and the `refutes` of a refuted hypothesis record.
pub open spec fn skipped(u: Use) -> bool {
    u.1 == "also"@ || (u.1 == "refutes"@ && crate::text::starts_with(u.0, "hyp."@) && u.3)
}

/// A non-empty list of texts only.
pub open spec fn text_list(v: Model) -> bool {
    &&& v is List
    &&& v->List_0.len() > 0
    &&& forall|i: int| 0 <= i < v->List_0.len() ==> (#[trigger] v->List_0[i]) is Text
}

/// Whether a list names something outside `ids`.
pub open spec fn names_outside(v: Model, ids: Set<Seq<char>>) -> bool {
    exists|i: int| 0 <= i < texts(v->List_0).len() && !ids.contains(#[trigger] texts(v->List_0)[i])
}

/// A field whose list names only entries votes for being the dependency field.
pub open spec fn votes(u: Use, ids: Set<Seq<char>>) -> bool {
    !skipped(u) && text_list(u.2) && !names_outside(u.2, ids)
}

/// A field whose list names something that is not an entry.
pub open spec fn unresolved(u: Use, ids: Set<Seq<char>>) -> bool {
    !skipped(u) && text_list(u.2) && names_outside(u.2, ids)
}

pub open spec fn vote_count(us: Seq<Use>, ids: Set<Seq<char>>, f: Seq<char>) -> nat
    decreases us.len(),
{
    if us.len() == 0 {
        0
    } else {
        let c = vote_count(us.drop_last(), ids, f);
        if us.last().1 == f && votes(us.last(), ids) {
            inc(c)
        } else {
            c
        }
    }
}

pub open spec fn present_set(us: Seq<Use>) -> Set<Seq<char>> {
    Set::new(|f: Seq<char>| exists|i: int| 0 <= i < us.len() && #[trigger] us[i].1 == f)
}

pub open spec fn unresolved_set(us: Seq<Use>, ids: Set<Seq<char>>) -> Set<Seq<char>> {
    Set::new(
        |f: Seq<char>|
            exists|i: int| 0 <= i < us.len() && #[trigger] us[i].1 == f && unresolved(us[i], ids),
    )
}

pub fn is_skipped(u: &(String, String, Value, bool)) -> (r: bool)
    ensures
        r == skipped((u.0@, u.1@, u.2@, u.3)),
{
    text_is(&u.1, "also") || (text_is(&u.1, "refutes") && has_prefix(&chars_of(u.0.as_str()), &chars_of("hyp.")) && u.3)
}

/// The names a non-empty list of texts holds, or None.
pub fn listed_names(v: &Value) -> (r: Option<Vec<Vec<char>>>)
    ensures
        r is Some <==> text_list(v@),
        r matches Some(ns) ==> ns@.len() == texts(v@->List_0).len() && forall|i: int|
            0 <= i < ns@.len() ==> #[trigger] ns@[i]@ == texts(v@->List_0)[i],
{
    match v {
        Value::List(xs) => {
            proof {
                crate::value::lemma_models(xs@);
            }
            let ghost ms = crate::value::models(xs@);
            if xs.len() == 0 {
                return None;
            }
            let mut out: Vec<Vec<char>> = Vec::new();
            let mut i: usize = 0;
            while i < xs.len()
                invariant
                    0 <= i <= xs.len(),
                    ms == crate::value::models(xs@),
                    *v == Value::List(*xs),
                    ms.len() == xs@.len(),
                    forall|q: int| 0 <= q < xs@.len() ==> #[trigger] ms[q] == model(xs@[q]),
                    forall|q: int| 0 <= q < i ==> (#[trigger] ms[q]) is Text,
                    out@.len() == texts(ms.take(i as int)).len(),
                    forall|q: int| 0 <= q < out@.len() ==> #[trigger] out@[q]@ == texts(ms.take(i as int))[q],
                decreases xs.len() - i,
            {
                proof {
                    assert(ms.take(i + 1).drop_last() =~= ms.take(i as int));
                    assert(ms.take(i + 1).last() == model(xs@[i as int]));
                }
                match &xs[i] {
                    Value::Text(t) => {
                        out.push(chars_of(t.as_str()));
                    },
                    _ => {
                        assert(!(ms[i as int] is Text));
                        return None;
                    },
                }
                i = i + 1;
            }
            assert(ms.take(xs.len() as int) =~= ms);
            Some(out)
        },
        _ => None,
    }
}

/// Tallies the fields' lists of names against the record's ids.
pub fn tally_lists(us: &Vec<(String, String, Value, bool)>, ids: &Vec<Vec<char>>) -> (r: (
    Vec<(Vec<char>, usize)>,
    Vec<Vec<char>>,
    Vec<Vec<char>>,
))
    ensures
        tally_wf(r.0@),
        forall|f: Seq<char>| #[trigger] count_in(r.0@, f) == vote_count(use_view(us@), name_set(ids@), f),
        name_set(r.1@) == unresolved_set(use_view(us@), name_set(ids@)),
        name_set(r.2@) == present_set(use_view(us@)),
        sorted_names(char_views(r.1@)),
        sorted_names(char_views(r.2@)),
{
    let ghost uv = use_view(us@);
    let ghost idset = name_set(ids@);
    let mut tally: Vec<(Vec<char>, usize)> = Vec::new();
    let mut unres: Vec<Vec<char>> = Vec::new();
    let mut present: Vec<Vec<char>> = Vec::new();
    let mut i: usize = 0;
    while i < us.len()
        invariant
            0 <= i <= us.len(),
            uv == use_view(us@),
            uv.len() == us@.len(),
            idset == name_set(ids@),
            tally_wf(tally@),
            forall|f: Seq<char>| #[trigger] count_in(tally@, f) == vote_count(uv.take(i as int), idset, f),
            name_set(unres@) == unresolved_set(uv.take(i as int), idset),
            name_set(present@) == present_set(uv.take(i as int)),
            sorted_names(char_views(unres@)),
            sorted_names(char_views(present@)),
        decreases us.len() - i,
    {
        let u = &us[i];
        let ghost ui = uv[i as int];
        proof {
            assert(uv.take(i + 1).drop_last() =~= uv.take(i as int));
            assert(uv.take(i + 1).last() == ui);
            assert(ui == (u.0@, u.1@, u.2@, u.3));
        }
        let field_name = chars_of(u.1.as_str());
        let ghost p0 = name_set(present@);
        add_name(&mut present, &field_name);
        proof {
            assert(name_set(present@) =~= present_set(uv.take(i + 1))) by {
                assert forall|f: Seq<char>| #[trigger] name_set(present@).contains(f) == present_set(uv.take(i + 1)).contains(f) by {
                    if f == ui.1 {
                        assert(uv.take(i + 1)[i as int].1 == f);
                    }
                    if present_set(uv.take(i + 1)).contains(f) {
                        let q = choose|q: int| 0 <= q < uv.take(i + 1).len() && #[trigger] uv.take(i + 1)[q].1 == f;
                        if q < i {
                            assert(uv.take(i as int)[q].1 == f);
                        }
                    }
                    if p0.contains(f) {
                        let q = choose|q: int| 0 <= q < uv.take(i as int).len() && #[trigger] uv.take(i as int)[q].1 == f;
                        assert(uv.take(i + 1)[q].1 == f);
                    }
                }
            }
        }
        let mut vote = false;
        let mut outside = false;
        if !is_skipped(u) {
            if let Some(names) = listed_names(&u.2) {
                let mut k: usize = 0;
                while k < names.len()
                    invariant
                        0 <= k <= names.len(),
                        text_list(ui.2),
                        names@.len() == texts(ui.2->List_0).len(),
                        forall|q: int| 0 <= q < names@.len() ==> #[trigger] names@[q]@ == texts(ui.2->List_0)[q],
                        idset == name_set(ids@),
                        outside == exists|q: int| 0 <= q < k && !idset.contains(#[trigger] texts(ui.2->List_0)[q]),
                    decreases names.len() - k,
                {
                    if !holds_name(ids, &names[k]) {
                        outside = true;
                        proof {
                            assert(!idset.contains(texts(ui.2->List_0)[k as int]));
                        }
                    } else {
                        proof {
                            assert(idset.contains(names@[k as int]@));
                        }
                    }
                    k = k + 1;
                }
                if outside {
                    let ghost u0 = name_set(unres@);
                    add_name(&mut unres, &field_name);
                    proof {
                        assert(unresolved(ui, idset));
                        assert(name_set(unres@) =~= unresolved_set(uv.take(i + 1), idset)) by {
                            assert forall|f: Seq<char>| #[trigger] name_set(unres@).contains(f) == unresolved_set(uv.take(i + 1), idset).contains(f) by {
                                if f == ui.1 {
                                    assert(uv.take(i + 1)[i as int].1 == f);
                                }
                                if unresolved_set(uv.take(i + 1), idset).contains(f) {
                                    let q = choose|q: int| 0 <= q < uv.take(i + 1).len() && #[trigger] uv.take(i + 1)[q].1 == f && unresolved(uv.take(i + 1)[q], idset);
                                    if q < i {
                                        assert(uv.take(i as int)[q].1 == f);
                                    }
                                }
                                if u0.contains(f) {
                                    let q = choose|q: int| 0 <= q < uv.take(i as int).len() && #[trigger] uv.take(i as int)[q].1 == f && unresolved(uv.take(i as int)[q], idset);
                                    assert(uv.take(i + 1)[q].1 == f);
                                }
                            }
                        }
                    }
                } else {
                    vote = true;
                    bump(&mut tally, &field_name);
                }
            }
        }
        proof {
            if !outside {
                assert(!unresolved(ui, idset));
                assert(name_set(unres@) =~= unresolved_set(uv.take(i + 1), idset)) by {
                    assert forall|f: Seq<char>| #[trigger] name_set(unres@).contains(f) == unresolved_set(uv.take(i + 1), idset).contains(f) by {
                        if unresolved_set(uv.take(i + 1), idset).contains(f) {
                            let q = choose|q: int| 0 <= q < uv.take(i + 1).len() && #[trigger] uv.take(i + 1)[q].1 == f && unresolved(uv.take(i + 1)[q], idset);
                            if q < i {
                                assert(uv.take(i as int)[q].1 == f);
                            }
                        }
                        if name_set(unres@).contains(f) {
                            let q = choose|q: int| 0 <= q < uv.take(i as int).len() && #[trigger] uv.take(i as int)[q].1 == f && unresolved(uv.take(i as int)[q], idset);
                            assert(uv.take(i + 1)[q].1 == f);
                        }
                    }
                }
            }
            assert(vote == votes(ui, idset));
        }
        i = i + 1;
    }
    proof {
        assert(uv.take(us.len() as int) =~= uv);
    }
    (tally, unres, present)
}

} // verus!

verus! {

/// `f` has strictly the most votes.
pub open spec fn top(c: spec_fn(Seq<char>) -> nat, f: Seq<char>) -> bool {
    c(f) > 0 && forall|g: Seq<char>| g != f ==> #[trigger] c(g) < c(f)
}

/// Two names share the most votes.
pub open spec fn tied(c: spec_fn(Seq<char>) -> nat) -> bool {
    exists|f: Seq<char>, g: Seq<char>|
        f != g && #[trigger] c(f) > 0 && c(f) == #[trigger] c(g) && forall|h: Seq<char>|
            #[trigger] c(h) <= c(f)
}

/// What `choose_role` decides for a role: the name the schema declares, else
/// the single name with the most votes, else nothing; two names sharing the
/// most votes, or a declared name that is not a text, is a failure.
pub open spec fn choice(schema: Model, role: Seq<char>, c: spec_fn(Seq<char>) -> nat) -> Result<Option<Seq<char>>, ()> {
    let declared = field_of(schema, role);
    if crate::value::truthy(declared) {
        match crate::value::text_of(declared) {
            Some(s) => Ok(Some(s)),
            None => Err(()),
        }
    } else if tied(c) {
        Err(())
    } else if exists|f: Seq<char>| top(c, f) {
        Ok(Some(choose|f: Seq<char>| top(c, f)))
    } else {
        Ok(None)
    }
}

pub proof fn lemma_top_unique(c: spec_fn(Seq<char>) -> nat, f: Seq<char>)
    requires
        top(c, f),
    ensures
        !tied(c),
        (choose|g: Seq<char>| top(c, g)) == f,
{
    let g = choose|g: Seq<char>| top(c, g);
    if g != f {
        assert(c(g) < c(f));
        assert(c(f) < c(g));
    }
    if tied(c) {
        let (a, b) = choose|a: Seq<char>, b: Seq<char>|
            a != b && #[trigger] c(a) > 0 && c(a) == #[trigger] c(b) && forall|h: Seq<char>|
                #[trigger] c(h) <= c(a);
        if a != f {
            assert(c(a) < c(f));
        } else {
            assert(c(b) < c(f));
        }
    }
}

pub open spec fn chosen_view(r: Result<Option<Vec<char>>, Error>) -> Result<Option<Seq<char>>, ()> {
    match r {
        Ok(Some(x)) => Ok(Some(x@)),
        Ok(None) => Ok(None),
        Err(_) => Err(()),
    }
}

/// The name that takes a role: the schema's own, or the unique best voted.
pub fn choose_role(schema: &Value, role: &str, t: &Vec<(Vec<char>, usize)>) -> (r: Result<Option<Vec<char>>, Error>)
    requires
        tally_wf(t@),
    ensures
        chosen_view(r) == choice(schema@, role@, counter(t@)),
        r matches Err(e) ==> e.0@ == "invalid_snapshot"@,
{
    if let Some(value) = field(schema, role) {
        if crate::value::truth(value) {
            return match crate::value::text(value) {
                Some(s) => Ok(Some(chars_of(s.as_str()))),
                None => Err(error("invalid_snapshot")),
            };
        }
    }
    assert(!crate::value::truthy(field_of(schema@, role@)));
    let mut best: usize = 0;
    let mut i: usize = 0;
    while i < t.len()
        invariant
            0 <= i <= t.len(),
            !crate::value::truthy(field_of(schema@, role@)),
            tally_wf(t@),
            forall|j: int| 0 <= j < i ==> #[trigger] t@[j].1 <= best,
            i > 0 ==> exists|j: int| 0 <= j < i && #[trigger] t@[j].1 == best,
            i == 0 ==> best == 0,
        decreases t.len() - i,
    {
        if t[i].1 > best {
            best = t[i].1;
        }
        i = i + 1;
    }
    proof {
        assert forall|h: Seq<char>| #[trigger] count_in(t@, h) <= best by {
            if exists|j: int| 0 <= j < t@.len() && #[trigger] t@[j].0@ == h {
                let j = choose|j: int| 0 <= j < t@.len() && #[trigger] t@[j].0@ == h;
                crate::tally::lemma_count_at(t@, j);
            } else {
                crate::tally::lemma_count_absent(t@, h);
            }
        }
    }
    if t.len() == 0 {
        proof {
            let c = counter(t@);
            assert forall|f: Seq<char>| #[trigger] c(f) == 0 by {
                crate::tally::lemma_count_absent(t@, f);
            }
            assert(!tied(c));
            assert(!exists|f: Seq<char>| top(c, f));
        }
        return Ok(None);
    }
    let mut found: Option<usize> = None;
    let mut k: usize = 0;
    while k < t.len()
        invariant
            0 <= k <= t.len(),
            !crate::value::truthy(field_of(schema@, role@)),
            tally_wf(t@),
            best >= 1,
            forall|h: Seq<char>| #[trigger] count_in(t@, h) <= best,
            match found {
                Some(j) => j < k && t@[j as int].1 == best && forall|q: int| 0 <= q < k && q != j ==> #[trigger] t@[q].1 != best,
                None => forall|q: int| 0 <= q < k ==> #[trigger] t@[q].1 != best,
            },
        decreases t.len() - k,
    {
        if t[k].1 == best {
            if let Some(j) = found {
                proof {
                    crate::tally::lemma_count_at(t@, j as int);
                    crate::tally::lemma_count_at(t@, k as int);
                    assert(t@[j as int].0@ != t@[k as int].0@);
                    let c = counter(t@);
                    assert(tied(c)) by {
                        let f = t@[j as int].0@;
                        let g = t@[k as int].0@;
                        assert(c(f) == best);
                        assert(c(g) == best);
                        assert forall|h: Seq<char>| #[trigger] c(h) <= c(f) by {
                            assert(count_in(t@, h) <= best);
                        }
                    }
                }
                return Err(error("invalid_snapshot"));
            }
            found = Some(k);
        }
        k = k + 1;
    }
    match found {
        Some(j) => {
            proof {
                crate::tally::lemma_count_at(t@, j as int);
                let f = t@[j as int].0@;
                assert forall|g: Seq<char>| g != f implies #[trigger] count_in(t@, g) < count_in(t@, f) by {
                    if exists|q: int| 0 <= q < t@.len() && #[trigger] t@[q].0@ == g {
                        let q = choose|q: int| 0 <= q < t@.len() && #[trigger] t@[q].0@ == g;
                        crate::tally::lemma_count_at(t@, q);
                        assert(q != j);
                    } else {
                        crate::tally::lemma_count_absent(t@, g);
                    }
                }
                let c = counter(t@);
                assert(top(c, f)) by {
                    assert forall|g: Seq<char>| g != f implies #[trigger] c(g) < c(f) by {
                        assert(count_in(t@, g) < count_in(t@, f));
                    }
                }
                lemma_top_unique(c, f);
            }
            let name = crate::text::slice_range(&t[j].0, 0, t[j].0.len());
            assert(name@ =~= t@[j as int].0@);
            Ok(Some(name))
        },
        None => {
            proof {
                let q = choose|q: int| 0 <= q < t@.len() && #[trigger] t@[q].1 == best;
                assert(false);
            }
            Ok(None)
        },
    }
}

} // verus!

verus! {

/// Fields that never stand for a snapshot or a predicate.
pub open spec fn ignored(f: Seq<char>) -> bool {
    f == "reopened_by"@ || f == "request"@ || f == "replaced"@ || f == "also"@
}

pub open spec fn keys_known(es: Seq<(Seq<char>, Model)>, ids: Set<Seq<char>>) -> bool {
    forall|i: int| 0 <= i < es.len() ==> ids.contains(#[trigger] es[i].0)
}

pub open spec fn keep_known(ns: Seq<Seq<char>>, ids: Set<Seq<char>>) -> Seq<Seq<char>>
    decreases ns.len(),
{
    if ns.len() == 0 {
        Seq::empty()
    } else if ids.contains(ns.last()) {
        keep_known(ns.drop_last(), ids).push(ns.last())
    } else {
        keep_known(ns.drop_last(), ids)
    }
}

/// A mapping keyed only by entries: a snapshot of what was seen.
pub open spec fn snapshot_like(f: Seq<char>, v: Model, ids: Set<Seq<char>>) -> bool {
    !ignored(f) && v is Mapping && v->Mapping_0.len() > 0 && keys_known(v->Mapping_0, ids)
}

/// An expression tree, or a text naming entries that reads as an expression
/// and is not just one name.
pub open spec fn predicate_like(f: Seq<char>, v: Model, ids: Set<Seq<char>>) -> bool {
    !ignored(f) && match v {
        Model::Mapping(es) => !(es.len() > 0 && keys_known(es, ids)) && (crate::value::has_key(
            es,
            "op"@,
        ) || crate::value::has_key(es, "expr"@) || f == "wrong_if"@),
        Model::Text(t) => t.len() > 0 && !crate::text::has_pair(t, '{', '{') && keep_known(
            dotted_names(t),
            ids,
        ).len() > 0 && !keep_known(dotted_names(t), ids).contains(crate::text::trim_sep(t))
            && reads_as_expression(t),
        _ => false,
    }
}

pub open spec fn fold_fields(c: nat, fs: Seq<(Seq<char>, Model)>, ids: Set<Seq<char>>, snapshot: bool, f: Seq<char>) -> nat
    decreases fs.len(),
{
    if fs.len() == 0 {
        c
    } else {
        let c0 = fold_fields(c, fs.drop_last(), ids, snapshot, f);
        let (k, v) = fs.last();
        if k == f && (if snapshot {
            snapshot_like(k, v, ids)
        } else {
            predicate_like(k, v, ids)
        }) {
            inc(c0)
        } else {
            c0
        }
    }
}

pub open spec fn holds_dep(b: Model, dep: Seq<char>) -> bool {
    b is Mapping && crate::value::has_key(b->Mapping_0, dep)
}

/// Votes for `f` as the snapshot (or the predicate) field among the bodies
/// that carry the dependency field.
pub open spec fn role_count(ms: Seq<(Seq<char>, Model)>, dep: Seq<char>, ids: Set<Seq<char>>, snapshot: bool, f: Seq<char>) -> nat
    decreases ms.len(),
{
    if ms.len() == 0 {
        0
    } else {
        let c = role_count(ms.drop_last(), dep, ids, snapshot, f);
        if holds_dep(ms.last().1, dep) {
            fold_fields(c, ms.last().1->Mapping_0, ids, snapshot, f)
        } else {
            c
        }
    }
}

/// A body whose dependency field holds a scalar other than a falsy one.
pub open spec fn bad_dep(ms: Seq<(Seq<char>, Model)>, dep: Seq<char>) -> bool {
    exists|i: int|
        0 <= i < ms.len() && holds_dep(#[trigger] ms[i].1, dep) && {
            let v = field_of(ms[i].1, dep);
            crate::value::truthy(v) && !(v is Mapping || v is List || v is Text)
        }
}

fn known_names(t: &[char], ids: &Vec<Vec<char>>) -> (r: Vec<Vec<char>>)
    ensures
        r@.len() == keep_known(dotted_names(t@), name_set(ids@)).len(),
        forall|i: int| 0 <= i < r@.len() ==> #[trigger] r@[i]@ == keep_known(dotted_names(t@), name_set(ids@))[i],
{
    let s = string_of(t);
    let found = find_dotted_names(s.as_str());
    let ghost dn = dotted_names(t@);
    let mut out: Vec<Vec<char>> = Vec::new();
    let mut i: usize = 0;
    while i < found.len()
        invariant
            0 <= i <= found.len(),
            dn == dotted_names(t@),
            found@.len() == dn.len(),
            forall|q: int| 0 <= q < found@.len() ==> #[trigger] found@[q]@ == dn[q],
            out@.len() == keep_known(dn.take(i as int), name_set(ids@)).len(),
            forall|q: int| 0 <= q < out@.len() ==> #[trigger] out@[q]@ == keep_known(dn.take(i as int), name_set(ids@))[q],
        decreases found.len() - i,
    {
        proof {
            assert(dn.take(i + 1).drop_last() =~= dn.take(i as int));
        }
        if holds_name(ids, &found[i]) {
            out.push(crate::text::slice_range(&found[i], 0, found[i].len()));
            proof {
                assert(out@[out@.len() - 1]@ =~= found@[i as int]@);
            }
        }
        i = i + 1;
    }
    proof {
        assert(dn.take(found.len() as int) =~= dn);
    }
    out
}

fn keys_all_known(es: &Vec<(String, Value)>, ids: &Vec<Vec<char>>) -> (r: bool)
    ensures
        r == keys_known(entries(es@), name_set(ids@)),
{
    proof {
        lemma_entries(es@);
    }
    let mut i: usize = 0;
    while i < es.len()
        invariant
            0 <= i <= es.len(),
            entries(es@).len() == es@.len(),
            forall|q: int| 0 <= q < es@.len() ==> #[trigger] entries(es@)[q] == (es@[q].0@, model(es@[q].1)),
            forall|q: int| 0 <= q < i ==> name_set(ids@).contains(#[trigger] entries(es@)[q].0),
        decreases es.len() - i,
    {
        if !holds_name(ids, &chars_of(es[i].0.as_str())) {
            assert(!name_set(ids@).contains(entries(es@)[i as int].0));
            return false;
        }
        i = i + 1;
    }
    true
}

fn is_ignored(f: &String) -> (r: bool)
    ensures
        r == ignored(f@),
{
    text_is(f, "reopened_by") || text_is(f, "request") || text_is(f, "replaced") || text_is(f, "also")
}

/// How one field votes: as a snapshot, and as a predicate.
fn classify(f: &String, v: &Value, ids: &Vec<Vec<char>>) -> (r: (bool, bool))
    ensures
        r.0 == snapshot_like(f@, v@, name_set(ids@)),
        r.1 == predicate_like(f@, v@, name_set(ids@)),
{
    if is_ignored(f) {
        return (false, false);
    }
    match v {
        Value::Mapping(es) => {
            let known = es.len() > 0 && keys_all_known(es, ids);
            proof {
                lemma_entries(es@);
            }
            let predicate = !known && (crate::value::find(es, "op").is_some() || crate::value::find(es, "expr").is_some() || text_is(f, "wrong_if"));
            (known, predicate)
        },
        Value::Text(t) => {
            let cs = chars_of(t.as_str());
            if cs.len() == 0 || crate::text::holds_pair(&cs, '{', '{') {
                return (false, false);
            }
            let named = known_names(&cs, ids);
            if named.len() == 0 {
                return (false, false);
            }
            let trimmed = crate::text::trimmed_sep(&cs);
            let mut inside = false;
            let mut i: usize = 0;
            while i < named.len()
                invariant
                    0 <= i <= named.len(),
                    inside == exists|q: int| 0 <= q < i && #[trigger] named@[q]@ == trimmed@,
                decreases named.len() - i,
            {
                if same(&named[i], &trimmed) {
                    inside = true;
                }
                i = i + 1;
            }
            proof {
                let kn = keep_known(dotted_names(t@), name_set(ids@));
                if inside {
                    let q = choose|q: int| 0 <= q < named@.len() && #[trigger] named@[q]@ == trimmed@;
                    assert(kn[q] == trimmed@);
                } else {
                    assert(!kn.contains(trimmed@)) by {
                        if kn.contains(trimmed@) {
                            let q = choose|q: int| 0 <= q < kn.len() && kn[q] == trimmed@;
                            assert(named@[q]@ == trimmed@);
                        }
                    }
                }
            }
            (false, !inside && expression_like(t.as_str()))
        },
        _ => (false, false),
    }
}

} // verus!

verus! {

pub open spec fn roles_code(semantic: bool) -> Seq<char> {
    if semantic {
        "invalid_comparison_roles"@
    } else {
        "invalid_snapshot"@
    }
}

pub fn roles_error(semantic: bool) -> (e: Error)
    ensures
        e.0@ == roles_code(semantic),
{
    if semantic {
        error("invalid_comparison_roles")
    } else {
        error("invalid_snapshot")
    }
}

/// Counts, over the bodies that carry the dependency field, the fields that
/// read as snapshots and as predicates; a dependency field holding another
/// kind of scalar is refused.
pub fn count_roles(ms: &Vec<(String, Value)>, dep: &[char], ids: &Vec<Vec<char>>, semantic: bool) -> (r: Result<
    (Vec<(Vec<char>, usize)>, Vec<(Vec<char>, usize)>),
    Error,
>)
    ensures
        r is Ok <==> !bad_dep(entries(ms@), dep@),
        r matches Ok(t) ==> tally_wf(t.0@) && tally_wf(t.1@) && (forall|f: Seq<char>|
            #[trigger] count_in(t.0@, f) == role_count(entries(ms@), dep@, name_set(ids@), true, f))
            && (forall|f: Seq<char>|
            #[trigger] count_in(t.1@, f) == role_count(entries(ms@), dep@, name_set(ids@), false, f)),
        r matches Err(e) ==> e.0@ == roles_code(semantic),
{
    proof {
        lemma_entries(ms@);
    }
    let ghost es = entries(ms@);
    let ghost idset = name_set(ids@);
    let dep_text = string_of(dep);
    let mut snaps: Vec<(Vec<char>, usize)> = Vec::new();
    let mut preds: Vec<(Vec<char>, usize)> = Vec::new();
    let mut i: usize = 0;
    while i < ms.len()
        invariant
            0 <= i <= ms.len(),
            es == entries(ms@),
            es.len() == ms@.len(),
            idset == name_set(ids@),
            dep_text@ == dep@,
            forall|q: int| 0 <= q < ms@.len() ==> #[trigger] es[q] == (ms@[q].0@, model(ms@[q].1)),
            tally_wf(snaps@),
            tally_wf(preds@),
            forall|f: Seq<char>| #[trigger] count_in(snaps@, f) == role_count(es.take(i as int), dep@, idset, true, f),
            forall|f: Seq<char>| #[trigger] count_in(preds@, f) == role_count(es.take(i as int), dep@, idset, false, f),
            !bad_dep(es.take(i as int), dep@),
        decreases ms.len() - i,
    {
        proof {
            assert(es.take(i + 1).drop_last() =~= es.take(i as int));
            assert(es.take(i + 1).last() == es[i as int]);
        }
        let ghost s0 = snaps@;
        let ghost p0 = preds@;
        if let Value::Mapping(fs) = &ms[i].1 {
            proof {
                lemma_entries(fs@);
            }
            if let Some(k) = crate::value::find(fs, dep_text.as_str()) {
                proof {
                    crate::value::lemma_key_index(entries(fs@), dep@, k as int);
                    assert(holds_dep(es[i as int].1, dep@));
                    assert(field_of(es[i as int].1, dep@) == model(fs@[k as int].1));
                }
                let dv = &fs[k].1;
                let fine = match dv {
                    Value::Mapping(_) => true,
                    Value::List(_) => true,
                    Value::Text(_) => true,
                    _ => !crate::value::truth(dv),
                };
                if !fine {
                    proof {
                        assert(bad_dep(entries(ms@), dep@)) by {
                            assert(holds_dep(es[i as int].1, dep@));
                        }
                    }
                    return Err(roles_error(semantic));
                }
                let ghost ffs = entries(fs@);
                let mut j: usize = 0;
                while j < fs.len()
                    invariant
                        0 <= j <= fs.len(),
                        ffs == entries(fs@),
                        ffs.len() == fs@.len(),
                        idset == name_set(ids@),
                        forall|q: int| 0 <= q < fs@.len() ==> #[trigger] ffs[q] == (fs@[q].0@, model(fs@[q].1)),
                        tally_wf(snaps@),
                        tally_wf(preds@),
                        forall|f: Seq<char>| #[trigger] count_in(snaps@, f) == fold_fields(count_in(s0, f), ffs.take(j as int), idset, true, f),
                        forall|f: Seq<char>| #[trigger] count_in(preds@, f) == fold_fields(count_in(p0, f), ffs.take(j as int), idset, false, f),
                    decreases fs.len() - j,
                {
                    proof {
                        assert(ffs.take(j + 1).drop_last() =~= ffs.take(j as int));
                        assert(ffs.take(j + 1).last() == ffs[j as int]);
                    }
                    let (is_snapshot, is_predicate) = classify(&fs[j].0, &fs[j].1, ids);
                    let name = chars_of(fs[j].0.as_str());
                    if is_snapshot {
                        bump(&mut snaps, &name);
                    }
                    if is_predicate {
                        bump(&mut preds, &name);
                    }
                    j = j + 1;
                }
                proof {
                    assert(ffs.take(fs.len() as int) =~= ffs);
                    assert(es[i as int].1->Mapping_0 == ffs);
                }
            } else {
                proof {
                    assert(!holds_dep(es[i as int].1, dep@));
                }
            }
        } else {
            proof {
                assert(!holds_dep(es[i as int].1, dep@));
            }
        }
        proof {
            assert(!bad_dep(es.take(i + 1), dep@)) by {
                if bad_dep(es.take(i + 1), dep@) {
                    let q = choose|q: int| 0 <= q < es.take(i + 1).len() && holds_dep(#[trigger] es.take(i + 1)[q].1, dep@) && {
                        let v = field_of(es.take(i + 1)[q].1, dep@);
                        crate::value::truthy(v) && !(v is Mapping || v is List || v is Text)
                    };
                    if q < i {
                        assert(es.take(i as int)[q] == es.take(i + 1)[q]);
                        assert(bad_dep(es.take(i as int), dep@));
                    }
                }
            }
        }
        i = i + 1;
    }
    proof {
        assert(es.take(ms.len() as int) =~= es);
    }
    Ok((snaps, preds))
}

} // verus!

verus! {

/// The judgment fields, with any the schema adds.
pub open spec fn judgment_field(k: Seq<char>, extra: Set<Seq<char>>) -> bool {
    k == "rests_on"@ || k == "wrong_if"@ || k == "seen"@ || k == "verdict"@ || k == "reopened_by"@
        || k == "blocked_on"@ || extra.contains(k)
}

/// A body that reads as a judgment: it has a judgment field, and is not just a
/// `core/v1` rule blocked on something.
pub open spec fn shaped_body(b: Model, extra: Set<Seq<char>>, core: bool) -> bool {
    &&& b is Mapping
    &&& exists|i: int| 0 <= i < b->Mapping_0.len() && judgment_field(#[trigger] b->Mapping_0[i].0, extra)
    &&& !({
        &&& crate::value::has_key(b->Mapping_0, "blocked_on"@)
        &&& forall|i: int|
            0 <= i < b->Mapping_0.len() && judgment_field(#[trigger] b->Mapping_0[i].0, extra)
                ==> b->Mapping_0[i].0 == "blocked_on"@
        &&& core
        &&& field_of(b, "rule"@) is Mapping
    })
}

pub open spec fn any_shaped(ms: Seq<(Seq<char>, Model)>, extra: Set<Seq<char>>, core: bool) -> bool {
    exists|i: int| 0 <= i < ms.len() && shaped_body(#[trigger] ms[i].1, extra, core)
}

fn is_judgment_field(k: &String, extra: &Vec<Vec<char>>) -> (r: bool)
    ensures
        r == judgment_field(k@, name_set(extra@)),
{
    let base = text_is(k, "rests_on") || text_is(k, "wrong_if") || text_is(k, "seen") || text_is(k, "verdict")
        || text_is(k, "reopened_by") || text_is(k, "blocked_on");
    if base {
        return true;
    }
    let found = holds_name(extra, &chars_of(k.as_str()));
    proof {
        if found {
            let i = choose|i: int| 0 <= i < extra@.len() && #[trigger] extra@[i]@ == k@;
            assert(name_set(extra@).contains(k@));
        }
    }
    found
}

fn body_shaped(b: &Value, extra: &Vec<Vec<char>>, core: bool) -> (r: bool)
    ensures
        r == shaped_body(b@, name_set(extra@), core),
{
    let ghost ev = name_set(extra@);
    match b {
        Value::Mapping(es) => {
            proof {
                lemma_entries(es@);
            }
            let ghost em = entries(es@);
            let mut matched = false;
            let mut only_blocked = true;
            let mut i: usize = 0;
            while i < es.len()
                invariant
                    0 <= i <= es.len(),
                    ev == name_set(extra@),
                    em == entries(es@),
                    em.len() == es@.len(),
                    forall|q: int| 0 <= q < es@.len() ==> #[trigger] em[q] == (es@[q].0@, model(es@[q].1)),
                    matched == exists|q: int| 0 <= q < i && judgment_field(#[trigger] em[q].0, ev),
                    only_blocked == forall|q: int| 0 <= q < i && judgment_field(#[trigger] em[q].0, ev) ==> em[q].0 == "blocked_on"@,
                decreases es.len() - i,
            {
                assert(em[i as int].0 == es@[i as int].0@);
                if is_judgment_field(&es[i].0, extra) {
                    matched = true;
                    if !text_is(&es[i].0, "blocked_on") {
                        only_blocked = false;
                    }
                }
                i = i + 1;
            }
            if !matched {
                return false;
            }
            let has_blocked = crate::value::find(es, "blocked_on").is_some();
            let rule_map = match field(b, "rule") {
                Some(Value::Mapping(_)) => true,
                _ => false,
            };
            proof {
                assert(b@->Mapping_0 == em);
            }
            !(has_blocked && only_blocked && core && rule_map)
        },
        _ => false,
    }
}

pub fn shaped_members(ms: &Vec<(String, Value)>, extra: &Vec<Vec<char>>, core: bool) -> (r: bool)
    ensures
        r == any_shaped(entries(ms@), name_set(extra@), core),
{
    proof {
        lemma_entries(ms@);
    }
    let mut i: usize = 0;
    while i < ms.len()
        invariant
            0 <= i <= ms.len(),
            entries(ms@).len() == ms@.len(),
            forall|q: int| 0 <= q < ms@.len() ==> #[trigger] entries(ms@)[q] == (ms@[q].0@, model(ms@[q].1)),
            forall|q: int| 0 <= q < i ==> !shaped_body(#[trigger] entries(ms@)[q].1, name_set(extra@), core),
        decreases ms.len() - i,
    {
        if body_shaped(&ms[i].1, extra, core) {
            assert(shaped_body(entries(ms@)[i as int].1, name_set(extra@), core));
            return true;
        }
        i = i + 1;
    }
    false
}

/// A collection of sources: known, sources, open or questions, or one whose
/// every member is a mapping with no value or rule and some truthy `asked`,
/// `file`, `url` or `read`.
pub open spec fn source_member(b: Model) -> bool {
    &&& b is Mapping
    &&& !crate::value::has_key(b->Mapping_0, "v"@)
    &&& !crate::value::has_key(b->Mapping_0, "quoted"@)
    &&& !crate::value::has_key(b->Mapping_0, "rule"@)
    &&& (crate::value::truthy(field_of(b, "asked"@)) || crate::value::truthy(field_of(b, "file"@))
        || crate::value::truthy(field_of(b, "url"@)) || crate::value::truthy(field_of(b, "read"@)))
}

pub open spec fn source_collection(c: (Seq<char>, Seq<(Seq<char>, Model)>)) -> bool {
    c.0 == "known"@ || c.0 == "sources"@ || c.0 == "open"@ || c.0 == "questions"@ || forall|i: int|
        0 <= i < c.1.len() ==> source_member(#[trigger] c.1[i].1)
}

pub open spec fn source_only(cs: Seq<(Seq<char>, Seq<(Seq<char>, Model)>)>) -> bool {
    forall|i: int| 0 <= i < cs.len() ==> source_collection(#[trigger] cs[i])
}

fn is_source_member(b: &Value) -> (r: bool)
    ensures
        r == source_member(b@),
{
    match b {
        Value::Mapping(es) => {
            let truthy_field = |k: &str| -> (t: bool)
                ensures
                    t == crate::value::truthy(field_of(b@, k@)),
                {
                    match field(b, k) {
                        Some(v) => crate::value::truth(v),
                        None => false,
                    }
                };
            crate::value::find(es, "v").is_none() && crate::value::find(es, "quoted").is_none()
                && crate::value::find(es, "rule").is_none() && (truthy_field("asked") || truthy_field("file")
                || truthy_field("url") || truthy_field("read"))
        },
        _ => false,
    }
}

/// Whether every collection only holds sources.
pub fn source_only_collections(cs: &Vec<(String, Vec<(String, Value)>)>) -> (r: bool)
    ensures
        r == source_only(coll_view(cs@)),
{
    let ghost cv = coll_view(cs@);
    let mut i: usize = 0;
    while i < cs.len()
        invariant
            0 <= i <= cs.len(),
            cv == coll_view(cs@),
            cv.len() == cs@.len(),
            forall|q: int| 0 <= q < i ==> source_collection(#[trigger] cv[q]),
        decreases cs.len() - i,
    {
        let name = &cs[i].0;
        if !(text_is(name, "known") || text_is(name, "sources") || text_is(name, "open") || text_is(name, "questions")) {
            let members = &cs[i].1;
            proof {
                lemma_entries(members@);
            }
            let mut j: usize = 0;
            while j < members.len()
                invariant
                    0 <= j <= members.len(),
                    i < cs@.len(),
                    members == &cs@[i as int].1,
                    cv == coll_view(cs@),
                    cv.len() == cs@.len(),
                    !(cs@[i as int].0@ == "known"@ || cs@[i as int].0@ == "sources"@ || cs@[i as int].0@ == "open"@ || cs@[i as int].0@ == "questions"@),
                    forall|q: int| 0 <= q < i ==> source_collection(#[trigger] cv[q]),
                    entries(members@).len() == members@.len(),
                    forall|q: int| 0 <= q < members@.len() ==> #[trigger] entries(members@)[q] == (members@[q].0@, model(members@[q].1)),
                    forall|q: int| 0 <= q < j ==> source_member(#[trigger] entries(members@)[q].1),
                decreases members.len() - j,
            {
                if !is_source_member(&members[j].1) {
                    proof {
                        assert(cv[i as int] == (cs@[i as int].0@, entries(members@)));
                        assert(entries(members@)[j as int].1 == model(members@[j as int].1));
                        assert(!source_member(cv[i as int].1[j as int].1));
                        assert(!source_collection(cv[i as int]));
                    }
                    return false;
                }
                j = j + 1;
            }
            proof {
                assert(cv[i as int] == (cs@[i as int].0@, entries(members@)));
            }
        }
        i = i + 1;
    }
    true
}

/// A record that holds nothing but `meta` and `schema`.
pub open spec fn header_only(des: Seq<(Seq<char>, Model)>) -> bool {
    des.len() > 0 && forall|i: int| 0 <= i < des.len() ==> (#[trigger] des[i].0 == "meta"@ || des[i].0 == "schema"@)
}

pub fn is_header_only(doc: &Vec<(String, Value)>) -> (r: bool)
    ensures
        r == header_only(entries(doc@)),
{
    proof {
        lemma_entries(doc@);
    }
    if doc.len() == 0 {
        return false;
    }
    let mut i: usize = 0;
    while i < doc.len()
        invariant
            0 <= i <= doc.len(),
            entries(doc@).len() == doc@.len(),
            forall|q: int| 0 <= q < doc@.len() ==> #[trigger] entries(doc@)[q] == (doc@[q].0@, model(doc@[q].1)),
            forall|q: int| 0 <= q < i ==> (#[trigger] entries(doc@)[q].0 == "meta"@ || entries(doc@)[q].0 == "schema"@),
        decreases doc.len() - i,
    {
        if !(text_is(&doc[i].0, "meta") || text_is(&doc[i].0, "schema")) {
            assert(!(entries(doc@)[i as int].0 == "meta"@ || entries(doc@)[i as int].0 == "schema"@));
            return false;
        }
        i = i + 1;
    }
    true
}

} // verus!
