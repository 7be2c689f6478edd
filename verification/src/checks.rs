//! What a page's brief is held to: each section's renderer, what it picks,
//! and what that renderer needs of the picked ids.
use vstd::prelude::*;
use crate::dates::{entry_date, entry_day};
use crate::page::{
    Section, SectionModel, Tab, TabModel, body, body_of, decimal, decimal_of, groups_of, groups_of_spec, groups_view,
    holds_string, select, selected, str_set, strings, textish, textish_of,
};
use crate::text::{append, chars_of, char_views, join, join_with, string_of, trim, trimmed};
use crate::value::{Model, Value, entries};

verus! {

broadcast use vstd::std_specs::vec::group_vec_axioms;

/// The renderers a section may name.
pub open spec fn known_renderer(k: Seq<char>) -> bool {
    ||| k == "table"@
    ||| k == "lines"@
    ||| k == "cards"@
    ||| k == "headline"@
    ||| k == "timeline"@
    ||| k == "grouped"@
    ||| k == "fronts"@
    ||| k == "alerts"@
    ||| k == "axis"@
    ||| k == "links"@
}

/// The title a section is shown under: its own, else its selectors joined
/// by commas.
pub open spec fn section_title_spec(s: SectionModel) -> Seq<char> {
    if s.title.len() == 0 {
        join(s.pick, ","@)
    } else {
        s.title
    }
}

/// Whether any picked id is a judgment.
pub open spec fn picks_judgment(chosen: Seq<Seq<char>>, judgments: Set<Seq<char>>) -> bool {
    exists|i: int| 0 <= i < chosen.len() && judgments.contains(#[trigger] chosen[i])
}

/// The renderer a section uses: the one it names, else cards where it picks
/// a judgment and a table where it does not.
pub open spec fn section_kind_spec(s: SectionModel, chosen: Seq<Seq<char>>, judgments: Set<Seq<char>>) -> Seq<char> {
    if s.kind.len() > 0 {
        s.kind
    } else if picks_judgment(chosen, judgments) {
        "cards"@
    } else {
        "table"@
    }
}

/// The picked ids that are entries, not judgments, in order.
pub open spec fn entry_ids(chosen: Seq<Seq<char>>, judgments: Set<Seq<char>>) -> Seq<Seq<char>>
    decreases chosen.len(),
{
    if chosen.len() == 0 {
        Seq::empty()
    } else {
        let rest = entry_ids(chosen.drop_last(), judgments);
        if judgments.contains(chosen.last()) {
            rest
        } else {
            rest.push(chosen.last())
        }
    }
}

/// Whether the node `id` has a body whose value reads as a date.
pub open spec fn dated(nodes: Seq<(Seq<char>, Model)>, id: Seq<char>) -> bool {
    match body_of(nodes, id) {
        Some(Model::Mapping(b)) => entry_day(b) is Some,
        _ => false,
    }
}

/// How many of `ids` do not read as dates.
pub open spec fn undated(ids: Seq<Seq<char>>, nodes: Seq<(Seq<char>, Model)>) -> nat
    decreases ids.len(),
{
    if ids.len() == 0 {
        0
    } else {
        undated(ids.drop_last(), nodes) + if dated(nodes, ids.last()) {
            0nat
        } else {
            1nat
        }
    }
}

/// Whether `links` gives `id` a safe address.
pub open spec fn linked(links: Seq<(String, Option<String>)>, id: Seq<char>) -> bool {
    exists|q: int| 0 <= q < links.len() && #[trigger] links[q].0@ == id && links[q].1 is Some
}

/// The ids, in order, that `links` gives no safe address.
pub open spec fn unlinked(ids: Seq<Seq<char>>, links: Seq<(String, Option<String>)>) -> Seq<Seq<char>>
    decreases ids.len(),
{
    if ids.len() == 0 {
        Seq::empty()
    } else {
        let rest = unlinked(ids.drop_last(), links);
        if linked(links, ids.last()) {
            rest
        } else {
            rest.push(ids.last())
        }
    }
}

/// Whether the groups found are at most one.
pub open spec fn one_group(found: Set<Seq<char>>) -> bool {
    !exists|a: Seq<char>, b: Seq<char>| found.contains(a) && found.contains(b) && a != b
}

/// The one group found, or nothing where none was.
pub open spec fn the_group(found: Set<Seq<char>>) -> Seq<char> {
    if exists|a: Seq<char>| found.contains(a) {
        choose|a: Seq<char>| found.contains(a)
    } else {
        Seq::empty()
    }
}

pub open spec fn about(title: Seq<char>) -> Seq<char> {
    "section '"@ + title + "': "@
}

/// What a section's renderer finds wrong with what the section picked.
pub open spec fn renderer_failure(
    title: Seq<char>,
    kind: Seq<char>,
    chosen: nat,
    entries: Seq<Seq<char>>,
    undated: nat,
    unlinked: Seq<Seq<char>>,
    found: Set<Seq<char>>,
    text: Seq<char>,
) -> Option<Seq<char>> {
    if kind == "timeline"@ {
        if undated > 0 {
            Some(about(title) + "timeline needs date values; "@ + decimal(undated) + " of "@ + decimal(chosen) + " are not dates"@)
        } else {
            None
        }
    } else if kind == "headline"@ {
        if entries.len() < 1 || entries.len() > 4 {
            Some(about(title) + "headline carries one to four values, not "@ + decimal(entries.len()))
        } else {
            None
        }
    } else if kind == "alerts"@ {
        if entries.len() > 0 {
            Some(about(title) + "alerts ranks judgments; "@ + decimal(entries.len()) + " of these are entries"@)
        } else {
            None
        }
    } else if kind == "links"@ {
        if unlinked.len() > 0 {
            Some(about(title) + "links needs a safe url or file: "@ + join(unlinked, ", "@))
        } else {
            None
        }
    } else if kind == "grouped"@ || kind == "fronts"@ {
        if one_group(found) {
            Some(about(title) + "grouped lays groups side by side; these are all one group ("@ + the_group(found) + ")"@)
        } else {
            None
        }
    } else if kind == "axis"@ {
        if trim(text).len() == 0 {
            Some(about(title) + "axis needs a written sequence in text"@)
        } else {
            None
        }
    } else {
        None
    }
}

/// How a section that picks nothing is named: by its title, and on a
/// declared tab by that tab's title too.
pub open spec fn section_name(tab: TabModel, title: Seq<char>) -> Seq<char> {
    if tab.bare {
        "'"@ + title + "'"@
    } else {
        "'"@ + title + "' (tab '"@ + (if tab.title.len() == 0 {
            "?"@
        } else {
            tab.title
        }) + "')"@
    }
}

pub open spec fn optional(o: Option<Seq<char>>) -> Seq<Seq<char>> {
    match o {
        Some(x) => seq![x],
        None => Seq::empty(),
    }
}

/// The failures a section raises, in order: an unknown renderer, what its
/// renderer finds wrong, and a section that picks nothing while it selects
/// or has no text.
pub open spec fn section_failures_spec(
    tab: TabModel,
    sec: SectionModel,
    chosen: Seq<Seq<char>>,
    judgments: Set<Seq<char>>,
    nodes: Seq<(Seq<char>, Model)>,
    links: Seq<(String, Option<String>)>,
    found: Set<Seq<char>>,
) -> Seq<Seq<char>> {
    let title = section_title_spec(sec);
    let kind = section_kind_spec(sec, chosen, judgments);
    let es = entry_ids(chosen, judgments);
    let unknown = if known_renderer(kind) {
        None
    } else {
        Some(about(title) + "unknown renderer '"@ + kind + "'"@)
    };
    let empty = if chosen.len() == 0 && (sec.pick.len() > 0 || sec.text.len() == 0) {
        Some("section "@ + section_name(tab, title) + " picks nothing - it is about something the record no longer holds"@)
    } else {
        None
    };
    optional(unknown) + optional(
        renderer_failure(title, kind, chosen.len(), es, undated(es, nodes), unlinked(es, links), found, sec.text),
    ) + optional(empty)
}

fn char_parts(v: &Vec<String>) -> (r: Vec<Vec<char>>)
    ensures
        char_views(r@) == strings(v@),
{
    let mut out: Vec<Vec<char>> = Vec::new();
    let mut i: usize = 0;
    while i < v.len()
        invariant
            0 <= i <= v.len(),
            out@.len() == i,
            forall|q: int| 0 <= q < i ==> #[trigger] out@[q]@ == v@[q]@,
        decreases v.len() - i,
    {
        out.push(chars_of(v[i].as_str()));
        i = i + 1;
    }
    assert(char_views(out@) =~= strings(v@));
    out
}

/// The title a section is shown under.
pub fn section_title(sec: &Section) -> (r: String)
    ensures
        r@ == section_title_spec(sec@),
{
    if chars_of(sec.title.as_str()).len() == 0 {
        let parts = char_parts(&sec.pick);
        let sep = chars_of(",");
        string_of(&join_with(&parts, &sep))
    } else {
        string_of(&chars_of(sec.title.as_str()))
    }
}

/// The renderer a section uses.
pub fn section_kind(sec: &Section, chosen: &Vec<String>, judgments: &Vec<String>) -> (r: String)
    ensures
        r@ == section_kind_spec(sec@, strings(chosen@), str_set(judgments@)),
{
    if chars_of(sec.kind.as_str()).len() > 0 {
        return string_of(&chars_of(sec.kind.as_str()));
    }
    let mut i: usize = 0;
    while i < chosen.len()
        invariant
            0 <= i <= chosen.len(),
            sec@.kind.len() == 0,
            forall|q: int| 0 <= q < i ==> !str_set(judgments@).contains(#[trigger] strings(chosen@)[q]),
        decreases chosen.len() - i,
    {
        if holds_string(judgments, &chars_of(chosen[i].as_str())) {
            assert(str_set(judgments@).contains(strings(chosen@)[i as int]));
            assert(picks_judgment(strings(chosen@), str_set(judgments@)));
            return string_of(&chars_of("cards"));
        }
        i = i + 1;
    }
    string_of(&chars_of("table"))
}

fn entry_ids_of(chosen: &Vec<String>, judgments: &Vec<String>) -> (r: Vec<String>)
    ensures
        strings(r@) == entry_ids(strings(chosen@), str_set(judgments@)),
{
    let ghost cs = strings(chosen@);
    let ghost js = str_set(judgments@);
    let mut out: Vec<String> = Vec::new();
    let mut i: usize = 0;
    assert(cs.take(0) =~= Seq::<Seq<char>>::empty());
    while i < chosen.len()
        invariant
            0 <= i <= chosen.len(),
            cs == strings(chosen@),
            js == str_set(judgments@),
            strings(out@) == entry_ids(cs.take(i as int), js),
        decreases chosen.len() - i,
    {
        assert(cs.take(i + 1).drop_last() =~= cs.take(i as int));
        assert(cs.take(i + 1).last() == chosen@[i as int]@);
        if !holds_string(judgments, &chars_of(chosen[i].as_str())) {
            let ghost before = out@;
            out.push(string_of(&chars_of(chosen[i].as_str())));
            assert(strings(out@) =~= strings(before).push(chosen@[i as int]@));
        }
        i = i + 1;
    }
    assert(cs.take(chosen.len() as int) =~= cs);
    out
}

fn is_dated(nodes: &Vec<(String, Value)>, id: &str) -> (r: bool)
    ensures
        r == dated(entries(nodes@), id@),
{
    match body(nodes, id) {
        Some(b) => entry_date(b).is_some(),
        None => false,
    }
}

fn undated_count(ids: &Vec<String>, nodes: &Vec<(String, Value)>) -> (r: usize)
    ensures
        r == undated(strings(ids@), entries(nodes@)),
{
    let ghost is = strings(ids@);
    let mut n: usize = 0;
    let mut i: usize = 0;
    assert(is.take(0) =~= Seq::<Seq<char>>::empty());
    while i < ids.len()
        invariant
            0 <= i <= ids.len(),
            is == strings(ids@),
            n == undated(is.take(i as int), entries(nodes@)),
            n <= i,
        decreases ids.len() - i,
    {
        assert(is.take(i + 1).drop_last() =~= is.take(i as int));
        assert(is.take(i + 1).last() == ids@[i as int]@);
        if !is_dated(nodes, ids[i].as_str()) {
            n = n + 1;
        }
        i = i + 1;
    }
    assert(is.take(ids.len() as int) =~= is);
    n
}

fn is_linked(links: &Vec<(String, Option<String>)>, id: &str) -> (r: bool)
    ensures
        r == linked(links@, id@),
{
    let idc = chars_of(id);
    let mut q: usize = 0;
    while q < links.len()
        invariant
            0 <= q <= links.len(),
            idc@ == id@,
            forall|k: int| 0 <= k < q ==> !(#[trigger] links@[k].0@ == id@ && links@[k].1 is Some),
        decreases links.len() - q,
    {
        if links[q].1.is_some() && crate::text::same(&chars_of(links[q].0.as_str()), &idc) {
            return true;
        }
        q = q + 1;
    }
    false
}

fn unlinked_of(ids: &Vec<String>, links: &Vec<(String, Option<String>)>) -> (r: Vec<String>)
    ensures
        strings(r@) == unlinked(strings(ids@), links@),
{
    let ghost is = strings(ids@);
    let mut out: Vec<String> = Vec::new();
    let mut i: usize = 0;
    assert(is.take(0) =~= Seq::<Seq<char>>::empty());
    while i < ids.len()
        invariant
            0 <= i <= ids.len(),
            is == strings(ids@),
            strings(out@) == unlinked(is.take(i as int), links@),
        decreases ids.len() - i,
    {
        assert(is.take(i + 1).drop_last() =~= is.take(i as int));
        assert(is.take(i + 1).last() == ids@[i as int]@);
        if !is_linked(links, ids[i].as_str()) {
            let ghost before = out@;
            out.push(string_of(&chars_of(ids[i].as_str())));
            assert(strings(out@) =~= strings(before).push(ids@[i as int]@));
        }
        i = i + 1;
    }
    assert(is.take(ids.len() as int) =~= is);
    out
}

fn about_of(title: &Vec<char>) -> (r: Vec<char>)
    ensures
        r@ == about(title@),
{
    let mut m = chars_of("section '");
    append(&mut m, title);
    append(&mut m, &chars_of("': "));
    m
}

fn joined(v: &Vec<String>) -> (r: Vec<char>)
    ensures
        r@ == join(strings(v@), ", "@),
{
    let parts = char_parts(v);
    join_with(&parts, &chars_of(", "))
}

fn renderer_failure_of(
    title: &Vec<char>,
    kind: &str,
    chosen: usize,
    es: &Vec<String>,
    undated_n: usize,
    unl: &Vec<String>,
    found: &Vec<String>,
    text: &str,
) -> (r: Option<Vec<char>>)
    ensures
        match r {
            Some(m) => renderer_failure(title@, kind@, chosen as nat, strings(es@), undated_n as nat, strings(unl@), str_set(found@), text@) == Some(m@),
            None => renderer_failure(title@, kind@, chosen as nat, strings(es@), undated_n as nat, strings(unl@), str_set(found@), text@) is None,
        },
{
    let k = chars_of(kind);
    let mut m = about_of(title);
    if crate::text::same(&k, &chars_of("timeline")) {
        if undated_n > 0 {
            append(&mut m, &chars_of("timeline needs date values; "));
            append(&mut m, &decimal_of(undated_n));
            append(&mut m, &chars_of(" of "));
            append(&mut m, &decimal_of(chosen));
            append(&mut m, &chars_of(" are not dates"));
            return Some(m);
        }
        None
    } else if crate::text::same(&k, &chars_of("headline")) {
        if es.len() < 1 || es.len() > 4 {
            append(&mut m, &chars_of("headline carries one to four values, not "));
            append(&mut m, &decimal_of(es.len()));
            return Some(m);
        }
        None
    } else if crate::text::same(&k, &chars_of("alerts")) {
        if es.len() > 0 {
            append(&mut m, &chars_of("alerts ranks judgments; "));
            append(&mut m, &decimal_of(es.len()));
            append(&mut m, &chars_of(" of these are entries"));
            return Some(m);
        }
        None
    } else if crate::text::same(&k, &chars_of("links")) {
        if unl.len() > 0 {
            append(&mut m, &chars_of("links needs a safe url or file: "));
            append(&mut m, &joined(unl));
            return Some(m);
        }
        None
    } else if crate::text::same(&k, &chars_of("grouped")) || crate::text::same(&k, &chars_of("fronts")) {
        let (one, group) = sole_group(found);
        if one {
            append(&mut m, &chars_of("grouped lays groups side by side; these are all one group ("));
            append(&mut m, &group);
            append(&mut m, &chars_of(")"));
            return Some(m);
        }
        None
    } else if crate::text::same(&k, &chars_of("axis")) {
        if trimmed(&chars_of(text)).len() == 0 {
            append(&mut m, &chars_of("axis needs a written sequence in text"));
            return Some(m);
        }
        None
    } else {
        None
    }
}

fn sole_group(found: &Vec<String>) -> (r: (bool, Vec<char>))
    ensures
        r.0 == one_group(str_set(found@)),
        r.0 ==> r.1@ == the_group(str_set(found@)),
{
    if found.len() == 0 {
        assert(!exists|a: Seq<char>| str_set(found@).contains(a));
        return (true, Vec::new());
    }
    let f = chars_of(found[0].as_str());
    let mut i: usize = 1;
    while i < found.len()
        invariant
            1 <= i <= found.len(),
            f@ == found@[0]@,
            forall|q: int| 0 <= q < i ==> #[trigger] found@[q]@ == f@,
        decreases found.len() - i,
    {
        if !crate::text::same(&chars_of(found[i].as_str()), &f) {
            assert(str_set(found@).contains(found@[i as int]@));
            assert(str_set(found@).contains(found@[0]@));
            return (false, f);
        }
        i = i + 1;
    }
    assert forall|a: Seq<char>| str_set(found@).contains(a) implies a == f@ by {
        let q = choose|q: int| 0 <= q < found@.len() && #[trigger] found@[q]@ == a;
    }
    assert(str_set(found@).contains(found@[0]@));
    (true, f)
}

fn is_known_renderer(k: &Vec<char>) -> (r: bool)
    ensures
        r == known_renderer(k@),
{
    crate::text::same(k, &chars_of("table")) || crate::text::same(k, &chars_of("lines"))
        || crate::text::same(k, &chars_of("cards")) || crate::text::same(k, &chars_of("headline"))
        || crate::text::same(k, &chars_of("timeline")) || crate::text::same(k, &chars_of("grouped"))
        || crate::text::same(k, &chars_of("fronts")) || crate::text::same(k, &chars_of("alerts"))
        || crate::text::same(k, &chars_of("axis")) || crate::text::same(k, &chars_of("links"))
}

/// The failures one section of `tab` raises. `chosen` holds the ids its
/// selectors pick, `links` the safe address each node's url or file
/// resolves to (`None` where it has none), and `found` the distinct groups
/// the picked ids fall in.
pub fn section_failures(
    tab: &Tab,
    sec: &Section,
    chosen: &Vec<String>,
    judgments: &Vec<String>,
    nodes: &Vec<(String, Value)>,
    links: &Vec<(String, Option<String>)>,
    found: &Vec<String>,
) -> (r: Vec<String>)
    ensures
        strings(r@) == section_failures_spec(tab@, sec@, strings(chosen@), str_set(judgments@), entries(nodes@), links@, str_set(found@)),
{
    let title = chars_of(section_title(sec).as_str());
    let kind = section_kind(sec, chosen, judgments);
    let kc = chars_of(kind.as_str());
    let es = entry_ids_of(chosen, judgments);
    let mut out: Vec<String> = Vec::new();
    if !is_known_renderer(&kc) {
        let mut m = about_of(&title);
        append(&mut m, &chars_of("unknown renderer '"));
        append(&mut m, &kc);
        append(&mut m, &chars_of("'"));
        out.push(string_of(&m));
    }
    let ghost o1 = strings(out@);
    let n = undated_count(&es, nodes);
    let unl = unlinked_of(&es, links);
    let ghost before2 = out@;
    match renderer_failure_of(&title, kind.as_str(), chosen.len(), &es, n, &unl, found, sec.text.as_str()) {
        Some(m) => out.push(string_of(&m)),
        None => {},
    }
    let ghost o2 = strings(out@);
    let ghost before3 = out@;
    if chosen.len() == 0 && (sec.pick.len() > 0 || chars_of(sec.text.as_str()).len() == 0) {
        let mut m = chars_of("section ");
        let mut name = chars_of("'");
        append(&mut name, &title);
        if tab.bare {
            append(&mut name, &chars_of("'"));
        } else {
            append(&mut name, &chars_of("' (tab '"));
            if chars_of(tab.title.as_str()).len() == 0 {
                append(&mut name, &chars_of("?"));
            } else {
                append(&mut name, &chars_of(tab.title.as_str()));
            }
            append(&mut name, &chars_of("')"));
        }
        append(&mut m, &name);
        append(&mut m, &chars_of(" picks nothing - it is about something the record no longer holds"));
        out.push(string_of(&m));
    }
    proof {
        let cs = strings(chosen@);
        let js = str_set(judgments@);
        let t = section_title_spec(sec@);
        let k = section_kind_spec(sec@, cs, js);
        let ex = entry_ids(cs, js);
        let unknown = if known_renderer(k) {
            None
        } else {
            Some(about(t) + "unknown renderer '"@ + k + "'"@)
        };
        let rf = renderer_failure(t, k, cs.len(), ex, undated(ex, entries(nodes@)), unlinked(ex, links@), str_set(found@), sec@.text);
        let empty = if cs.len() == 0 && (sec@.pick.len() > 0 || sec@.text.len() == 0) {
            Some("section "@ + section_name(tab@, t) + " picks nothing - it is about something the record no longer holds"@)
        } else {
            None
        };
        assert(o1 =~= optional(unknown));
        assert(o2 =~= optional(unknown) + optional(rf));
        assert(strings(out@) =~= optional(unknown) + optional(rf) + optional(empty));
    }
    out
}

/// The page's current shape: how many entries, judgments, flagged and
/// blocked ids it holds.
pub struct Shape {
    pub entries: usize,
    pub judgments: usize,
    pub flagged: usize,
    pub blocked: usize,
}

/// The current count a recorded shape key names, if it names one.
pub open spec fn shape_count(key: Seq<char>, now: Shape) -> Option<nat> {
    if key == "entries"@ {
        Some(now.entries as nat)
    } else if key == "judgments"@ {
        Some(now.judgments as nat)
    } else if key == "flagged"@ {
        Some(now.flagged as nat)
    } else if key == "blocked"@ {
        Some(now.blocked as nat)
    } else {
        None
    }
}

/// Each recorded count that differs from the current one, as
/// `key: old -> now`, in the order recorded.
pub open spec fn shape_moves(shape: Seq<(Seq<char>, Model)>, now: Shape) -> Seq<Seq<char>>
    decreases shape.len(),
{
    if shape.len() == 0 {
        Seq::empty()
    } else {
        let rest = shape_moves(shape.drop_last(), now);
        let (k, old) = shape.last();
        match shape_count(k, now) {
            Some(n) => if textish(old) != decimal(n) {
                rest.push(k + ": "@ + textish(old) + " -> "@ + decimal(n))
            } else {
                rest
            },
            None => rest,
        }
    }
}

/// The note a tab raises when the shape its brief recorded has moved.
pub open spec fn shape_note_spec(tab: TabModel, now: Shape) -> Option<Seq<char>> {
    let moved = shape_moves(tab.shape, now);
    if moved.len() == 0 {
        None
    } else {
        Some(
            (if tab.bare {
                "the brief"@
            } else {
                "tab '"@ + (if tab.title.len() == 0 {
                    "?"@
                } else {
                    tab.title
                }) + "'"@
            }) + " recorded a different shape: "@ + join(moved, "; "@),
        )
    }
}

fn count_of(key: &Vec<char>, now: &Shape) -> (r: Option<usize>)
    ensures
        match r {
            Some(n) => shape_count(key@, *now) == Some(n as nat),
            None => shape_count(key@, *now) is None,
        },
{
    if crate::text::same(key, &chars_of("entries")) {
        Some(now.entries)
    } else if crate::text::same(key, &chars_of("judgments")) {
        Some(now.judgments)
    } else if crate::text::same(key, &chars_of("flagged")) {
        Some(now.flagged)
    } else if crate::text::same(key, &chars_of("blocked")) {
        Some(now.blocked)
    } else {
        None
    }
}

/// The note `tab` raises where the shape its brief recorded differs from
/// the page's shape `now`.
pub fn shape_note(tab: &Tab, now: &Shape) -> (r: Option<String>)
    ensures
        match r {
            Some(m) => shape_note_spec(tab@, *now) == Some(m@),
            None => shape_note_spec(tab@, *now) is None,
        },
{
    let ghost sh = entries(tab.shape@);
    let mut moved: Vec<Vec<char>> = Vec::new();
    let mut i: usize = 0;
    proof {
        crate::value::lemma_entries(tab.shape@);
    }
    assert(sh.take(0) =~= Seq::<(Seq<char>, Model)>::empty());
    assert(char_views(moved@) =~= Seq::<Seq<char>>::empty());
    while i < tab.shape.len()
        invariant
            0 <= i <= tab.shape.len(),
            sh == entries(tab.shape@),
            sh.len() == tab.shape@.len(),
            forall|q: int| 0 <= q < tab.shape@.len() ==> #[trigger] sh[q] == (tab.shape@[q].0@, crate::value::model(tab.shape@[q].1)),
            char_views(moved@) == shape_moves(sh.take(i as int), *now),
        decreases tab.shape.len() - i,
    {
        assert(sh.take(i + 1).drop_last() =~= sh.take(i as int));
        assert(sh.take(i + 1).last() == sh[i as int]);
        let k = chars_of(tab.shape[i].0.as_str());
        match count_of(&k, now) {
            Some(n) => {
                let old = chars_of(textish_of(&tab.shape[i].1).as_str());
                let digits = decimal_of(n);
                if !crate::text::same(&old, &digits) {
                    let mut line = k;
                    append(&mut line, &chars_of(": "));
                    append(&mut line, &old);
                    append(&mut line, &chars_of(" -> "));
                    append(&mut line, &digits);
                    let ghost before = moved@;
                    moved.push(line);
                    assert(char_views(moved@) =~= char_views(before).push(moved@[before.len() as int]@));
                }
            },
            None => {},
        }
        i = i + 1;
    }
    assert(sh.take(tab.shape.len() as int) =~= sh);
    if moved.len() == 0 {
        return None;
    }
    let mut m: Vec<char> = if tab.bare {
        chars_of("the brief")
    } else {
        let mut t = chars_of("tab '");
        let title = chars_of(tab.title.as_str());
        if title.len() == 0 {
            append(&mut t, &chars_of("?"));
        } else {
            append(&mut t, &title);
        }
        append(&mut t, &chars_of("'"));
        t
    };
    append(&mut m, &chars_of(" recorded a different shape: "));
    append(&mut m, &join_with(&moved, &chars_of("; ")));
    Some(string_of(&m))
}

/// Whether one of a section's selectors picks `id`.
pub open spec fn picked(
    sec: SectionModel,
    id: Seq<char>,
    ids: Set<Seq<char>>,
    judgments: Set<Seq<char>>,
    states: Seq<(String, Vec<String>)>,
) -> bool {
    exists|p: int| 0 <= p < sec.pick.len() && #[trigger] selected(sec.pick[p], ids, judgments, states).contains(id)
}

/// The ids of `order` a section's selectors pick together, in that order.
pub open spec fn chosen_spec(
    sec: SectionModel,
    order: Seq<Seq<char>>,
    ids: Set<Seq<char>>,
    judgments: Set<Seq<char>>,
    states: Seq<(String, Vec<String>)>,
) -> Seq<Seq<char>>
    decreases order.len(),
{
    if order.len() == 0 {
        Seq::empty()
    } else {
        let rest = chosen_spec(sec, order.drop_last(), ids, judgments, states);
        if picked(sec, order.last(), ids, judgments, states) {
            rest.push(order.last())
        } else {
            rest
        }
    }
}

/// The groups the ids `chosen` fall in under the scheme `by`.
pub open spec fn found_spec(
    chosen: Seq<Seq<char>>,
    by: Seq<char>,
    schemes: Seq<(Seq<char>, Seq<(Seq<char>, Set<Seq<char>>)>)>,
    nodes: Seq<(Seq<char>, Model)>,
) -> Set<Seq<char>> {
    Set::new(|g: Seq<char>| exists|i: int| 0 <= i < chosen.len() && #[trigger] groups_of_spec(chosen[i], by, schemes, nodes).contains(g))
}

/// The failures the sections `secs` of `tab` raise, in order; each section
/// picks from the record's ids in the record's order.
pub open spec fn tab_failures_spec(
    tab: TabModel,
    secs: Seq<SectionModel>,
    order: Seq<Seq<char>>,
    ids: Set<Seq<char>>,
    judgments: Set<Seq<char>>,
    states: Seq<(String, Vec<String>)>,
    nodes: Seq<(Seq<char>, Model)>,
    links: Seq<(String, Option<String>)>,
    schemes: Seq<(Seq<char>, Seq<(Seq<char>, Set<Seq<char>>)>)>,
) -> Seq<Seq<char>>
    decreases secs.len(),
{
    if secs.len() == 0 {
        Seq::empty()
    } else {
        let sec = secs.last();
        let chosen = chosen_spec(sec, order, ids, judgments, states);
        tab_failures_spec(tab, secs.drop_last(), order, ids, judgments, states, nodes, links, schemes) + section_failures_spec(
            tab,
            sec,
            chosen,
            judgments,
            nodes,
            links,
            found_spec(chosen, sec.by, schemes, nodes),
        )
    }
}

/// The ids a section's selectors pick together, in the order of `ids`.
pub fn section_chosen(sec: &Section, ids: &Vec<String>, judgments: &Vec<String>, states: &Vec<(String, Vec<String>)>) -> (r: Vec<
    String,
>)
    ensures
        strings(r@) == chosen_spec(sec@, strings(ids@), str_set(ids@), str_set(judgments@), states@),
{
    let ghost iset = str_set(ids@);
    let ghost js = str_set(judgments@);
    let mut sels: Vec<Vec<String>> = Vec::new();
    let mut p: usize = 0;
    while p < sec.pick.len()
        invariant
            0 <= p <= sec.pick.len(),
            sels@.len() == p,
            iset == str_set(ids@),
            js == str_set(judgments@),
            forall|q: int| 0 <= q < p ==> #[trigger] str_set(sels@[q]@) == selected(sec@.pick[q], iset, js, states@),
        decreases sec.pick.len() - p,
    {
        let got = select(sec.pick[p].as_str(), ids, judgments, states);
        sels.push(got);
        p = p + 1;
    }
    let ghost order = strings(ids@);
    let mut out: Vec<String> = Vec::new();
    let mut i: usize = 0;
    assert(order.take(0) =~= Seq::<Seq<char>>::empty());
    while i < ids.len()
        invariant
            0 <= i <= ids.len(),
            order == strings(ids@),
            sels@.len() == sec.pick@.len(),
            iset == str_set(ids@),
            js == str_set(judgments@),
            forall|q: int| 0 <= q < sels@.len() ==> #[trigger] str_set(sels@[q]@) == selected(sec@.pick[q], iset, js, states@),
            strings(out@) == chosen_spec(sec@, order.take(i as int), iset, js, states@),
        decreases ids.len() - i,
    {
        assert(order.take(i + 1).drop_last() =~= order.take(i as int));
        let ghost id = order[i as int];
        assert(order.take(i + 1).last() == id);
        let idc = chars_of(ids[i].as_str());
        let mut q: usize = 0;
        let mut any = false;
        while q < sels.len()
            invariant
                0 <= q <= sels.len(),
                idc@ == id,
                sels@.len() == sec.pick@.len(),
                forall|k: int| 0 <= k < sels@.len() ==> #[trigger] str_set(sels@[k]@) == selected(sec@.pick[k], iset, js, states@),
                !any ==> forall|k: int| 0 <= k < q ==> !#[trigger] selected(sec@.pick[k], iset, js, states@).contains(id),
                any ==> picked(sec@, id, iset, js, states@),
            decreases sels.len() - q,
        {
            if !any && holds_string(&sels[q], &idc) {
                any = true;
                assert(selected(sec@.pick[q as int], iset, js, states@).contains(id));
            }
            q = q + 1;
        }
        if any {
            let ghost before = out@;
            out.push(string_of(&idc));
            assert(strings(out@) =~= strings(before).push(id));
        }
        i = i + 1;
    }
    assert(order.take(ids.len() as int) =~= order);
    out
}

/// The groups the ids `chosen` fall in under the scheme `by`.
pub fn found_groups(
    chosen: &Vec<String>,
    by: &str,
    schemes: &Vec<(String, Vec<(String, Vec<String>)>)>,
    nodes: &Vec<(String, Value)>,
) -> (r: Vec<String>)
    ensures
        str_set(r@) == found_spec(strings(chosen@), by@, groups_view(schemes@), entries(nodes@)),
{
    let ghost cs = strings(chosen@);
    let ghost gv = groups_view(schemes@);
    let ghost ns = entries(nodes@);
    let mut out: Vec<String> = Vec::new();
    let mut i: usize = 0;
    assert(str_set(out@) =~= found_spec(cs.take(0), by@, gv, ns));
    while i < chosen.len()
        invariant
            0 <= i <= chosen.len(),
            cs == strings(chosen@),
            gv == groups_view(schemes@),
            ns == entries(nodes@),
            str_set(out@) == found_spec(cs.take(i as int), by@, gv, ns),
        decreases chosen.len() - i,
    {
        let gs = groups_of(chosen[i].as_str(), by, schemes, nodes);
        let ghost before = out@;
        let mut j: usize = 0;
        while j < gs.len()
            invariant
                0 <= j <= gs.len(),
                out@.len() == before.len() + j,
                forall|k: int| 0 <= k < before.len() ==> #[trigger] out@[k]@ == before[k]@,
                forall|k: int| 0 <= k < j ==> #[trigger] out@[before.len() + k]@ == gs@[k]@,
            decreases gs.len() - j,
        {
            out.push(string_of(&chars_of(gs[j].as_str())));
            j = j + 1;
        }
        proof {
            let old_set = found_spec(cs.take(i as int), by@, gv, ns);
            let new_set = found_spec(cs.take(i + 1), by@, gv, ns);
            let here = groups_of_spec(cs[i as int], by@, gv, ns);
            assert(here == strings(gs@));
            assert forall|g: Seq<char>| #[trigger] str_set(out@).contains(g) <==> new_set.contains(g) by {
                if str_set(out@).contains(g) {
                    let k = choose|k: int| 0 <= k < out@.len() && #[trigger] out@[k]@ == g;
                    if k < before.len() {
                        assert(before[k]@ == g);
                        assert(str_set(before).contains(g));
                        let w = choose|w: int| 0 <= w < cs.take(i as int).len() && #[trigger] groups_of_spec(cs.take(i as int)[w], by@, gv, ns).contains(g);
                        assert(cs.take(i + 1)[w] == cs.take(i as int)[w]);
                    } else {
                        assert(out@[before.len() + (k - before.len())]@ == gs@[k - before.len()]@);
                        assert(here[k - before.len()] == g);
                        assert(cs.take(i + 1)[i as int] == cs[i as int]);
                        assert(groups_of_spec(cs.take(i + 1)[i as int], by@, gv, ns).contains(g));
                    }
                }
                if new_set.contains(g) {
                    let w = choose|w: int| 0 <= w < cs.take(i + 1).len() && #[trigger] groups_of_spec(cs.take(i + 1)[w], by@, gv, ns).contains(g);
                    if w < i {
                        assert(cs.take(i as int)[w] == cs.take(i + 1)[w]);
                        assert(old_set.contains(g));
                        let k = choose|k: int| 0 <= k < before.len() && #[trigger] before[k]@ == g;
                        assert(out@[k]@ == before[k]@);
                    } else {
                        assert(cs.take(i + 1)[w] == cs[i as int]);
                        let k = choose|k: int| 0 <= k < here.len() && #[trigger] here[k] == g;
                        assert(out@[before.len() + k]@ == gs@[k]@);
                    }
                }
            }
            assert(str_set(out@) =~= new_set);
        }
        i = i + 1;
    }
    assert(cs.take(chosen.len() as int) =~= cs);
    out
}

/// The failures the sections of `tab` raise, in order: what each section's
/// selectors pick from `ids` (in that order) held to its renderer. `links`
/// gives the safe address each node's url or file resolves to, and
/// `schemes` the brief's declared groups.
pub fn tab_failures(
    tab: &Tab,
    ids: &Vec<String>,
    judgments: &Vec<String>,
    states: &Vec<(String, Vec<String>)>,
    nodes: &Vec<(String, Value)>,
    links: &Vec<(String, Option<String>)>,
    schemes: &Vec<(String, Vec<(String, Vec<String>)>)>,
) -> (r: Vec<String>)
    ensures
        strings(r@) == tab_failures_spec(
            tab@,
            tab@.sections,
            strings(ids@),
            str_set(ids@),
            str_set(judgments@),
            states@,
            entries(nodes@),
            links@,
            groups_view(schemes@),
        ),
{
    let ghost secs = tab@.sections;
    let mut out: Vec<String> = Vec::new();
    let mut s: usize = 0;
    assert(secs.take(0) =~= Seq::<SectionModel>::empty());
    while s < tab.sections.len()
        invariant
            0 <= s <= tab.sections.len(),
            secs == tab@.sections,
            secs.len() == tab.sections@.len(),
            strings(out@) == tab_failures_spec(
                tab@,
                secs.take(s as int),
                strings(ids@),
                str_set(ids@),
                str_set(judgments@),
                states@,
                entries(nodes@),
                links@,
                groups_view(schemes@),
            ),
        decreases tab.sections.len() - s,
    {
        assert(secs.take(s + 1).drop_last() =~= secs.take(s as int));
        assert(secs.take(s + 1).last() == tab.sections@[s as int]@);
        let sec = &tab.sections[s];
        let chosen = section_chosen(sec, ids, judgments, states);
        let found = found_groups(&chosen, sec.by.as_str(), schemes, nodes);
        let fs = section_failures(tab, sec, &chosen, judgments, nodes, links, &found);
        let ghost before = out@;
        let mut j: usize = 0;
        while j < fs.len()
            invariant
                0 <= j <= fs.len(),
                strings(out@) == strings(before) + strings(fs@).take(j as int),
            decreases fs.len() - j,
        {
            let ghost b2 = out@;
            out.push(string_of(&chars_of(fs[j].as_str())));
            assert(strings(fs@).take(j + 1) =~= strings(fs@).take(j as int).push(fs@[j as int]@));
            assert(strings(out@) =~= strings(b2).push(fs@[j as int]@));
            j = j + 1;
        }
        assert(strings(fs@).take(fs.len() as int) =~= strings(fs@));
        s = s + 1;
    }
    assert(secs.take(tab.sections.len() as int) =~= secs);
    out
}

/// How many ids are entries: neither judgments nor the reader's own counters.
pub open spec fn entry_count(ids: Seq<Seq<char>>, judgments: Set<Seq<char>>) -> nat
    decreases ids.len(),
{
    if ids.len() == 0 {
        0
    } else {
        entry_count(ids.drop_last(), judgments) + if !judgments.contains(ids.last()) && !crate::fields::builtin(ids.last()) {
            1nat
        } else {
            0nat
        }
    }
}

/// How many judgments carry a flag, or carry the flag `blocked`.
pub open spec fn flag_count(states: Seq<(String, Vec<String>)>, blocked_only: bool) -> nat
    decreases states.len(),
{
    if states.len() == 0 {
        0
    } else {
        let fs = states.last().1@;
        flag_count(states.drop_last(), blocked_only) + if (if blocked_only {
            str_set(fs).contains("blocked"@)
        } else {
            fs.len() > 0
        }) {
            1nat
        } else {
            0nat
        }
    }
}

fn flags_counted(states: &Vec<(String, Vec<String>)>, blocked_only: bool) -> (r: usize)
    ensures
        r == flag_count(states@, blocked_only),
{
    let mut n: usize = 0;
    let mut i: usize = 0;
    assert(states@.take(0) =~= Seq::<(String, Vec<String>)>::empty());
    while i < states.len()
        invariant
            0 <= i <= states.len(),
            n == flag_count(states@.take(i as int), blocked_only),
            n <= i,
        decreases states.len() - i,
    {
        assert(states@.take(i + 1).drop_last() =~= states@.take(i as int));
        assert(states@.take(i + 1).last() == states@[i as int]);
        let hit = if blocked_only {
            holds_string(&states[i].1, &chars_of("blocked"))
        } else {
            states[i].1.len() > 0
        };
        if hit {
            n = n + 1;
        }
        i = i + 1;
    }
    assert(states@.take(states.len() as int) =~= states@);
    n
}

/// The page's current shape: its entries (neither judgments nor the
/// reader's own counters), its judgments, and how many judgments are
/// flagged and blocked.
pub fn page_shape(ids: &Vec<String>, judgments: &Vec<String>, states: &Vec<(String, Vec<String>)>) -> (r: Shape)
    ensures
        r.entries == entry_count(strings(ids@), str_set(judgments@)),
        r.judgments == judgments@.len(),
        r.flagged == flag_count(states@, false),
        r.blocked == flag_count(states@, true),
{
    let ghost is = strings(ids@);
    let mut n: usize = 0;
    let mut i: usize = 0;
    assert(is.take(0) =~= Seq::<Seq<char>>::empty());
    while i < ids.len()
        invariant
            0 <= i <= ids.len(),
            is == strings(ids@),
            n == entry_count(is.take(i as int), str_set(judgments@)),
            n <= i,
        decreases ids.len() - i,
    {
        assert(is.take(i + 1).drop_last() =~= is.take(i as int));
        assert(is.take(i + 1).last() == ids@[i as int]@);
        if !holds_string(judgments, &chars_of(ids[i].as_str())) && !crate::fields::is_builtin(ids[i].as_str()) {
            n = n + 1;
        }
        i = i + 1;
    }
    assert(is.take(ids.len() as int) =~= is);
    Shape {
        entries: n,
        judgments: judgments.len(),
        flagged: flags_counted(states, false),
        blocked: flags_counted(states, true),
    }
}

} // verus!
