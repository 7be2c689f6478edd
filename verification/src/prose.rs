//! How a page words a record: reasoning cut to fit a card, the headings of
//! the record's id prefixes, and the navigation between its groups.
use vstd::prelude::*;
use crate::explain::{lemma_first_fewer, ranked};
use crate::page::{decimal, decimal_of, esc, esc_spec, strings};
use crate::tally::{add_key, add_sorted, lemma_add_key_sorted, sorted_names};
use crate::text::{append, char_views, chars_of, first_at, join, join_with, position_of, same, slice_range, string_of};
use crate::value::{Model, Value, entries, field, field_of, get, lookup};
use crate::wording::{Breaks, words, words_of};

verus! {

broadcast use vstd::std_specs::vec::group_vec_axioms;

/// How many characters a card carries.
pub const CARD_CHARS: usize = 400;

/// Where `p` last stands in `s`, if it does.
pub open spec fn last_at(s: Seq<char>, p: Seq<char>) -> Option<int>
    decreases s.len(),
{
    if s.len() < p.len() {
        None
    } else if s.skip(s.len() - p.len()) == p {
        Some(s.len() - p.len())
    } else if s.len() == 0 {
        None
    } else {
        last_at(s.drop_last(), p)
    }
}

/// `a` stands later than `b`, where a place that is absent stands first.
pub open spec fn later(a: Option<int>, b: Option<int>) -> bool {
    match (a, b) {
        (Some(x), Some(y)) => x > y,
        (Some(_), None) => true,
        _ => false,
    }
}

pub open spec fn mark(c: char) -> bool {
    c == ' ' || c == ',' || c == ';' || c == ':' || c == '-'
}

/// A text without the spaces and punctuation that end it.
pub open spec fn trim_marks(s: Seq<char>) -> Seq<char>
    decreases s.len(),
{
    if s.len() > 0 && mark(s.last()) {
        trim_marks(s.drop_last())
    } else {
        s
    }
}

/// Reasoning as a card carries it: whole where it fits, else cut before its
/// 400th character, before a reference it would break, at its last word
/// when that keeps more than half, and marked as cut.
pub open spec fn clipped(v: Seq<char>) -> Seq<char> {
    if v.len() <= 400 {
        v
    } else {
        let cut0 = v.take(399);
        let cut1 = if later(last_at(cut0, "{{"@), last_at(cut0, "}}"@)) {
            cut0.take(last_at(cut0, "{{"@)->Some_0)
        } else {
            cut0
        };
        let cut2 = match last_at(cut1, " "@) {
            Some(sp) => if sp > 200 {
                cut1.take(sp)
            } else {
                cut1
            },
            None => cut1,
        };
        trim_marks(cut2) + "…"@
    }
}

proof fn lemma_last_at(s: Seq<char>, p: Seq<char>, i: int)
    requires
        p.len() > 0,
        -1 <= i,
        i >= 0 ==> i <= s.len() - p.len() && s.subrange(i, i + p.len()) == p,
        forall|j: int| i < j <= s.len() - p.len() ==> #[trigger] s.subrange(j, j + p.len()) != p,
    ensures
        last_at(s, p) == if i >= 0 {
            Some(i)
        } else {
            None::<int>
        },
    decreases s.len(),
{
    if s.len() >= p.len() {
        let top = s.len() - p.len();
        assert(s.skip(top) =~= s.subrange(top, top + p.len()));
        if i < top {
            assert(s.subrange(top, top + p.len()) != p);
            let d = s.drop_last();
            assert forall|j: int| i < j <= d.len() - p.len() implies #[trigger] d.subrange(j, j + p.len()) != p by {
                assert(d.subrange(j, j + p.len()) =~= s.subrange(j, j + p.len()));
            }
            if i >= 0 {
                assert(d.subrange(i, i + p.len()) =~= s.subrange(i, i + p.len()));
            }
            lemma_last_at(d, p, i);
        }
    }
}

/// Where `p` last stands in `s` (`str::rfind`), for a non-empty `p`.
fn last_index(s: &[char], p: &[char]) -> (r: Option<usize>)
    requires
        p@.len() > 0,
    ensures
        match r {
            Some(i) => last_at(s@, p@) == Some(i as int) && i + p@.len() <= s@.len(),
            None => last_at(s@, p@) is None,
        },
{
    if p.len() > s.len() {
        proof {
            lemma_last_at(s@, p@, -1);
        }
        return None;
    }
    let mut i: usize = s.len() - p.len() + 1;
    while i > 0
        invariant
            p@.len() > 0,
            p@.len() <= s@.len(),
            0 <= i <= s@.len() - p@.len() + 1,
            forall|j: int| i <= j <= s@.len() - p@.len() ==> #[trigger] s@.subrange(j, j + p@.len()) != p@,
        decreases i,
    {
        let start = i - 1;
        let sl = s.len();
        let pl = p.len();
        assert(start + pl <= sl);
        let end = start + pl;
        let piece = slice_range(s, start, end);
        if same(&piece, p) {
            proof {
                lemma_last_at(s@, p@, i - 1);
            }
            return Some(i - 1);
        }
        i = i - 1;
    }
    proof {
        lemma_last_at(s@, p@, -1);
    }
    None
}

fn trimmed_marks(s: &Vec<char>) -> (r: Vec<char>)
    ensures
        r@ == trim_marks(s@),
{
    let mut n: usize = s.len();
    assert(s@.take(n as int) =~= s@);
    while n > 0 && (s[n - 1] == ' ' || s[n - 1] == ',' || s[n - 1] == ';' || s[n - 1] == ':' || s[n - 1] == '-')
        invariant
            0 <= n <= s@.len(),
            trim_marks(s@) == trim_marks(s@.take(n as int)),
        decreases n,
    {
        proof {
            assert(s@.take(n as int).drop_last() =~= s@.take(n - 1));
        }
        n = n - 1;
    }
    proof {
        assert(s@.take(n as int) =~= s@.subrange(0, n as int));
    }
    slice_range(s, 0, n)
}

/// Reasoning as a card carries it, cut and marked where it is too long.
pub fn clipped_reasoning(value: &str) -> (r: String)
    ensures
        r@ == clipped(value@),
{
    let v = chars_of(value);
    if v.len() <= CARD_CHARS {
        return string_of(&v);
    }
    proof {
        reveal_strlit("{{");
        reveal_strlit("}}");
        reveal_strlit(" ");
    }
    let cut0 = slice_range(&v, 0, CARD_CHARS - 1);
    assert(cut0@ =~= v@.take(399));
    let open = last_index(&cut0, &chars_of("{{"));
    let close = last_index(&cut0, &chars_of("}}"));
    let later_open = match (open, close) {
        (Some(a), Some(b)) => a > b,
        (Some(_), None) => true,
        _ => false,
    };
    let cut1 = match open {
        Some(a) => if later_open {
            slice_range(&cut0, 0, a)
        } else {
            slice_range(&cut0, 0, cut0.len())
        },
        None => slice_range(&cut0, 0, cut0.len()),
    };
    proof {
        assert(cut0@.subrange(0, cut0@.len() as int) =~= cut0@);
        if let Some(a) = open {
            assert(cut0@.subrange(0, a as int) =~= cut0@.take(a as int));
        }
    }
    let cut2 = match last_index(&cut1, &chars_of(" ")) {
        Some(sp) => if sp > CARD_CHARS / 2 {
            slice_range(&cut1, 0, sp)
        } else {
            slice_range(&cut1, 0, cut1.len())
        },
        None => slice_range(&cut1, 0, cut1.len()),
    };
    proof {
        assert(cut1@.subrange(0, cut1@.len() as int) =~= cut1@);
        if let Some(sp) = last_at(cut1@, " "@) {
            assert(cut1@.subrange(0, sp) =~= cut1@.take(sp));
        }
    }
    let mut out = trimmed_marks(&cut2);
    append(&mut out, &chars_of("…"));
    string_of(&out)
}


/// The word a record's `meta.prefixes` gives a prefix, its whitespace closed
/// up, where it gives a non-empty text.
pub open spec fn prefix_word(prefix: Seq<char>, meta: Seq<(Seq<char>, Model)>) -> Option<Seq<char>> {
    let given = match lookup(meta, "prefixes"@) {
        Some(m) => field_of(m, prefix),
        None => Model::Null,
    };
    match given {
        Model::Text(t) => {
            let w = join(words(t, Breaks::Spaces), " "@);
            if w.len() > 0 {
                Some(w)
            } else {
                None
            }
        },
        _ => None,
    }
}

/// A prefix's heading: a hover title naming the prefix and the word for it,
/// cut to 40 characters; or, with no word, the prefix itself.
pub open spec fn heading(prefix: Seq<char>, meta: Seq<(Seq<char>, Model)>) -> (Seq<char>, Seq<char>) {
    match prefix_word(prefix, meta) {
        Some(w) => (
            " title=\""@ + esc_spec(prefix, true) + ".\""@,
            esc_spec(
                if w.len() > 40 {
                    w.take(39) + "…"@
                } else {
                    w
                },
                false,
            ),
        ),
        None => (Seq::empty(), esc_spec(prefix, false)),
    }
}

/// The heading of a group of a record's entries: the hover text and the
/// word shown for its prefix.
pub fn prefix_heading(prefix: &str, meta: &Vec<(String, Value)>) -> (r: (String, String))
    ensures
        (r.0@, r.1@) == heading(prefix@, entries(meta@)),
{
    let given: Option<&Value> = match get(meta, "prefixes") {
        Some(m) => field(m, prefix),
        None => None,
    };
    let word: Option<Vec<char>> = match given {
        Some(Value::Text(t)) => {
            let w = join_with(&words_of(&chars_of(t.as_str()), Breaks::Spaces), &chars_of(" "));
            if w.len() > 0 {
                Some(w)
            } else {
                None
            }
        },
        _ => None,
    };
    proof {
        match lookup(entries(meta@), "prefixes"@) {
            Some(m) => {
                if given is None {
                    assert(field_of(m, prefix@) == Model::Null);
                }
            },
            None => {},
        }
    }
    match word {
        Some(w) => {
            let shown = if w.len() > 40 {
                let mut c = slice_range(&w, 0, 39);
                append(&mut c, &chars_of("…"));
                c
            } else {
                slice_range(&w, 0, w.len())
            };
            proof {
                assert(w@.subrange(0, 39) =~= w@.take(39));
                assert(w@.subrange(0, w@.len() as int) =~= w@);
            }
            let mut hover = chars_of(" title=\"");
            append(&mut hover, &chars_of(esc(prefix, true).as_str()));
            append(&mut hover, &chars_of(".\""));
            (string_of(&hover), esc(string_of(&shown).as_str(), false))
        },
        None => (String::new(), esc(prefix, false)),
    }
}


/// The prefix of an id: what stands before its first dot, or "-".
pub open spec fn prefix_of(id: Seq<char>) -> Seq<char> {
    match first_at(id, '.') {
        Some(i) => id.take(i),
        None => "-"@,
    }
}

/// The ids that are not judgments, in order.
pub open spec fn loose(ids: Seq<Seq<char>>, judgments: Seq<Seq<char>>) -> Seq<Seq<char>>
    decreases ids.len(),
{
    if ids.len() == 0 {
        Seq::empty()
    } else {
        let p = loose(ids.drop_last(), judgments);
        if judgments.contains(ids.last()) {
            p
        } else {
            p.push(ids.last())
        }
    }
}

/// The prefixes of some ids, each once, in sorted order.
pub open spec fn prefixes(ls: Seq<Seq<char>>) -> Seq<Seq<char>>
    decreases ls.len(),
{
    if ls.len() == 0 {
        Seq::empty()
    } else {
        add_key(prefixes(ls.drop_last()), prefix_of(ls.last()))
    }
}

/// The ids under a prefix, in order.
pub open spec fn under(ls: Seq<Seq<char>>, p: Seq<char>) -> Seq<Seq<char>>
    decreases ls.len(),
{
    if ls.len() == 0 {
        Seq::empty()
    } else {
        let q = under(ls.drop_last(), p);
        if prefix_of(ls.last()) == p {
            q.push(ls.last())
        } else {
            q
        }
    }
}

/// Each of the prefixes `ps` with the ids under it.
pub open spec fn grouped(ps: Seq<Seq<char>>, ls: Seq<Seq<char>>) -> Seq<(Seq<char>, Seq<Seq<char>>)>
    decreases ps.len(),
{
    if ps.len() == 0 {
        Seq::empty()
    } else {
        grouped(ps.drop_last(), ls).push((ps.last(), under(ls, ps.last())))
    }
}

/// The groups of a record's entries that are not judgments: one for each
/// prefix, the largest first, and groups as large in the order of their
/// prefixes.
pub open spec fn groups_spec(ids: Seq<Seq<char>>, judgments: Seq<Seq<char>>) -> Seq<(Seq<char>, Seq<Seq<char>>)> {
    let ls = loose(ids, judgments);
    ranked(grouped(prefixes(ls), ls))
}

pub open spec fn group_view(g: (String, Vec<String>)) -> (Seq<char>, Seq<Seq<char>>) {
    (g.0@, strings(g.1@))
}

pub open spec fn groups_view(gs: Seq<(String, Vec<String>)>) -> Seq<(Seq<char>, Seq<Seq<char>>)> {
    gs.map_values(|g: (String, Vec<String>)| group_view(g))
}

fn prefix_text(id: &[char]) -> (r: Vec<char>)
    ensures
        r@ == prefix_of(id@),
{
    match position_of(id, '.') {
        Some(i) => {
            let p = slice_range(id, 0, i);
            assert(p@ =~= id@.take(i as int));
            p
        },
        None => chars_of("-"),
    }
}

fn listed(names: &Vec<String>, k: &String) -> (r: bool)
    ensures
        r == strings(names@).contains(k@),
{
    let mut i: usize = 0;
    while i < names.len()
        invariant
            0 <= i <= names.len(),
            forall|j: int| 0 <= j < i ==> #[trigger] names@[j]@ != k@,
        decreases names.len() - i,
    {
        if same(&chars_of(names[i].as_str()), &chars_of(k.as_str())) {
            assert(strings(names@)[i as int] == k@);
            return true;
        }
        i = i + 1;
    }
    proof {
        if strings(names@).contains(k@) {
            let j = choose|j: int| 0 <= j < strings(names@).len() && strings(names@)[j] == k@;
            assert(names@[j]@ == k@);
        }
    }
    false
}

/// The groups of a record's entries that are not judgments, by prefix, the
/// largest first. `ids` are the record's ids in sorted order.
pub fn record_groups(ids: &Vec<String>, judgments: &Vec<String>) -> (r: Vec<(String, Vec<String>)>)
    ensures
        groups_view(r@) == groups_spec(strings(ids@), strings(judgments@)),
{
    let ghost iv = strings(ids@);
    let ghost jv = strings(judgments@);
    let mut ls: Vec<String> = Vec::new();
    let mut i: usize = 0;
    while i < ids.len()
        invariant
            0 <= i <= ids.len(),
            iv == strings(ids@),
            jv == strings(judgments@),
            strings(ls@) == loose(iv.take(i as int), jv),
        decreases ids.len() - i,
    {
        proof {
            assert(iv.take(i + 1).drop_last() =~= iv.take(i as int));
            assert(iv.take(i + 1).last() == ids@[i as int]@);
        }
        if !listed(judgments, &ids[i]) {
            let ghost before = ls@;
            ls.push(string_of(&chars_of(ids[i].as_str())));
            proof {
                assert(strings(ls@) =~= strings(before).push(ids@[i as int]@));
            }
        }
        i = i + 1;
    }
    proof {
        assert(iv.take(ids.len() as int) =~= iv);
    }
    let ghost lv = strings(ls@);
    let mut keys: Vec<Vec<char>> = Vec::new();
    let mut k: usize = 0;
    while k < ls.len()
        invariant
            0 <= k <= ls.len(),
            lv == strings(ls@),
            char_views(keys@) == prefixes(lv.take(k as int)),
        decreases ls.len() - k,
    {
        proof {
            assert(lv.take(k + 1).drop_last() =~= lv.take(k as int));
            assert(lv.take(k + 1).last() == ls@[k as int]@);
        }
        add_sorted(&mut keys, &prefix_text(&chars_of(ls[k].as_str())));
        k = k + 1;
    }
    proof {
        assert(lv.take(ls.len() as int) =~= lv);
    }
    let ghost kv = char_views(keys@);
    let mut groups: Vec<(String, Vec<String>)> = Vec::new();
    let mut g: usize = 0;
    while g < keys.len()
        invariant
            0 <= g <= keys.len(),
            lv == strings(ls@),
            kv == char_views(keys@),
            groups_view(groups@) == grouped(kv.take(g as int), lv),
        decreases keys.len() - g,
    {
        let mut members: Vec<String> = Vec::new();
        let mut m: usize = 0;
        while m < ls.len()
            invariant
                0 <= m <= ls.len(),
                g < keys@.len(),
                lv == strings(ls@),
                strings(members@) == under(lv.take(m as int), keys@[g as int]@),
            decreases ls.len() - m,
        {
            proof {
                assert(lv.take(m + 1).drop_last() =~= lv.take(m as int));
                assert(lv.take(m + 1).last() == ls@[m as int]@);
            }
            if same(&prefix_text(&chars_of(ls[m].as_str())), &keys[g]) {
                let ghost before = members@;
                members.push(string_of(&chars_of(ls[m].as_str())));
                proof {
                    assert(strings(members@) =~= strings(before).push(ls@[m as int]@));
                }
            }
            m = m + 1;
        }
        proof {
            assert(lv.take(ls.len() as int) =~= lv);
            assert(kv.take(g + 1).drop_last() =~= kv.take(g as int));
            assert(kv[g as int] == keys@[g as int]@);
        }
        let ghost before = groups@;
        groups.push((string_of(&keys[g]), members));
        proof {
            assert(groups_view(groups@) =~= groups_view(before).push((kv[g as int], under(lv, kv[g as int]))));
        }
        g = g + 1;
    }
    proof {
        assert(kv.take(keys.len() as int) =~= kv);
    }
    rank_groups(groups)
}

fn rank_groups(m: Vec<(String, Vec<String>)>) -> (r: Vec<(String, Vec<String>)>)
    ensures
        groups_view(r@) == ranked(groups_view(m@)),
{
    let ghost mv = groups_view(m@);
    let mut rest = m;
    let total = rest.len();
    let mut out: Vec<(String, Vec<String>)> = Vec::new();
    let mut i: usize = 0;
    while rest.len() > 0
        invariant
            0 <= i <= mv.len(),
            mv.len() == total,
            groups_view(rest@) == mv.skip(i as int),
            groups_view(out@) == ranked(mv.take(i as int)),
        decreases rest.len(),
    {
        let ghost rv = groups_view(rest@);
        let x = rest.remove(0);
        proof {
            assert(rv[0] == group_view(x));
            assert(groups_view(rest@) =~= rv.drop_first());
            assert(mv.skip(i as int)[0] == mv[i as int]);
            assert(mv.skip(i + 1) =~= mv.skip(i as int).drop_first());
            assert(mv.take(i + 1).drop_last() =~= mv.take(i as int));
            assert(mv.take(i + 1).last() == mv[i as int]);
        }
        let n = x.1.len();
        let ghost ov = groups_view(out@);
        let mut p: usize = 0;
        while p < out.len() && out[p].1.len() >= n
            invariant
                0 <= p <= out.len(),
                ov == groups_view(out@),
                ov.len() == out@.len(),
                n == x.1@.len(),
                forall|q: int| 0 <= q < p ==> (#[trigger] ov[q]).1.len() >= n,
            decreases out.len() - p,
        {
            assert(ov[p as int].1.len() == out@[p as int].1@.len());
            p = p + 1;
        }
        proof {
            if p < out.len() {
                assert(ov[p as int].1.len() == out@[p as int].1@.len());
            }
            lemma_first_fewer(ov, n as nat, p as int);
        }
        out.insert(p, x);
        proof {
            assert(groups_view(out@) =~= ov.insert(p as int, mv[i as int]));
        }
        i = i + 1;
    }
    proof {
        assert(mv.take(i as int) =~= mv);
    }
    out
}

/// One link of a record's navigation: to a group, under its heading, with
/// how many entries it holds.
pub open spec fn nav_link(g: (Seq<char>, Seq<Seq<char>>), meta: Seq<(Seq<char>, Model)>) -> Seq<char> {
    let (hover, word) = heading(g.0, meta);
    "<a href=\"#g-"@ + esc_spec(g.0, true) + "\""@ + hover + ">"@ + word + " ("@ + decimal(g.1.len()) + ")</a>"@
}

pub open spec fn nav_links(gs: Seq<(Seq<char>, Seq<Seq<char>>)>, meta: Seq<(Seq<char>, Model)>) -> Seq<char>
    decreases gs.len(),
{
    if gs.len() == 0 {
        Seq::empty()
    } else {
        nav_links(gs.drop_last(), meta) + nav_link(gs.last(), meta)
    }
}

/// The navigation between a record's groups of entries.
pub open spec fn nav_spec(ids: Seq<Seq<char>>, judgments: Seq<Seq<char>>, meta: Seq<(Seq<char>, Model)>) -> Seq<char> {
    "<nav class=\"ns\" dir=\"ltr\">"@ + nav_links(groups_spec(ids, judgments), meta) + "</nav>"@
}

/// The navigation between a record's groups of entries, the largest first.
pub fn record_nav(ids: &Vec<String>, judgments: &Vec<String>, meta: &Vec<(String, Value)>) -> (r: String)
    ensures
        r@ == nav_spec(strings(ids@), strings(judgments@), entries(meta@)),
{
    let groups = record_groups(ids, judgments);
    let ghost gv = groups_view(groups@);
    let mut out = chars_of("<nav class=\"ns\" dir=\"ltr\">");
    let ghost start = out@;
    let mut i: usize = 0;
    while i < groups.len()
        invariant
            0 <= i <= groups.len(),
            gv == groups_view(groups@),
            out@ == start + nav_links(gv.take(i as int), entries(meta@)),
        decreases groups.len() - i,
    {
        proof {
            assert(gv.take(i + 1).drop_last() =~= gv.take(i as int));
            assert(gv.take(i + 1).last() == gv[i as int]);
            assert(gv[i as int] == group_view(groups@[i as int]));
        }
        let (hover, word) = prefix_heading(groups[i].0.as_str(), meta);
        let mut link = chars_of("<a href=\"#g-");
        append(&mut link, &chars_of(esc(groups[i].0.as_str(), true).as_str()));
        append(&mut link, &chars_of("\""));
        append(&mut link, &chars_of(hover.as_str()));
        append(&mut link, &chars_of(">"));
        append(&mut link, &chars_of(word.as_str()));
        append(&mut link, &chars_of(" ("));
        append(&mut link, &decimal_of(groups[i].1.len()));
        append(&mut link, &chars_of(")</a>"));
        let ghost before = out@;
        append(&mut out, &link);
        proof {
            assert(link@ =~= nav_link(gv[i as int], entries(meta@)));
            assert(out@ =~= before + link@);
        }
        i = i + 1;
    }
    proof {
        assert(gv.take(groups.len() as int) =~= gv);
    }
    append(&mut out, &chars_of("</nav>"));
    string_of(&out)
}


/// A record's groups are named each once, in sorted order, before they are
/// ranked by size.
pub proof fn lemma_prefixes_sorted(ls: Seq<Seq<char>>)
    ensures
        sorted_names(prefixes(ls)),
    decreases ls.len(),
{
    if ls.len() > 0 {
        lemma_prefixes_sorted(ls.drop_last());
        lemma_add_key_sorted(prefixes(ls.drop_last()), prefix_of(ls.last()));
    }
}
} // verus!
