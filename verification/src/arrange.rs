//! The arrangement decisions a page's brief is held against: which tabs each
//! arrangement owns, the failures where the brief does not serve what was
//! decided, and the notes where it arranges what nobody decided.
use vstd::prelude::*;
use crate::page::{Tab, TabModel, holds_string, str_set, strings, tab_views};
use crate::text::{append, chars_of, char_views, join, join_with, string_of};
use crate::checks::{Shape, shape_note, shape_note_spec, tab_failures, tab_failures_spec};
use crate::page::groups_view;
use crate::value::{Model, Value, entries};

verus! {

broadcast use vstd::std_specs::vec::group_vec_axioms;

/// An arrangement decision as the page reads it: its id, the sources it
/// decided to serve together, its wrong-if predicate and whether it fired.
pub struct Arrangement {
    pub id: String,
    pub sources: Vec<String>,
    pub predicate: String,
    pub fired: bool,
}

pub struct ArrangementModel {
    pub id: Seq<char>,
    pub sources: Seq<Seq<char>>,
    pub predicate: Seq<char>,
    pub fired: bool,
}

impl View for Arrangement {
    type V = ArrangementModel;

    open spec fn view(&self) -> ArrangementModel {
        ArrangementModel { id: self.id@, sources: strings(self.sources@), predicate: self.predicate@, fired: self.fired }
    }
}

pub open spec fn arrangement_views(v: Seq<Arrangement>) -> Seq<ArrangementModel> {
    v.map_values(|a: Arrangement| a@)
}

/// Whether tab `t`'s sections earn the source `s`.
pub open spec fn earns(earned: Seq<Vec<String>>, t: int, s: Seq<char>) -> bool {
    str_set(earned[t]@).contains(s)
}

/// Whether arrangement `a` owns tab `t`: the page's one bare tab, or a tab
/// that earns one of its sources.
pub open spec fn owns(a: ArrangementModel, tabs: Seq<TabModel>, earned: Seq<Vec<String>>, t: int) -> bool {
    ||| tabs.len() == 1 && tabs[t].bare
    ||| exists|i: int| 0 <= i < a.sources.len() && earns(earned, t, #[trigger] a.sources[i])
}

/// The first tab from `t` on that both arrangements own.
pub open spec fn lowest_shared(
    l: ArrangementModel,
    r: ArrangementModel,
    tabs: Seq<TabModel>,
    earned: Seq<Vec<String>>,
    t: nat,
) -> Option<nat>
    decreases tabs.len() - t,
{
    if t >= tabs.len() {
        None
    } else if owns(l, tabs, earned, t as int) && owns(r, tabs, earned, t as int) {
        Some(t)
    } else {
        lowest_shared(l, r, tabs, earned, t + 1)
    }
}

/// Whether `r` shares none of `l`'s sources.
pub open spec fn apart(l: ArrangementModel, r: ArrangementModel) -> bool {
    forall|i: int| 0 <= i < l.sources.len() ==> !r.sources.contains(#[trigger] l.sources[i])
}

pub open spec fn tab_name(t: TabModel) -> Seq<char> {
    if t.title.len() == 0 {
        "Now"@
    } else {
        t.title
    }
}

/// Two arrangements that share no source but read on one tab.
pub open spec fn pair_failure(l: ArrangementModel, r: ArrangementModel, tabs: Seq<TabModel>, earned: Seq<Vec<String>>) -> Option<Seq<char>> {
    match lowest_shared(l, r, tabs, earned, 0) {
        Some(t) => if apart(l, r) {
            Some("the brief reads "@ + l.id + " and "@ + r.id + " on one tab ('"@ + tab_name(tabs[t as int]) + "'), which neither decided"@)
        } else {
            None
        },
        None => None,
    }
}

pub open spec fn optional(o: Option<Seq<char>>) -> Seq<Seq<char>> {
    match o {
        Some(x) => seq![x],
        None => Seq::empty(),
    }
}

/// The pair failures of arrangement `left` with each later one before `end`.
pub open spec fn pair_row(arrs: Seq<ArrangementModel>, tabs: Seq<TabModel>, earned: Seq<Vec<String>>, left: int, end: int) -> Seq<Seq<char>>
    decreases end - left,
{
    if end <= left + 1 {
        Seq::empty()
    } else {
        pair_row(arrs, tabs, earned, left, end - 1) + optional(pair_failure(arrs[left], arrs[end - 1], tabs, earned))
    }
}

/// The pair failures of the arrangements before `end` with the later ones.
pub open spec fn pair_rows(arrs: Seq<ArrangementModel>, tabs: Seq<TabModel>, earned: Seq<Vec<String>>, end: int) -> Seq<Seq<char>>
    decreases end,
{
    if end <= 0 {
        Seq::empty()
    } else {
        pair_rows(arrs, tabs, earned, end - 1) + pair_row(arrs, tabs, earned, end - 1, arrs.len() as int)
    }
}

/// Whether some tab that `a` owns earns `s`.
pub open spec fn earned_for(a: ArrangementModel, tabs: Seq<TabModel>, earned: Seq<Vec<String>>, s: Seq<char>) -> bool {
    exists|t: int| 0 <= t < tabs.len() && #[trigger] owns(a, tabs, earned, t) && earns(earned, t, s)
}

/// The sources among `srcs` that no tab `a` owns earns, in order.
pub open spec fn unearned(a: ArrangementModel, srcs: Seq<Seq<char>>, tabs: Seq<TabModel>, earned: Seq<Vec<String>>) -> Seq<Seq<char>>
    decreases srcs.len(),
{
    if srcs.len() == 0 {
        Seq::empty()
    } else {
        let rest = unearned(a, srcs.drop_last(), tabs, earned);
        if earned_for(a, tabs, earned, srcs.last()) {
            rest
        } else {
            rest.push(srcs.last())
        }
    }
}

/// What one arrangement's own reading raises: sources no owned tab earns
/// (unless the page is one bare tab), and a wrong-if that fired.
pub open spec fn own_failures(a: ArrangementModel, tabs: Seq<TabModel>, earned: Seq<Vec<String>>) -> Seq<Seq<char>> {
    let un = unearned(a, a.sources, tabs, earned);
    optional(
        if !(tabs.len() == 1 && tabs[0].bare) && un.len() > 0 {
            Some(
                "the brief does not serve "@ + join(a.sources, ", "@) + " together, as "@ + a.id + " decided (no tab's sections earn "@
                    + join(un, ", "@) + ")"@,
            )
        } else {
            None
        },
    ) + optional(
        if a.fired {
            Some(a.id + ": wrong_if holds ("@ + a.predicate + ") - the arrangement fired"@)
        } else {
            None
        },
    )
}

pub open spec fn own_rows(arrs: Seq<ArrangementModel>, tabs: Seq<TabModel>, earned: Seq<Vec<String>>, end: int) -> Seq<Seq<char>>
    decreases end,
{
    if end <= 0 {
        Seq::empty()
    } else {
        own_rows(arrs, tabs, earned, end - 1) + own_failures(arrs[end - 1], tabs, earned)
    }
}

/// The failures the arrangements raise against the brief's tabs: first each
/// pair read on one tab without a shared source, then each arrangement's own.
pub open spec fn arrangement_failures_spec(arrs: Seq<ArrangementModel>, tabs: Seq<TabModel>, earned: Seq<Vec<String>>) -> Seq<Seq<char>> {
    pair_rows(arrs, tabs, earned, arrs.len() as int) + own_rows(arrs, tabs, earned, arrs.len() as int)
}

/// Whether some arrangement owns tab `t`.
pub open spec fn owned(arrs: Seq<ArrangementModel>, tabs: Seq<TabModel>, earned: Seq<Vec<String>>, t: int) -> bool {
    exists|a: int| 0 <= a < arrs.len() && #[trigger] owns(arrs[a], tabs, earned, t)
}

/// Declared tabs that earn sources no arrangement decided, before `end`.
pub open spec fn tab_notes(arrs: Seq<ArrangementModel>, tabs: Seq<TabModel>, earned: Seq<Vec<String>>, end: int) -> Seq<Seq<char>>
    decreases end,
{
    if end <= 0 {
        Seq::empty()
    } else {
        let t = end - 1;
        tab_notes(arrs, tabs, earned, t) + optional(
            if !tabs[t].bare && earned[t]@.len() > 0 && !owned(arrs, tabs, earned, t) {
                Some("tab '"@ + tabs[t].title + "' is an arrangement no decision records"@)
            } else {
                None
            },
        )
    }
}

/// The notes: a brief held against no recorded arrangement, then each
/// declared tab that arranges what no decision records.
pub open spec fn arrangement_notes_spec(
    brief_declared: bool,
    recorded: bool,
    arrs: Seq<ArrangementModel>,
    tabs: Seq<TabModel>,
    earned: Seq<Vec<String>>,
) -> Seq<Seq<char>> {
    optional(
        if brief_declared && arrs.len() == 0 && recorded {
            Some("no arrangement decision is recorded, so the brief is held against none"@)
        } else {
            None
        },
    ) + tab_notes(arrs, tabs, earned, tabs.len() as int)
}

fn owns_tab(a: &Arrangement, tabs: &Vec<Tab>, earned: &Vec<Vec<String>>, t: usize) -> (r: bool)
    requires
        t < tabs.len(),
        earned.len() == tabs.len(),
    ensures
        r == owns(a@, tab_views(tabs@), earned@, t as int),
{
    if tabs.len() == 1 && tabs[t].bare {
        return true;
    }
    let mut i: usize = 0;
    while i < a.sources.len()
        invariant
            0 <= i <= a.sources.len(),
            t < earned.len(),
            t < tabs.len(),
            !(tabs.len() == 1 && tab_views(tabs@)[t as int].bare),
            forall|q: int| 0 <= q < i ==> !earns(earned@, t as int, #[trigger] strings(a.sources@)[q]),
        decreases a.sources.len() - i,
    {
        if holds_string(&earned[t], &chars_of(a.sources[i].as_str())) {
            assert(earns(earned@, t as int, strings(a.sources@)[i as int]));
            assert(a@.sources[i as int] == strings(a.sources@)[i as int]);
            assert(owns(a@, tab_views(tabs@), earned@, t as int));
            return true;
        }
        i = i + 1;
    }
    false
}

fn shared_tab(l: &Arrangement, r: &Arrangement, tabs: &Vec<Tab>, earned: &Vec<Vec<String>>) -> (res: Option<usize>)
    requires
        earned.len() == tabs.len(),
    ensures
        match res {
            Some(t) => t < tabs.len() && lowest_shared(l@, r@, tab_views(tabs@), earned@, 0) == Some(t as nat),
            None => lowest_shared(l@, r@, tab_views(tabs@), earned@, 0) is None,
        },
{
    let mut t: usize = 0;
    while t < tabs.len()
        invariant
            0 <= t <= tabs.len(),
            earned.len() == tabs.len(),
            lowest_shared(l@, r@, tab_views(tabs@), earned@, 0) == lowest_shared(l@, r@, tab_views(tabs@), earned@, t as nat),
        decreases tabs.len() - t,
    {
        if owns_tab(l, tabs, earned, t) && owns_tab(r, tabs, earned, t) {
            return Some(t);
        }
        t = t + 1;
    }
    None
}

fn apart_exec(l: &Arrangement, r: &Arrangement) -> (res: bool)
    ensures
        res == apart(l@, r@),
{
    let mut i: usize = 0;
    while i < l.sources.len()
        invariant
            0 <= i <= l.sources.len(),
            forall|q: int| 0 <= q < i ==> !strings(r.sources@).contains(#[trigger] strings(l.sources@)[q]),
        decreases l.sources.len() - i,
    {
        if holds_string(&r.sources, &chars_of(l.sources[i].as_str())) {
            proof {
                let x = strings(l.sources@)[i as int];
                let k = choose|k: int| 0 <= k < r.sources@.len() && #[trigger] r.sources@[k]@ == x;
                assert(strings(r.sources@)[k] == x);
                assert(strings(r.sources@).contains(x));
                assert(l@.sources[i as int] == x);
                assert(!apart(l@, r@));
            }
            return false;
        }
        proof {
            let x = strings(l.sources@)[i as int];
            if strings(r.sources@).contains(x) {
                let k = choose|k: int| 0 <= k < strings(r.sources@).len() && strings(r.sources@)[k] == x;
                assert(r.sources@[k]@ == x);
            }
        }
        i = i + 1;
    }
    true
}

fn joined(v: &Vec<String>) -> (r: Vec<char>)
    ensures
        r@ == join(strings(v@), ", "@),
{
    let mut parts: Vec<Vec<char>> = Vec::new();
    let mut i: usize = 0;
    while i < v.len()
        invariant
            0 <= i <= v.len(),
            parts@.len() == i,
            forall|q: int| 0 <= q < i ==> #[trigger] parts@[q]@ == v@[q]@,
        decreases v.len() - i,
    {
        parts.push(chars_of(v[i].as_str()));
        i = i + 1;
    }
    assert(char_views(parts@) =~= strings(v@));
    join_with(&parts, &chars_of(", "))
}

fn pair_message(l: &Arrangement, r: &Arrangement, tab: &Tab) -> (m: Vec<char>)
    ensures
        m@ == "the brief reads "@ + l@.id + " and "@ + r@.id + " on one tab ('"@ + tab_name(tab@) + "'), which neither decided"@,
{
    let mut m = chars_of("the brief reads ");
    append(&mut m, &chars_of(l.id.as_str()));
    append(&mut m, &chars_of(" and "));
    append(&mut m, &chars_of(r.id.as_str()));
    append(&mut m, &chars_of(" on one tab ('"));
    let title = chars_of(tab.title.as_str());
    if title.len() == 0 {
        append(&mut m, &chars_of("Now"));
    } else {
        append(&mut m, &title);
    }
    append(&mut m, &chars_of("'), which neither decided"));
    m
}

fn unearned_of(a: &Arrangement, tabs: &Vec<Tab>, earned: &Vec<Vec<String>>) -> (r: Vec<String>)
    requires
        earned.len() == tabs.len(),
    ensures
        strings(r@) == unearned(a@, a@.sources, tab_views(tabs@), earned@),
{
    let ghost ss = a@.sources;
    let mut out: Vec<String> = Vec::new();
    let mut i: usize = 0;
    assert(ss.take(0) =~= Seq::<Seq<char>>::empty());
    while i < a.sources.len()
        invariant
            0 <= i <= a.sources.len(),
            ss == a@.sources,
            earned.len() == tabs.len(),
            strings(out@) == unearned(a@, ss.take(i as int), tab_views(tabs@), earned@),
        decreases a.sources.len() - i,
    {
        assert(ss.take(i + 1).drop_last() =~= ss.take(i as int));
        let ghost s = ss[i as int];
        assert(ss.take(i + 1).last() == s);
        let sc = chars_of(a.sources[i].as_str());
        let mut t: usize = 0;
        let mut found = false;
        while t < tabs.len()
            invariant
                0 <= t <= tabs.len(),
                earned.len() == tabs.len(),
                sc@ == s,
                !found ==> forall|q: int| 0 <= q < t ==> !(#[trigger] owns(a@, tab_views(tabs@), earned@, q) && earns(earned@, q, s)),
                found ==> earned_for(a@, tab_views(tabs@), earned@, s),
            decreases tabs.len() - t,
        {
            if !found && owns_tab(a, tabs, earned, t) && holds_string(&earned[t], &sc) {
                found = true;
            }
            t = t + 1;
        }
        if !found {
            let ghost before = out@;
            out.push(string_of(&sc));
            assert(strings(out@) =~= strings(before).push(s));
        }
        i = i + 1;
    }
    assert(ss.take(a.sources.len() as int) =~= ss);
    out
}

fn own_failures_of(a: &Arrangement, tabs: &Vec<Tab>, earned: &Vec<Vec<String>>) -> (r: Vec<String>)
    requires
        earned.len() == tabs.len(),
    ensures
        strings(r@) == own_failures(a@, tab_views(tabs@), earned@),
{
    let un = unearned_of(a, tabs, earned);
    let mut out: Vec<String> = Vec::new();
    let single_bare = tabs.len() == 1 && tabs[0].bare;
    if !single_bare && un.len() > 0 {
        let mut m = chars_of("the brief does not serve ");
        append(&mut m, &joined(&a.sources));
        append(&mut m, &chars_of(" together, as "));
        append(&mut m, &chars_of(a.id.as_str()));
        append(&mut m, &chars_of(" decided (no tab's sections earn "));
        append(&mut m, &joined(&un));
        append(&mut m, &chars_of(")"));
        out.push(string_of(&m));
    }
    let ghost first = strings(out@);
    if a.fired {
        let mut m = chars_of(a.id.as_str());
        append(&mut m, &chars_of(": wrong_if holds ("));
        append(&mut m, &chars_of(a.predicate.as_str()));
        append(&mut m, &chars_of(") - the arrangement fired"));
        out.push(string_of(&m));
    }
    proof {
        let tv = tab_views(tabs@);
        let u = unearned(a@, a@.sources, tv, earned@);
        assert(strings(un@).len() == un@.len());
        let o1 = if !(tv.len() == 1 && tv[0].bare) && u.len() > 0 {
            Some(
                "the brief does not serve "@ + join(a@.sources, ", "@) + " together, as "@ + a@.id + " decided (no tab's sections earn "@
                    + join(u, ", "@) + ")"@,
            )
        } else {
            None
        };
        let o2 = if a@.fired {
            Some(a@.id + ": wrong_if holds ("@ + a@.predicate + ") - the arrangement fired"@)
        } else {
            None
        };
        assert(first =~= optional(o1));
        assert(strings(out@) =~= optional(o1) + optional(o2));
    }
    out
}

/// The failures the brief's arrangements raise, given for each tab the
/// sources its sections earn (`earned`, one list per tab).
pub fn arrangement_failures(arrs: &Vec<Arrangement>, tabs: &Vec<Tab>, earned: &Vec<Vec<String>>) -> (r: Vec<String>)
    requires
        earned.len() == tabs.len(),
    ensures
        strings(r@) == arrangement_failures_spec(arrangement_views(arrs@), tab_views(tabs@), earned@),
{
    let ghost av = arrangement_views(arrs@);
    let ghost tv = tab_views(tabs@);
    let n = arrs.len();
    let mut out: Vec<String> = Vec::new();
    let mut left: usize = 0;
    while left < n
        invariant
            0 <= left <= n,
            n == arrs.len(),
            av == arrangement_views(arrs@),
            tv == tab_views(tabs@),
            earned.len() == tabs.len(),
            strings(out@) == pair_rows(av, tv, earned@, left as int),
        decreases n - left,
    {
        let ghost base = strings(out@);
        let mut right: usize = left + 1;
        assert(pair_row(av, tv, earned@, left as int, right as int) =~= Seq::<Seq<char>>::empty());
        while right < n
            invariant
                left < right <= n,
                n == arrs.len(),
                av == arrangement_views(arrs@),
                tv == tab_views(tabs@),
                earned.len() == tabs.len(),
                strings(out@) == base + pair_row(av, tv, earned@, left as int, right as int),
            decreases n - right,
        {
            let ghost before = out@;
            match shared_tab(&arrs[left], &arrs[right], tabs, earned) {
                Some(t) => {
                    if apart_exec(&arrs[left], &arrs[right]) {
                        out.push(string_of(&pair_message(&arrs[left], &arrs[right], &tabs[t])));
                    }
                },
                None => {},
            }
            proof {
                let f = pair_failure(av[left as int], av[right as int], tv, earned@);
                assert(av[left as int] == arrs@[left as int]@);
                assert(av[right as int] == arrs@[right as int]@);
                assert(strings(out@) =~= strings(before) + optional(f));
                assert(base + pair_row(av, tv, earned@, left as int, right + 1) =~= base + pair_row(
                    av,
                    tv,
                    earned@,
                    left as int,
                    right as int,
                ) + optional(f));
            }
            right = right + 1;
        }
        assert(strings(out@) =~= pair_rows(av, tv, earned@, left + 1));
        left = left + 1;
    }
    let ghost pairs = strings(out@);
    let mut k: usize = 0;
    while k < n
        invariant
            0 <= k <= n,
            n == arrs.len(),
            av == arrangement_views(arrs@),
            tv == tab_views(tabs@),
            earned.len() == tabs.len(),
            pairs == pair_rows(av, tv, earned@, n as int),
            strings(out@) == pairs + own_rows(av, tv, earned@, k as int),
        decreases n - k,
    {
        let ghost before = out@;
        let fs = own_failures_of(&arrs[k], tabs, earned);
        let mut j: usize = 0;
        while j < fs.len()
            invariant
                0 <= j <= fs.len(),
                strings(out@) == strings(before) + strings(fs@).take(j as int),
            decreases fs.len() - j,
        {
            let ghost b2 = out@;
            out.push(string_of(&chars_of(fs[j].as_str())));
            assert(strings(fs@).take(j + 1) =~= strings(fs@).take(j as int).push(fs@[j as int]@));
            assert(strings(out@) =~= strings(b2).push(fs@[j as int]@));
            j = j + 1;
        }
        assert(strings(fs@).take(fs.len() as int) =~= strings(fs@));
        assert(strings(out@) =~= pairs + own_rows(av, tv, earned@, k + 1));
        k = k + 1;
    }
    out
}

/// The notes the brief's arrangements raise: `brief_declared` where the
/// brief declares anything, `recorded` where the record names sources for
/// any intent.
pub fn arrangement_notes(
    brief_declared: bool,
    recorded: bool,
    arrs: &Vec<Arrangement>,
    tabs: &Vec<Tab>,
    earned: &Vec<Vec<String>>,
) -> (r: Vec<String>)
    requires
        earned.len() == tabs.len(),
    ensures
        strings(r@) == arrangement_notes_spec(brief_declared, recorded, arrangement_views(arrs@), tab_views(tabs@), earned@),
{
    let ghost av = arrangement_views(arrs@);
    let ghost tv = tab_views(tabs@);
    let mut out: Vec<String> = Vec::new();
    if brief_declared && arrs.len() == 0 && recorded {
        out.push(string_of(&chars_of("no arrangement decision is recorded, so the brief is held against none")));
    }
    let ghost first = strings(out@);
    assert(first =~= optional(
        if brief_declared && av.len() == 0 && recorded {
            Some("no arrangement decision is recorded, so the brief is held against none"@)
        } else {
            None
        },
    ));
    let mut t: usize = 0;
    while t < tabs.len()
        invariant
            0 <= t <= tabs.len(),
            av == arrangement_views(arrs@),
            tv == tab_views(tabs@),
            earned.len() == tabs.len(),
            strings(out@) == first + tab_notes(av, tv, earned@, t as int),
        decreases tabs.len() - t,
    {
        let ghost before = out@;
        if !tabs[t].bare && earned[t].len() > 0 {
            let mut a: usize = 0;
            let mut any = false;
            while a < arrs.len()
                invariant
                    0 <= a <= arrs.len(),
                    t < tabs.len(),
                    av == arrangement_views(arrs@),
                    tv == tab_views(tabs@),
                    earned.len() == tabs.len(),
                    !any ==> forall|q: int| 0 <= q < a ==> !#[trigger] owns(av[q], tv, earned@, t as int),
                    any ==> owned(av, tv, earned@, t as int),
                decreases arrs.len() - a,
            {
                if !any && owns_tab(&arrs[a], tabs, earned, t) {
                    any = true;
                    assert(owns(av[a as int], tv, earned@, t as int));
                }
                a = a + 1;
            }
            if !any {
                let mut m = chars_of("tab '");
                append(&mut m, &chars_of(tabs[t].title.as_str()));
                append(&mut m, &chars_of("' is an arrangement no decision records"));
                out.push(string_of(&m));
            }
        }
        proof {
            let note = if !tv[t as int].bare && earned@[t as int]@.len() > 0 && !owned(av, tv, earned@, t as int) {
                Some("tab '"@ + tv[t as int].title + "' is an arrangement no decision records"@)
            } else {
                None
            };
            assert(tv[t as int] == tabs@[t as int]@);
            assert(tab_notes(av, tv, earned@, t + 1) == tab_notes(av, tv, earned@, t as int) + optional(note));
            assert(strings(out@) =~= strings(before) + optional(note));
        }
        assert(strings(out@) =~= first + tab_notes(av, tv, earned@, t + 1));
        t = t + 1;
    }
    out
}

/// The failures the sections of each tab raise, tab by tab.
pub open spec fn tabs_failures(
    tabs: Seq<TabModel>,
    order: Seq<Seq<char>>,
    ids: Set<Seq<char>>,
    judgments: Set<Seq<char>>,
    states: Seq<(String, Vec<String>)>,
    nodes: Seq<(Seq<char>, Model)>,
    links: Seq<(String, Option<String>)>,
    schemes: Seq<(Seq<char>, Seq<(Seq<char>, Set<Seq<char>>)>)>,
) -> Seq<Seq<char>>
    decreases tabs.len(),
{
    if tabs.len() == 0 {
        Seq::empty()
    } else {
        let t = tabs.last();
        tabs_failures(tabs.drop_last(), order, ids, judgments, states, nodes, links, schemes) + tab_failures_spec(
            t,
            t.sections,
            order,
            ids,
            judgments,
            states,
            nodes,
            links,
            schemes,
        )
    }
}

/// The shape notes of each tab, tab by tab.
pub open spec fn shape_notes(tabs: Seq<TabModel>, now: Shape) -> Seq<Seq<char>>
    decreases tabs.len(),
{
    if tabs.len() == 0 {
        Seq::empty()
    } else {
        shape_notes(tabs.drop_last(), now) + optional(shape_note_spec(tabs.last(), now))
    }
}

/// Everything a page's brief fails: the arrangement failures, then each
/// tab's section failures.
pub fn page_failures(
    arrs: &Vec<Arrangement>,
    tabs: &Vec<Tab>,
    earned: &Vec<Vec<String>>,
    ids: &Vec<String>,
    judgments: &Vec<String>,
    states: &Vec<(String, Vec<String>)>,
    nodes: &Vec<(String, Value)>,
    links: &Vec<(String, Option<String>)>,
    schemes: &Vec<(String, Vec<(String, Vec<String>)>)>,
) -> (r: Vec<String>)
    requires
        earned.len() == tabs.len(),
    ensures
        strings(r@) == arrangement_failures_spec(arrangement_views(arrs@), tab_views(tabs@), earned@) + tabs_failures(
            tab_views(tabs@),
            strings(ids@),
            str_set(ids@),
            str_set(judgments@),
            states@,
            entries(nodes@),
            links@,
            groups_view(schemes@),
        ),
{
    let ghost tv = tab_views(tabs@);
    let mut out = arrangement_failures(arrs, tabs, earned);
    let ghost first = strings(out@);
    let mut t: usize = 0;
    assert(tv.take(0) =~= Seq::<TabModel>::empty());
    while t < tabs.len()
        invariant
            0 <= t <= tabs.len(),
            tv == tab_views(tabs@),
            strings(out@) == first + tabs_failures(
                tv.take(t as int),
                strings(ids@),
                str_set(ids@),
                str_set(judgments@),
                states@,
                entries(nodes@),
                links@,
                groups_view(schemes@),
            ),
        decreases tabs.len() - t,
    {
        assert(tv.take(t + 1).drop_last() =~= tv.take(t as int));
        assert(tv.take(t + 1).last() == tabs@[t as int]@);
        let fs = tab_failures(&tabs[t], ids, judgments, states, nodes, links, schemes);
        let ghost before = out@;
        let mut j: usize = 0;
        while j < fs.len()
            invariant
                0 <= j <= fs.len(),
                strings(out@) == strings(before) + strings(fs@).take(j as int),
            decreases fs.len() - j,
        {
            let ghost b2 = out@;
            out.push(string_of(&chars_of(fs[j].as_str())));
            assert(strings(fs@).take(j + 1) =~= strings(fs@).take(j as int).push(fs@[j as int]@));
            assert(strings(out@) =~= strings(b2).push(fs@[j as int]@));
            j = j + 1;
        }
        assert(strings(fs@).take(fs.len() as int) =~= strings(fs@));
        t = t + 1;
    }
    assert(tv.take(tabs.len() as int) =~= tv);
    out
}

/// Everything a page notes about its brief: the arrangement notes, then
/// each tab's moved shape against the page's shape `now`.
pub fn page_notes(
    brief_declared: bool,
    recorded: bool,
    arrs: &Vec<Arrangement>,
    tabs: &Vec<Tab>,
    earned: &Vec<Vec<String>>,
    now: &Shape,
) -> (r: Vec<String>)
    requires
        earned.len() == tabs.len(),
    ensures
        strings(r@) == arrangement_notes_spec(brief_declared, recorded, arrangement_views(arrs@), tab_views(tabs@), earned@)
            + shape_notes(tab_views(tabs@), *now),
{
    let ghost tv = tab_views(tabs@);
    let mut out = arrangement_notes(brief_declared, recorded, arrs, tabs, earned);
    let ghost first = strings(out@);
    let mut t: usize = 0;
    assert(tv.take(0) =~= Seq::<TabModel>::empty());
    while t < tabs.len()
        invariant
            0 <= t <= tabs.len(),
            tv == tab_views(tabs@),
            strings(out@) == first + shape_notes(tv.take(t as int), *now),
        decreases tabs.len() - t,
    {
        assert(tv.take(t + 1).drop_last() =~= tv.take(t as int));
        assert(tv.take(t + 1).last() == tabs@[t as int]@);
        let ghost before = out@;
        match shape_note(&tabs[t], now) {
            Some(m) => out.push(m),
            None => {},
        }
        assert(strings(out@) =~= strings(before) + optional(shape_note_spec(tabs@[t as int]@, *now)));
        t = t + 1;
    }
    assert(tv.take(tabs.len() as int) =~= tv);
    out
}

} // verus!
