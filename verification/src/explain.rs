//! Why a reader cannot take a record's field roles, in words for a person: a
//! dependency field the schema names and no entry carries, or no field whose
//! lists read as a dependency list.
use vstd::prelude::*;
use crate::fields::{Use, collections, flat, id_set, is_skipped, known_ids, listed_names, member_list, field_uses, present_set, texts, unresolved, use_view, uses, vote_count, collections_of};
use crate::page::{decimal, decimal_of};
use crate::tally::{add_key, add_sorted, count_in, holds_name, lemma_add_key_has, lemma_count_absent, lemma_count_at, lemma_place_le, name_set, place, sorted_names, lemma_add_key_sorted};
use crate::text::{chars_of, char_views, join, join_with, same, string_of, append};
use crate::value::{Error, Model, Value, field, field_of, truth, truthy};

verus! {

broadcast use vstd::std_specs::vec::group_vec_axioms;

/// Every field any entry has, each once, in sorted order.
pub open spec fn present_keys(us: Seq<Use>) -> Seq<Seq<char>>
    decreases us.len(),
{
    if us.len() == 0 {
        Seq::empty()
    } else {
        add_key(present_keys(us.drop_last()), us.last().1)
    }
}

/// The fields whose lists name something that is not an entry, each once,
/// in sorted order.
pub open spec fn unresolved_keys(us: Seq<Use>, ids: Set<Seq<char>>) -> Seq<Seq<char>>
    decreases us.len(),
{
    if us.len() == 0 {
        Seq::empty()
    } else {
        let p = unresolved_keys(us.drop_last(), ids);
        if unresolved(us.last(), ids) {
            add_key(p, us.last().1)
        } else {
            p
        }
    }
}

/// The names of a list that are not among `ids`, in order.
pub open spec fn outside(ns: Seq<Seq<char>>, ids: Set<Seq<char>>) -> Seq<Seq<char>>
    decreases ns.len(),
{
    if ns.len() == 0 {
        Seq::empty()
    } else {
        let p = outside(ns.drop_last(), ids);
        if ids.contains(ns.last()) {
            p
        } else {
            p.push(ns.last())
        }
    }
}

/// A holder of a list and the names in it that are not entries.
pub type Holder = (Seq<char>, Seq<Seq<char>>);

/// The holders of field `f`'s unresolved lists, in the record's order.
pub open spec fn holders_of(us: Seq<Use>, ids: Set<Seq<char>>, f: Seq<char>) -> Seq<Holder>
    decreases us.len(),
{
    if us.len() == 0 {
        Seq::empty()
    } else {
        let p = holders_of(us.drop_last(), ids, f);
        let u = us.last();
        if unresolved(u, ids) && u.1 == f {
            p.push((u.0, outside(texts(u.2->List_0), ids)))
        } else {
            p
        }
    }
}

/// Each field with unresolved lists, in sorted order, with their holders.
pub open spec fn unresolved_lists(us: Seq<Use>, ids: Set<Seq<char>>) -> Seq<(Seq<char>, Seq<Holder>)> {
    with_holders(unresolved_keys(us, ids), us, ids)
}

/// Each of the fields `fs` with the holders of its unresolved lists.
pub open spec fn with_holders(fs: Seq<Seq<char>>, us: Seq<Use>, ids: Set<Seq<char>>) -> Seq<(Seq<char>, Seq<Holder>)>
    decreases fs.len(),
{
    if fs.len() == 0 {
        Seq::empty()
    } else {
        with_holders(fs.drop_last(), us, ids).push((fs.last(), holders_of(us, ids, fs.last())))
    }
}

pub open spec fn holder_view(h: (Vec<char>, Vec<Vec<char>>)) -> Holder {
    (h.0@, char_views(h.1@))
}

pub open spec fn holders_view(hs: Seq<(Vec<char>, Vec<Vec<char>>)>) -> Seq<Holder> {
    hs.map_values(|h: (Vec<char>, Vec<Vec<char>>)| holder_view(h))
}

pub open spec fn lists_view(ls: Seq<(Vec<char>, Vec<(Vec<char>, Vec<Vec<char>>)>)>) -> Seq<(Seq<char>, Seq<Holder>)> {
    ls.map_values(|l: (Vec<char>, Vec<(Vec<char>, Vec<Vec<char>>)>)| (l.0@, holders_view(l.1@)))
}

/// The names of a list that are not among `ids`.
fn outside_names(ns: &Vec<Vec<char>>, ids: &Vec<Vec<char>>) -> (r: Vec<Vec<char>>)
    ensures
        char_views(r@) == outside(char_views(ns@), name_set(ids@)),
{
    let ghost v = char_views(ns@);
    let mut out: Vec<Vec<char>> = Vec::new();
    let mut i: usize = 0;
    while i < ns.len()
        invariant
            0 <= i <= ns.len(),
            v == char_views(ns@),
            v.len() == ns@.len(),
            char_views(out@) == outside(v.take(i as int), name_set(ids@)),
        decreases ns.len() - i,
    {
        proof {
            assert(v.take(i + 1).drop_last() =~= v.take(i as int));
            assert(v.take(i + 1).last() == ns@[i as int]@);
        }
        if !holds_name(ids, &ns[i]) {
            let ghost before = out@;
            let n = crate::text::slice_range(&ns[i], 0, ns[i].len());
            assert(n@ =~= ns@[i as int]@);
            out.push(n);
            proof {
                assert(!name_set(ids@).contains(ns@[i as int]@));
                assert(char_views(out@) =~= char_views(before).push(ns@[i as int]@));
            }
        } else {
            proof {
                let q = choose|q: int| 0 <= q < ids@.len() && #[trigger] ids@[q]@ == ns@[i as int]@;
                assert(name_set(ids@).contains(ns@[i as int]@));
            }
        }
        i = i + 1;
    }
    proof {
        assert(v.take(ns.len() as int) =~= v);
    }
    out
}

/// The names a use's list holds outside `ids`, where the list is unresolved.
fn unresolved_names(u: &(String, String, Value, bool), ids: &Vec<Vec<char>>) -> (r: Option<Vec<Vec<char>>>)
    ensures
        r is Some <==> unresolved((u.0@, u.1@, u.2@, u.3), name_set(ids@)),
        r matches Some(ns) ==> char_views(ns@) == outside(texts(u.2@->List_0), name_set(ids@)),
{
    if is_skipped(u) {
        return None;
    }
    match listed_names(&u.2) {
        Some(names) => {
            proof {
                assert(char_views(names@) =~= texts(u.2@->List_0));
            }
            let out = outside_names(&names, ids);
            if out.len() == 0 {
                proof {
                    lemma_outside_empty(texts(u.2@->List_0), name_set(ids@));
                }
                None
            } else {
                proof {
                    lemma_outside_nonempty(texts(u.2@->List_0), name_set(ids@));
                }
                Some(out)
            }
        },
        None => None,
    }
}

proof fn lemma_outside_empty(ns: Seq<Seq<char>>, ids: Set<Seq<char>>)
    requires
        outside(ns, ids).len() == 0,
    ensures
        forall|i: int| 0 <= i < ns.len() ==> ids.contains(#[trigger] ns[i]),
    decreases ns.len(),
{
    if ns.len() > 0 {
        lemma_outside_empty(ns.drop_last(), ids);
        assert forall|i: int| 0 <= i < ns.len() implies ids.contains(#[trigger] ns[i]) by {
            if i < ns.len() - 1 {
                assert(ns.drop_last()[i] == ns[i]);
            }
        }
    }
}

proof fn lemma_outside_nonempty(ns: Seq<Seq<char>>, ids: Set<Seq<char>>)
    requires
        outside(ns, ids).len() > 0,
    ensures
        exists|i: int| 0 <= i < ns.len() && !ids.contains(#[trigger] ns[i]),
    decreases ns.len(),
{
    if ids.contains(ns.last()) {
        lemma_outside_nonempty(ns.drop_last(), ids);
        let i = choose|i: int| 0 <= i < ns.drop_last().len() && !ids.contains(#[trigger] ns.drop_last()[i]);
        assert(ns.drop_last()[i] == ns[i]);
    } else {
        assert(!ids.contains(ns[ns.len() - 1]));
    }
}


/// The holders of field `f`'s unresolved lists, in the record's order.
fn holders_for(us: &Vec<(String, String, Value, bool)>, ids: &Vec<Vec<char>>, f: &[char]) -> (r: Vec<(Vec<char>, Vec<Vec<char>>)>)
    ensures
        holders_view(r@) == holders_of(use_view(us@), name_set(ids@), f@),
{
    let ghost uv = use_view(us@);
    let mut out: Vec<(Vec<char>, Vec<Vec<char>>)> = Vec::new();
    let mut i: usize = 0;
    while i < us.len()
        invariant
            0 <= i <= us.len(),
            uv == use_view(us@),
            uv.len() == us@.len(),
            holders_view(out@) == holders_of(uv.take(i as int), name_set(ids@), f@),
        decreases us.len() - i,
    {
        proof {
            assert(uv.take(i + 1).drop_last() =~= uv.take(i as int));
            assert(uv.take(i + 1).last() == uv[i as int]);
        }
        let u = &us[i];
        assert(uv[i as int] == (u.0@, u.1@, u.2@, u.3));
        if same(&chars_of(u.1.as_str()), f) {
            match unresolved_names(u, ids) {
                Some(names) => {
                    let ghost before = out@;
                    out.push((chars_of(u.0.as_str()), names));
                    proof {
                        assert(holders_view(out@) =~= holders_view(before).push(holder_view(out@.last())));
                    }
                },
                None => {},
            }
        }
        i = i + 1;
    }
    proof {
        assert(uv.take(us.len() as int) =~= uv);
    }
    out
}

/// Each field with unresolved lists, in sorted order, with their holders.
fn unresolved_of(us: &Vec<(String, String, Value, bool)>, ids: &Vec<Vec<char>>) -> (r: Vec<(Vec<char>, Vec<(Vec<char>, Vec<Vec<char>>)>)>)
    ensures
        lists_view(r@) == unresolved_lists(use_view(us@), name_set(ids@)),
{
    let ghost uv = use_view(us@);
    let ghost idset = name_set(ids@);
    let mut keys: Vec<Vec<char>> = Vec::new();
    let mut i: usize = 0;
    while i < us.len()
        invariant
            0 <= i <= us.len(),
            uv == use_view(us@),
            uv.len() == us@.len(),
            idset == name_set(ids@),
            char_views(keys@) == unresolved_keys(uv.take(i as int), idset),
        decreases us.len() - i,
    {
        proof {
            assert(uv.take(i + 1).drop_last() =~= uv.take(i as int));
            assert(uv.take(i + 1).last() == uv[i as int]);
        }
        let u = &us[i];
        assert(uv[i as int] == (u.0@, u.1@, u.2@, u.3));
        if unresolved_names(u, ids).is_some() {
            add_sorted(&mut keys, &chars_of(u.1.as_str()));
        }
        i = i + 1;
    }
    proof {
        assert(uv.take(us.len() as int) =~= uv);
    }
    let ghost kv = char_views(keys@);
    let mut out: Vec<(Vec<char>, Vec<(Vec<char>, Vec<Vec<char>>)>)> = Vec::new();
    let mut k: usize = 0;
    while k < keys.len()
        invariant
            0 <= k <= keys.len(),
            uv == use_view(us@),
            idset == name_set(ids@),
            kv == char_views(keys@),
            kv == unresolved_keys(uv, idset),
            lists_view(out@) == with_holders(kv.take(k as int), uv, idset),
        decreases keys.len() - k,
    {
        let hs = holders_for(us, ids, &keys[k]);
        let name = crate::text::slice_range(&keys[k], 0, keys[k].len());
        assert(name@ =~= keys@[k as int]@);
        let ghost before = out@;
        out.push((name, hs));
        proof {
            assert(kv[k as int] == keys@[k as int]@);
            assert(kv.take(k + 1).drop_last() =~= kv.take(k as int));
            assert(lists_view(out@) =~= lists_view(before).push((kv[k as int], holders_view(hs@))));
        }
        k = k + 1;
    }
    proof {
        assert(kv.take(keys.len() as int) =~= kv);
    }
    out
}

/// Where a list of a given size goes among lists ranked by size, the
/// largest first: after every one at least as large.
pub open spec fn first_fewer<T>(r: Seq<(Seq<char>, Seq<T>)>, n: nat) -> nat
    decreases r.len(),
{
    if r.len() == 0 || r[0].1.len() < n {
        0
    } else {
        1 + first_fewer(r.drop_first(), n)
    }
}

/// Named lists ranked by how many items they hold, the most first; lists
/// with as many keep their order.
pub open spec fn ranked<T>(m: Seq<(Seq<char>, Seq<T>)>) -> Seq<(Seq<char>, Seq<T>)>
    decreases m.len(),
{
    if m.len() == 0 {
        Seq::empty()
    } else {
        let r = ranked(m.drop_last());
        r.insert(first_fewer(r, m.last().1.len()) as int, m.last())
    }
}

pub proof fn lemma_first_fewer<T>(r: Seq<(Seq<char>, Seq<T>)>, n: nat, p: int)
    requires
        0 <= p <= r.len(),
        forall|q: int| 0 <= q < p ==> (#[trigger] r[q]).1.len() >= n,
        p < r.len() ==> r[p].1.len() < n,
    ensures
        first_fewer(r, n) == p,
    decreases p,
{
    if p > 0 {
        assert(r[0].1.len() >= n);
        let d = r.drop_first();
        assert forall|q: int| 0 <= q < p - 1 implies (#[trigger] d[q]).1.len() >= n by {
            assert(d[q] == r[q + 1]);
        }
        if p - 1 < d.len() {
            assert(d[p - 1] == r[p]);
        }
        lemma_first_fewer(d, n, p - 1);
    }
}

/// The fields ranked by how many holders they have, the most first.
fn rank(m: Vec<(Vec<char>, Vec<(Vec<char>, Vec<Vec<char>>)>)>) -> (r: Vec<(Vec<char>, Vec<(Vec<char>, Vec<Vec<char>>)>)>)
    ensures
        lists_view(r@) == ranked(lists_view(m@)),
{
    let ghost mv = lists_view(m@);
    let mut rest = m;
    let total = rest.len();
    let mut out: Vec<(Vec<char>, Vec<(Vec<char>, Vec<Vec<char>>)>)> = Vec::new();
    let mut i: usize = 0;
    while rest.len() > 0
        invariant
            0 <= i <= mv.len(),
            mv.len() == total,
            lists_view(rest@) == mv.skip(i as int),
            lists_view(out@) == ranked(mv.take(i as int)),
        decreases rest.len(),
    {
        let ghost rv = lists_view(rest@);
        let x = rest.remove(0);
        proof {
            assert(rv[0] == (x.0@, holders_view(x.1@)));
            assert(lists_view(rest@) =~= rv.drop_first());
            assert(mv.skip(i as int)[0] == mv[i as int]);
            assert(mv.skip(i + 1) =~= mv.skip(i as int).drop_first());
            assert(mv.take(i + 1).drop_last() =~= mv.take(i as int));
            assert(mv.take(i + 1).last() == mv[i as int]);
        }
        let n = x.1.len();
        let ghost ov = lists_view(out@);
        let mut p: usize = 0;
        while p < out.len() && out[p].1.len() >= n
            invariant
                0 <= p <= out.len(),
                ov == lists_view(out@),
                ov.len() == out@.len(),
                n == x.1@.len(),
                forall|q: int| 0 <= q < p ==> (#[trigger] ov[q]).1.len() >= n,
            decreases out.len() - p,
        {
            assert(ov[p as int].1.len() == out@[p as int].1@.len());
            p = p + 1;
        }
        proof {
            if p < out.len() {
                assert(ov[p as int].1.len() == out@[p as int].1@.len());
            }
            assert(holders_view(x.1@).len() == n);
            lemma_first_fewer(ov, n as nat, p as int);
        }
        out.insert(p, x);
        proof {
            assert(lists_view(out@) =~= ov.insert(p as int, mv[i as int]));
        }
        i = i + 1;
    }
    proof {
        assert(mv.skip(i as int).len() == 0);
        assert(mv.take(i as int) =~= mv);
    }
    out
}


/// Every field listed has at least one holder.
pub open spec fn all_held(m: Seq<(Seq<char>, Seq<Holder>)>) -> bool {
    forall|i: int| 0 <= i < m.len() ==> (#[trigger] m[i]).1.len() > 0
}

proof fn lemma_first_fewer_le<T>(r: Seq<(Seq<char>, Seq<T>)>, n: nat)
    ensures
        first_fewer(r, n) <= r.len(),
    decreases r.len(),
{
    if r.len() > 0 && r[0].1.len() >= n {
        lemma_first_fewer_le(r.drop_first(), n);
    }
}

proof fn lemma_holders_grow(us: Seq<Use>, ids: Set<Seq<char>>, f: Seq<char>, n: int)
    requires
        0 <= n <= us.len(),
    ensures
        holders_of(us.take(n), ids, f).len() <= holders_of(us, ids, f).len(),
    decreases us.len() - n,
{
    if n < us.len() {
        lemma_holders_grow(us.drop_last(), ids, f, n);
        assert(us.drop_last().take(n) =~= us.take(n));
    } else {
        assert(us.take(n) =~= us);
    }
}

proof fn lemma_keys_held(us: Seq<Use>, ids: Set<Seq<char>>)
    ensures
        forall|i: int|
            0 <= i < unresolved_keys(us, ids).len() ==> holders_of(us, ids, #[trigger] unresolved_keys(us, ids)[i]).len()
                > 0,
    decreases us.len(),
{
    if us.len() > 0 {
        let d = us.drop_last();
        lemma_keys_held(d, ids);
        let ks = unresolved_keys(d, ids);
        let u = us.last();
        assert forall|i: int| 0 <= i < unresolved_keys(us, ids).len() implies holders_of(
            us,
            ids,
            #[trigger] unresolved_keys(us, ids)[i],
        ).len() > 0 by {
            let f = unresolved_keys(us, ids)[i];
            if unresolved(u, ids) && f == u.1 {
            } else {
                lemma_holders_grow(us, ids, f, us.len() - 1);
                assert(us.take(us.len() - 1) =~= d);
                if unresolved(u, ids) && !ks.contains(u.1) {
                    lemma_place_le(ks, u.1);
                    let p = place(ks, u.1) as int;
                    if i < p {
                        assert(f == ks[i]);
                    } else if i > p {
                        assert(f == ks[i - 1]);
                    }
                } else {
                    assert(f == ks[i]);
                }
            }
        }
    }
}

proof fn lemma_with_holders(fs: Seq<Seq<char>>, us: Seq<Use>, ids: Set<Seq<char>>)
    ensures
        with_holders(fs, us, ids).len() == fs.len(),
        forall|i: int| 0 <= i < fs.len() ==> #[trigger] with_holders(fs, us, ids)[i] == (fs[i], holders_of(us, ids, fs[i])),
    decreases fs.len(),
{
    if fs.len() > 0 {
        lemma_with_holders(fs.drop_last(), us, ids);
        assert forall|i: int| 0 <= i < fs.len() implies #[trigger] with_holders(fs, us, ids)[i] == (fs[i], holders_of(us, ids, fs[i])) by {
            if i < fs.len() - 1 {
                assert(fs.drop_last()[i] == fs[i]);
            }
        }
    }
}

proof fn lemma_lists_held(us: Seq<Use>, ids: Set<Seq<char>>)
    ensures
        all_held(unresolved_lists(us, ids)),
{
    lemma_keys_held(us, ids);
    lemma_with_holders(unresolved_keys(us, ids), us, ids);
    let m = unresolved_lists(us, ids);
    assert forall|i: int| 0 <= i < m.len() implies (#[trigger] m[i]).1.len() > 0 by {
        assert(m[i] == (unresolved_keys(us, ids)[i], holders_of(us, ids, unresolved_keys(us, ids)[i])));
    }
}

proof fn lemma_ranked_held(m: Seq<(Seq<char>, Seq<Holder>)>)
    requires
        all_held(m),
    ensures
        all_held(ranked(m)),
        ranked(m).len() == m.len(),
    decreases m.len(),
{
    if m.len() > 0 {
        let d = m.drop_last();
        assert forall|i: int| 0 <= i < d.len() implies (#[trigger] d[i]).1.len() > 0 by {
            assert(d[i] == m[i]);
        }
        lemma_ranked_held(d);
        let r = ranked(d);
        lemma_first_fewer_le(r, m.last().1.len());
        let p = first_fewer(r, m.last().1.len()) as int;
        let t = ranked(m);
        assert(t == r.insert(p, m.last()));
        assert forall|i: int| 0 <= i < t.len() implies (#[trigger] t[i]).1.len() > 0 by {
            if i < p {
                assert(t[i] == r[i]);
            } else if i > p {
                assert(t[i] == r[i - 1]);
            } else {
                assert(t[i] == m.last());
                assert(m[m.len() - 1].1.len() > 0);
            }
        }
    }
}

/// A text cut to `n` characters and marked, where it is not shorter.
pub open spec fn clip_at(t: Seq<char>, n: nat) -> Seq<char> {
    if t.len() < n {
        t
    } else {
        t.take(n as int) + " ..."@
    }
}

/// The first three names of a list, joined, and marked where there are more.
pub open spec fn names_text(ms: Seq<Seq<char>>) -> Seq<char> {
    join(
        ms.take(
            if ms.len() < 3 {
                ms.len() as int
            } else {
                3
            },
        ),
        ", "@,
    ) + if ms.len() > 3 {
        " ..."@
    } else {
        Seq::empty()
    }
}

/// How many more holders there are than the one shown.
pub open spec fn more_text(n: nat) -> Seq<char> {
    if n > 1 {
        ", and "@ + decimal((n - 1) as nat) + " more"@
    } else {
        Seq::empty()
    }
}

/// A field, what its first holder names that is not an entry, and how many
/// more holders it has.
pub open spec fn holder_line(f: Seq<char>, hs: Seq<Holder>) -> Seq<char> {
    "  "@ + f + ": "@ + clip_at(names_text(hs[0].1), 90) + " (in "@ + hs[0].0 + more_text(hs.len()) + ")"@
}

pub open spec fn holder_lines(r: Seq<(Seq<char>, Seq<Holder>)>) -> Seq<Seq<char>>
    decreases r.len(),
{
    if r.len() == 0 {
        Seq::empty()
    } else {
        holder_lines(r.drop_last()).push(holder_line(r.last().0, r.last().1))
    }
}

pub open spec fn field_names(r: Seq<(Seq<char>, Seq<Holder>)>) -> Seq<Seq<char>>
    decreases r.len(),
{
    if r.len() == 0 {
        Seq::empty()
    } else {
        field_names(r.drop_last()).push(r.last().0)
    }
}

/// The lines naming the fields that list names that are not entries: the
/// three with the most holders, then how many more there are, by name.
pub open spec fn rank_lines(r: Seq<(Seq<char>, Seq<Holder>)>) -> Seq<Seq<char>> {
    if r.len() > 3 {
        holder_lines(r.take(3)).push(
            "  ... and "@ + decimal((r.len() - 3) as nat) + " more: "@ + clip_at(join(field_names(r.skip(3)), ", "@), 90),
        )
    } else {
        holder_lines(r)
    }
}

/// Why no dependency field could be found: nothing declares one, or the
/// fields whose lists name things that are not entries, for a person to
/// choose between.
pub open spec fn no_dependency_text(unresolved: Seq<(Seq<char>, Seq<Holder>)>) -> Seq<char> {
    if unresolved.len() == 0 {
        "no dependency field found: nothing declares what it rests on, so there is no graph to walk"@
    } else {
        "no dependency field found: no field lists names that are all entries in this record, so there is no graph to walk.\nThese list names that are not entries:\n"@
            + join(rank_lines(ranked(unresolved)), "\n"@)
            + "\n\nEither those names are wrong, or one of these is a dependency field this reader cannot see by shape - and it does not guess between them. Fix the names, or say which:\n\nschema:\n  deps: <field name>"@
    }
}

fn clip(t: &Vec<char>, n: usize) -> (r: Vec<char>)
    ensures
        r@ == clip_at(t@, n as nat),
{
    if t.len() < n {
        crate::text::slice_range(t, 0, t.len())
    } else {
        let mut r = crate::text::slice_range(t, 0, n);
        append(&mut r, &chars_of(" ..."));
        r
    }
}

fn holder_text(f: &Vec<char>, hs: &Vec<(Vec<char>, Vec<Vec<char>>)>) -> (r: Vec<char>)
    requires
        hs@.len() > 0,
    ensures
        r@ == holder_line(f@, holders_view(hs@)),
{
    let ghost hv = holders_view(hs@);
    assert(hv[0] == holder_view(hs@[0]));
    let missing = &hs[0].1;
    let k: usize = if missing.len() < 3 {
        missing.len()
    } else {
        3
    };
    let mut first: Vec<Vec<char>> = Vec::new();
    let mut i: usize = 0;
    while i < k
        invariant
            0 <= i <= k <= missing@.len(),
            char_views(first@) == char_views(missing@).take(i as int),
        decreases k - i,
    {
        let n = crate::text::slice_range(&missing[i], 0, missing[i].len());
        assert(n@ =~= missing@[i as int]@);
        let ghost before = first@;
        first.push(n);
        proof {
            assert(char_views(first@) =~= char_views(before).push(n@));
            assert(char_views(missing@)[i as int] == missing@[i as int]@);
            assert(char_views(missing@).take(i + 1) =~= char_views(missing@).take(i as int).push(missing@[i as int]@));
        }
        i = i + 1;
    }
    let mut names = join_with(&first, &chars_of(", "));
    if missing.len() > 3 {
        append(&mut names, &chars_of(" ..."));
    }
    let mut line = chars_of("  ");
    append(&mut line, f);
    append(&mut line, &chars_of(": "));
    append(&mut line, &clip(&names, 90));
    append(&mut line, &chars_of(" (in "));
    append(&mut line, &hs[0].0);
    if hs.len() > 1 {
        append(&mut line, &chars_of(", and "));
        append(&mut line, &decimal_of(hs.len() - 1));
        append(&mut line, &chars_of(" more"));
    }
    append(&mut line, &chars_of(")"));
    proof {
        if missing.len() <= 3 {
            assert(names@ =~= names_text(hv[0].1));
        }
        assert(line@ =~= holder_line(f@, hv));
    }
    line
}

/// Why no dependency field could be found, in words for a person.
fn no_dependency_field(unresolved: Vec<(Vec<char>, Vec<(Vec<char>, Vec<Vec<char>>)>)>) -> (r: String)
    requires
        all_held(lists_view(unresolved@)),
    ensures
        r@ == no_dependency_text(lists_view(unresolved@)),
{
    let ghost uv = lists_view(unresolved@);
    if unresolved.len() == 0 {
        return string_of(
            &chars_of("no dependency field found: nothing declares what it rests on, so there is no graph to walk"),
        );
    }
    let ranked_lists = rank(unresolved);
    let ghost rv = lists_view(ranked_lists@);
    proof {
        lemma_ranked_held(uv);
    }
    let top: usize = if ranked_lists.len() < 3 {
        ranked_lists.len()
    } else {
        3
    };
    let mut lines: Vec<Vec<char>> = Vec::new();
    let mut i: usize = 0;
    while i < top
        invariant
            0 <= i <= top <= ranked_lists@.len(),
            rv == lists_view(ranked_lists@),
            all_held(rv),
            char_views(lines@) == holder_lines(rv.take(i as int)),
        decreases top - i,
    {
        proof {
            assert(rv.take(i + 1).drop_last() =~= rv.take(i as int));
            assert(rv.take(i + 1).last() == rv[i as int]);
            assert(rv[i as int] == (ranked_lists@[i as int].0@, holders_view(ranked_lists@[i as int].1@)));
            assert(rv[i as int].1.len() > 0);
        }
        let line = holder_text(&ranked_lists[i].0, &ranked_lists[i].1);
        let ghost before = lines@;
        lines.push(line);
        proof {
            assert(char_views(lines@) =~= char_views(before).push(line@));
        }
        i = i + 1;
    }
    if ranked_lists.len() > 3 {
        let mut rest: Vec<Vec<char>> = Vec::new();
        let mut j: usize = 3;
        while j < ranked_lists.len()
            invariant
                3 <= j <= ranked_lists@.len(),
                rv == lists_view(ranked_lists@),
                char_views(rest@) == field_names(rv.subrange(3, j as int)),
            decreases ranked_lists.len() - j,
        {
            proof {
                assert(rv.subrange(3, j + 1).drop_last() =~= rv.subrange(3, j as int));
                assert(rv.subrange(3, j + 1).last() == rv[j as int]);
                assert(rv[j as int].0 == ranked_lists@[j as int].0@);
            }
            let n = crate::text::slice_range(&ranked_lists[j].0, 0, ranked_lists[j].0.len());
            assert(n@ =~= ranked_lists@[j as int].0@);
            let ghost before = rest@;
            rest.push(n);
            proof {
                assert(char_views(rest@) =~= char_views(before).push(rv[j as int].0));
            }
            j = j + 1;
        }
        let mut line = chars_of("  ... and ");
        append(&mut line, &decimal_of(ranked_lists.len() - 3));
        append(&mut line, &chars_of(" more: "));
        append(&mut line, &clip(&join_with(&rest, &chars_of(", ")), 90));
        let ghost before = lines@;
        lines.push(line);
        proof {
            assert(rv.subrange(3, rv.len() as int) =~= rv.skip(3));
            assert(char_views(lines@) =~= char_views(before).push(line@));
        }
    } else {
        proof {
            assert(rv.take(rv.len() as int) =~= rv);
        }
    }
    let mut text = chars_of(
        "no dependency field found: no field lists names that are all entries in this record, so there is no graph to walk.\nThese list names that are not entries:\n",
    );
    append(&mut text, &join_with(&lines, &chars_of("\n")));
    append(
        &mut text,
        &chars_of(
            "\n\nEither those names are wrong, or one of these is a dependency field this reader cannot see by shape - and it does not guess between them. Fix the names, or say which:\n\nschema:\n  deps: <field name>",
        ),
    );
    string_of(&text)
}


/// Why a dependency field the schema names reads as missing: nothing the
/// reader can see carries it; the fields it can see follow, cut to 300
/// characters.
pub open spec fn unseen_text(dep: Seq<char>, present: Seq<Seq<char>>) -> Seq<char> {
    let seen = join(present, ", "@);
    "schema names '"@ + dep
        + "' for 'deps', and nothing this reader can see carries it: no judgment would be found, and the record would pass by having nothing left to check."@
        + if seen.len() == 0 {
        Seq::empty()
    } else {
        "\nFields it can see: "@ + clip_at(seen, 300)
    }
}

/// Why a schema's dependency field reads as missing, in words for a person.
fn unseen_dependency_field(dep: &[char], present: &Vec<Vec<char>>) -> (r: String)
    ensures
        r@ == unseen_text(dep@, char_views(present@)),
{
    let seen = join_with(present, &chars_of(", "));
    let mut text = chars_of("schema names '");
    append(&mut text, dep);
    append(
        &mut text,
        &chars_of(
            "' for 'deps', and nothing this reader can see carries it: no judgment would be found, and the record would pass by having nothing left to check.",
        ),
    );
    if seen.len() > 0 {
        append(&mut text, &chars_of("\nFields it can see: "));
        append(&mut text, &clip(&seen, 300));
    }
    proof {
        if seen@.len() == 0 {
            assert(text@ =~= unseen_text(dep@, char_views(present@)));
        }
    }
    string_of(&text)
}

/// `p` stands somewhere in `t`.
pub open spec fn contains_text(t: Seq<char>, p: Seq<char>) -> bool {
    exists|i: int| 0 <= i && i + p.len() <= t.len() && #[trigger] t.subrange(i, i + p.len()) == p
}

/// A failure that is one of this reader's accounts rather than a code.
pub open spec fn explains(t: Seq<char>) -> bool {
    crate::text::starts_with(t, "no dependency field found: "@) || (crate::text::starts_with(t, "schema names '"@)
        && contains_text(t, " for 'deps', and nothing this reader can see carries it: "@))
}

pub(crate) fn holds_text(t: &[char], p: &[char]) -> (r: bool)
    ensures
        r == contains_text(t@, p@),
{
    if p.len() > t.len() {
        proof {
            assert forall|i: int| 0 <= i && i + p@.len() <= t@.len() implies #[trigger] t@.subrange(i, i + p@.len()) != p@ by {}
        }
        return false;
    }
    if p.len() == 0 {
        assert(t@.subrange(0int, 0int + p@.len()) =~= p@);
        return true;
    }
    let last = t.len() - p.len();
    let mut i: usize = 0;
    while i <= last
        invariant
            p@.len() <= t@.len(),
            p@.len() > 0,
            last == t@.len() - p@.len(),
            0 <= i <= last + 1,
            forall|j: int| 0 <= j < i ==> #[trigger] t@.subrange(j, j + p@.len()) != p@,
        decreases t.len() - i,
    {
        let piece = crate::text::slice_range(t, i, i + p.len());
        if same(&piece, p) {
            return true;
        }
        i = i + 1;
    }
    proof {
        assert forall|j: int| 0 <= j && j + p@.len() <= t@.len() implies #[trigger] t@.subrange(j, j + p@.len()) != p@ by {
            assert(j < i);
        }
    }
    false
}

/// Whether a failure is `unreadable`'s account rather than a code.
pub fn explains_unreadable(failure: &Error) -> (r: bool)
    ensures
        r == explains(failure.0@),
{
    let t = chars_of(failure.0.as_str());
    crate::text::has_prefix(&t, &chars_of("no dependency field found: ")) || (crate::text::has_prefix(
        &t,
        &chars_of("schema names '"),
    ) && holds_text(&t, &chars_of(" for 'deps', and nothing this reader can see carries it: ")))
}


/// Why a reader cannot take a record's field roles: a dependency field the
/// schema names and nothing carries, or, where the schema names none, no
/// field whose lists name only entries. Any other cause keeps its code.
pub open spec fn unreadable_spec(doc: Model) -> Seq<char> {
    match collections_of(doc) {
        None => "ordinary_fields_unreadable"@,
        Some(cs) => {
            let ms = flat(cs);
            let us = uses(ms);
            let ids = id_set(ms, us);
            let declared = field_of(field_of(doc, "schema"@), "deps"@);
            if truthy(declared) {
                if declared is Text && !present_set(us).contains(declared->Text_0) {
                    unseen_text(declared->Text_0, present_keys(us))
                } else {
                    "ordinary_fields_unreadable"@
                }
            } else if forall|f: Seq<char>| #[trigger] vote_count(us, ids, f) == 0 {
                no_dependency_text(unresolved_lists(us, ids))
            } else {
                "ordinary_fields_unreadable"@
            }
        },
    }
}

/// The present keys are the fields any entry has.
proof fn lemma_present_keys(us: Seq<Use>, f: Seq<char>)
    ensures
        present_keys(us).contains(f) == present_set(us).contains(f),
    decreases us.len(),
{
    if us.len() > 0 {
        let d = us.drop_last();
        lemma_present_keys(d, f);
        lemma_add_key_has(present_keys(d), us.last().1, f);
        if present_set(d).contains(f) {
            let q = choose|q: int| 0 <= q < d.len() && #[trigger] d[q].1 == f;
            assert(us[q].1 == f);
        }
        if present_set(us).contains(f) {
            let q = choose|q: int| 0 <= q < us.len() && #[trigger] us[q].1 == f;
            if q < d.len() {
                assert(d[q].1 == f);
            }
        }
        if f == us.last().1 {
            assert(us[us.len() - 1].1 == f);
        }
    }
}

/// Why a reader cannot take a record's field roles, in words for a person;
/// where no account applies, the failure keeps its code.
pub fn unreadable(document: &Value) -> (r: Error)
    ensures
        r.0@ == unreadable_spec(document@),
{
    let cs = match collections(document) {
        Ok(c) => c,
        Err(_) => return crate::fields::error("ordinary_fields_unreadable"),
    };
    let ms = member_list(&cs);
    let us = field_uses(&ms);
    let ids = known_ids(&ms, &us);
    let ghost uv = use_view(us@);
    let ghost idset = name_set(ids@);
    let (votes, _unresolved_names, _present_names) = crate::fields::tally_lists(&us, &ids);
    let declared: Option<&Value> = match field(document, "schema") {
        Some(schema) => match field(schema, "deps") {
            Some(d) => if truth(d) {
                Some(d)
            } else {
                None
            },
            None => None,
        },
        None => None,
    };
    proof {
        match field_of(document@, "schema"@) {
            Model::Mapping(es) => {},
            _ => {},
        }
    }
    match declared {
        Some(Value::Text(dep)) => {
            let mut present: Vec<Vec<char>> = Vec::new();
            let mut i: usize = 0;
            while i < us.len()
                invariant
                    0 <= i <= us.len(),
                    uv == use_view(us@),
                    uv.len() == us@.len(),
                    char_views(present@) == present_keys(uv.take(i as int)),
                decreases us.len() - i,
            {
                proof {
                    assert(uv.take(i + 1).drop_last() =~= uv.take(i as int));
                    assert(uv.take(i + 1).last() == uv[i as int]);
                    assert(uv[i as int].1 == us@[i as int].1@);
                }
                add_sorted(&mut present, &chars_of(us[i].1.as_str()));
                i = i + 1;
            }
            proof {
                assert(uv.take(us.len() as int) =~= uv);
            }
            let d = chars_of(dep.as_str());
            let mut seen = false;
            let mut k: usize = 0;
            while k < present.len()
                invariant
                    0 <= k <= present.len(),
                    seen == exists|q: int| 0 <= q < k && #[trigger] present@[q]@ == d@,
                decreases present.len() - k,
            {
                if same(&present[k], &d) {
                    seen = true;
                }
                k = k + 1;
            }
            proof {
                lemma_present_keys(uv, d@);
                let pk = char_views(present@);
                if seen {
                    let q = choose|q: int| 0 <= q < present@.len() && #[trigger] present@[q]@ == d@;
                    assert(pk[q] == d@);
                }
                if pk.contains(d@) {
                    let q = choose|q: int| 0 <= q < pk.len() && pk[q] == d@;
                    assert(present@[q]@ == d@);
                }
            }
            if seen {
                crate::fields::error("ordinary_fields_unreadable")
            } else {
                Error(unseen_dependency_field(&d, &present))
            }
        },
        Some(_) => crate::fields::error("ordinary_fields_unreadable"),
        None => {
            if votes.len() > 0 {
                proof {
                    lemma_count_at(votes@, 0);
                    assert(count_in(votes@, votes@[0].0@) == vote_count(uv, idset, votes@[0].0@));
                }
                crate::fields::error("ordinary_fields_unreadable")
            } else {
                proof {
                    assert forall|f: Seq<char>| #[trigger] vote_count(uv, idset, f) == 0 by {
                        lemma_count_absent(votes@, f);
                        assert(count_in(votes@, f) == vote_count(uv, idset, f));
                    }
                }
                let lists = unresolved_of(&us, &ids);
                proof {
                    lemma_lists_held(uv, idset);
                }
                Error(no_dependency_field(lists))
            }
        },
    }
}


proof fn lemma_starts_after(a: Seq<char>, b: Seq<char>, p: Seq<char>)
    requires
        crate::text::starts_with(a, p),
    ensures
        crate::text::starts_with(a + b, p),
{
    assert((a + b).take(p.len() as int) =~= a.take(p.len() as int));
}

/// What `unreadable` answers, `explains_unreadable` recognises: every account
/// it gives reads as one, and the code it falls back to does not.
pub proof fn lemma_explains_unreadable(doc: Model)
    ensures
        explains(unreadable_spec(doc)) <==> unreadable_spec(doc) != "ordinary_fields_unreadable"@,
{
    let code = "ordinary_fields_unreadable"@;
    let nd = "no dependency field found: "@;
    let sn = "schema names '"@;
    let phrase = " for 'deps', and nothing this reader can see carries it: "@;
    reveal_strlit("ordinary_fields_unreadable");
    reveal_strlit("no dependency field found: ");
    reveal_strlit("schema names '");
    reveal_strlit(" for 'deps', and nothing this reader can see carries it: ");
    reveal_strlit("no dependency field found: nothing declares what it rests on, so there is no graph to walk");
    reveal_strlit(
        "no dependency field found: no field lists names that are all entries in this record, so there is no graph to walk.\nThese list names that are not entries:\n",
    );
    reveal_strlit(
        "' for 'deps', and nothing this reader can see carries it: no judgment would be found, and the record would pass by having nothing left to check.",
    );
    assert(code[0] != nd[0]);
    assert(code[0] != sn[0]);
    assert(!crate::text::starts_with(code, nd));
    assert(!crate::text::starts_with(code, sn));
    let r = unreadable_spec(doc);
    if r != code {
        match collections_of(doc) {
            None => {},
            Some(cs) => {
                let ms = flat(cs);
                let us = uses(ms);
                let ids = id_set(ms, us);
                let declared = field_of(field_of(doc, "schema"@), "deps"@);
                if truthy(declared) {
                    let dep = declared->Text_0;
                    let tail = "' for 'deps', and nothing this reader can see carries it: no judgment would be found, and the record would pass by having nothing left to check."@;
                    let seen = join(present_keys(us), ", "@);
                    let rest: Seq<char> = if seen.len() == 0 {
                        Seq::empty()
                    } else {
                        "\nFields it can see: "@ + clip_at(seen, 300)
                    };
                    assert(r == sn + dep + tail + rest);
                    assert(sn.take(sn.len() as int) =~= sn);
                    lemma_starts_after(sn, dep + tail + rest, sn);
                    assert(sn + dep + tail + rest =~= sn + (dep + tail + rest));
                    let i: int = (sn.len() + dep.len() + 1) as int;
                    let pl: int = phrase.len() as int;
                    assert(tail.subrange(1, 1 + pl) =~= phrase);
                    assert(r.subrange(i, i + pl) =~= tail.subrange(1, 1 + pl));
                    assert(contains_text(r, phrase));
                } else {
                    let u = unresolved_lists(us, ids);
                    if u.len() == 0 {
                        let t = "no dependency field found: nothing declares what it rests on, so there is no graph to walk"@;
                        assert(t.take(nd.len() as int) =~= nd);
                    } else {
                        let t = "no dependency field found: no field lists names that are all entries in this record, so there is no graph to walk.\nThese list names that are not entries:\n"@;
                        assert(t.take(nd.len() as int) =~= nd);
                        let rest = join(rank_lines(ranked(u)), "\n"@)
                            + "\n\nEither those names are wrong, or one of these is a dependency field this reader cannot see by shape - and it does not guess between them. Fix the names, or say which:\n\nschema:\n  deps: <field name>"@;
                        assert(r =~= t + rest);
                        lemma_starts_after(t, rest, nd);
                    }
                }
            },
        }
    }
}


/// The fields named in an account are listed each once, in sorted order.
pub proof fn lemma_keys_sorted(us: Seq<Use>, ids: Set<Seq<char>>)
    ensures
        sorted_names(present_keys(us)),
        sorted_names(unresolved_keys(us, ids)),
    decreases us.len(),
{
    if us.len() > 0 {
        lemma_keys_sorted(us.drop_last(), ids);
        lemma_add_key_sorted(present_keys(us.drop_last()), us.last().1);
        lemma_add_key_sorted(unresolved_keys(us.drop_last(), ids), us.last().1);
    }
}
} // verus!
