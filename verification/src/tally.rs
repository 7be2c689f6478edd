//! Counts and sets of names, as the readers keep them while they walk a record.
use vstd::prelude::*;
use crate::text::{char_views, chars_lt, same, seq_lt};

verus! {

/// One more, saturating at `usize::MAX`.
pub open spec fn inc(n: nat) -> nat {
    if n < usize::MAX {
        n + 1
    } else {
        n
    }
}

/// The count a tally holds for `k` (zero when it holds none).
pub open spec fn count_in(t: Seq<(Vec<char>, usize)>, k: Seq<char>) -> nat
    decreases t.len(),
{
    if t.len() == 0 {
        0
    } else if t.last().0@ == k {
        t.last().1 as nat
    } else {
        count_in(t.drop_last(), k)
    }
}

/// A tally as a function from names to counts.
pub open spec fn counter(t: Seq<(Vec<char>, usize)>) -> spec_fn(Seq<char>) -> nat {
    |f: Seq<char>| count_in(t, f)
}

/// Each name at most once, each with a count of at least one.
pub open spec fn tally_wf(t: Seq<(Vec<char>, usize)>) -> bool {
    &&& forall|i: int, j: int| 0 <= i < j < t.len() ==> #[trigger] t[i].0@ != #[trigger] t[j].0@
    &&& forall|i: int| 0 <= i < t.len() ==> #[trigger] t[i].1 >= 1
}

pub proof fn lemma_count_at(t: Seq<(Vec<char>, usize)>, i: int)
    requires
        tally_wf(t),
        0 <= i < t.len(),
    ensures
        count_in(t, t[i].0@) == t[i].1,
    decreases t.len(),
{
    if i < t.len() - 1 {
        assert(t.last().0@ != t[i].0@) by {
            assert(t[i].0@ != t[t.len() - 1].0@);
        }
        assert(t.drop_last()[i] == t[i]);
        assert(tally_wf(t.drop_last())) by {
            assert forall|a: int, b: int| 0 <= a < b < t.drop_last().len() implies #[trigger] t.drop_last()[a].0@
                != #[trigger] t.drop_last()[b].0@ by {
                assert(t.drop_last()[a] == t[a]);
                assert(t.drop_last()[b] == t[b]);
            }
            assert forall|a: int| 0 <= a < t.drop_last().len() implies #[trigger] t.drop_last()[a].1 >= 1 by {
                assert(t.drop_last()[a] == t[a]);
            }
        }
        lemma_count_at(t.drop_last(), i);
    }
}

pub proof fn lemma_count_absent(t: Seq<(Vec<char>, usize)>, k: Seq<char>)
    requires
        forall|i: int| 0 <= i < t.len() ==> #[trigger] t[i].0@ != k,
    ensures
        count_in(t, k) == 0,
    decreases t.len(),
{
    if t.len() > 0 {
        assert forall|i: int| 0 <= i < t.drop_last().len() implies #[trigger] t.drop_last()[i].0@ != k by {
            assert(t.drop_last()[i] == t[i]);
        }
        lemma_count_absent(t.drop_last(), k);
    }
}

proof fn lemma_count_update(t: Seq<(Vec<char>, usize)>, i: int, e: (Vec<char>, usize), k: Seq<char>)
    requires
        0 <= i < t.len(),
        e.0@ == t[i].0@,
        tally_wf(t),
    ensures
        count_in(t.update(i, e), k) == if k == e.0@ {
            e.1 as nat
        } else {
            count_in(t, k)
        },
    decreases t.len(),
{
    let u = t.update(i, e);
    if i == t.len() - 1 {
        assert(u.drop_last() =~= t.drop_last());
    } else {
        assert(u.drop_last() =~= t.drop_last().update(i, e));
        assert(t.last().0@ != t[i].0@) by {
            assert(t[i].0@ != t[t.len() - 1].0@);
        }
        assert(tally_wf(t.drop_last())) by {
            assert forall|a: int, b: int| 0 <= a < b < t.drop_last().len() implies #[trigger] t.drop_last()[a].0@
                != #[trigger] t.drop_last()[b].0@ by {
                assert(t.drop_last()[a] == t[a]);
                assert(t.drop_last()[b] == t[b]);
            }
            assert forall|a: int| 0 <= a < t.drop_last().len() implies #[trigger] t.drop_last()[a].1 >= 1 by {
                assert(t.drop_last()[a] == t[a]);
            }
        }
        lemma_count_update(t.drop_last(), i, e, k);
    }
}

/// Counts `k` once more.
pub fn bump(t: &mut Vec<(Vec<char>, usize)>, k: &[char])
    requires
        tally_wf(old(t)@),
    ensures
        tally_wf(final(t)@),
        forall|x: Seq<char>| #[trigger] count_in(final(t)@, x) == if x == k@ {
            inc(count_in(old(t)@, x))
        } else {
            count_in(old(t)@, x)
        },
{
    let mut i: usize = 0;
    while i < t.len()
        invariant
            0 <= i <= t.len(),
            t@ == old(t)@,
            tally_wf(old(t)@),
            forall|j: int| 0 <= j < i ==> #[trigger] t@[j].0@ != k@,
        decreases t.len() - i,
    {
        if same(&t[i].0, k) {
            let n = t[i].1;
            let name = crate::text::slice_range(&t[i].0, 0, t[i].0.len());
            assert(name@ =~= t@[i as int].0@);
            let n2 = if n < usize::MAX {
                n + 1
            } else {
                n
            };
            proof {
                lemma_count_at(t@, i as int);
            }
            let ghost before = t@;
            t.set(i, (name, n2));
            proof {
                assert forall|x: Seq<char>| #[trigger] count_in(t@, x) == if x == k@ {
                    inc(count_in(old(t)@, x))
                } else {
                    count_in(old(t)@, x)
                } by {
                    lemma_count_update(before, i as int, (name, n2), x);
                }
                assert forall|a: int, b: int| 0 <= a < b < t@.len() implies #[trigger] t@[a].0@ != #[trigger] t@[b].0@ by {
                    assert(before[a].0@ != before[b].0@);
                    assert(t@[a].0@ == before[a].0@);
                    assert(t@[b].0@ == before[b].0@);
                }
                assert forall|a: int| 0 <= a < t@.len() implies #[trigger] t@[a].1 >= 1 by {
                    assert(before[a].1 >= 1);
                }
            }
            return;
        }
        i = i + 1;
    }
    proof {
        lemma_count_absent(t@, k@);
    }
    let name = crate::text::slice_range(k, 0, k.len());
    assert(name@ =~= k@);
    let ghost before = t@;
    t.push((name, 1));
    proof {
        assert(t@.drop_last() =~= before);
        assert forall|a: int, b: int| 0 <= a < b < t@.len() implies #[trigger] t@[a].0@ != #[trigger] t@[b].0@ by {
            if b < before.len() {
                assert(before[a].0@ != before[b].0@);
            }
        }
    }
}

/// Whether `k` is among `names`.
pub fn holds_name(names: &Vec<Vec<char>>, k: &[char]) -> (r: bool)
    ensures
        r == exists|i: int| 0 <= i < names@.len() && #[trigger] names@[i]@ == k@,
{
    let mut i: usize = 0;
    while i < names.len()
        invariant
            0 <= i <= names.len(),
            forall|j: int| 0 <= j < i ==> #[trigger] names@[j]@ != k@,
        decreases names.len() - i,
    {
        if same(&names[i], k) {
            return true;
        }
        i = i + 1;
    }
    false
}

/// The names of a list, as a set.
pub open spec fn name_set(names: Seq<Vec<char>>) -> Set<Seq<char>> {
    Set::new(|x: Seq<char>| exists|i: int| 0 <= i < names.len() && #[trigger] names[i]@ == x)
}

/// A name is in a list's set exactly when the list's views hold it.
pub proof fn lemma_name_set_views(names: Seq<Vec<char>>, x: Seq<char>)
    ensures
        name_set(names).contains(x) == char_views(names).contains(x),
{
    let cv = char_views(names);
    if name_set(names).contains(x) {
        let i = choose|i: int| 0 <= i < names.len() && #[trigger] names[i]@ == x;
        assert(cv[i] == x);
    }
    if cv.contains(x) {
        let i = choose|i: int| 0 <= i < cv.len() && cv[i] == x;
        assert(names[i]@ == x);
    }
}

/// Adds `k` to a list of names unless it is there; a list kept in ascending
/// order stays so (the order a `BTreeSet` of names keeps).
pub fn add_name(names: &mut Vec<Vec<char>>, k: &[char])
    ensures
        name_set(final(names)@) == name_set(old(names)@).insert(k@),
        sorted_names(char_views(old(names)@)) ==> sorted_names(char_views(final(names)@)),
{
    let ghost before = names@;
    add_sorted(names, k);
    proof {
        if sorted_names(char_views(before)) {
            lemma_add_key_sorted(char_views(before), k@);
        }
        assert(name_set(names@) =~= name_set(before).insert(k@)) by {
            assert forall|x: Seq<char>| #[trigger] name_set(names@).contains(x) == name_set(before).insert(k@).contains(x) by {
                lemma_add_key_contains(char_views(before), k@, x);
                lemma_name_set_views(names@, x);
                lemma_name_set_views(before, x);
            }
        }
    }
}


/// How many of a sorted list's leading names sort below `k`.
pub open spec fn place(ks: Seq<Seq<char>>, k: Seq<char>) -> nat
    decreases ks.len(),
{
    if ks.len() == 0 || !seq_lt(ks[0], k) {
        0
    } else {
        1 + place(ks.drop_first(), k)
    }
}

/// A sorted list of names with `k` added in its place, unless it is there.
pub open spec fn add_key(ks: Seq<Seq<char>>, k: Seq<char>) -> Seq<Seq<char>> {
    if ks.contains(k) {
        ks
    } else {
        ks.insert(place(ks, k) as int, k)
    }
}

pub proof fn lemma_place(ks: Seq<Seq<char>>, k: Seq<char>, p: int)
    requires
        0 <= p <= ks.len(),
        forall|q: int| 0 <= q < p ==> seq_lt(#[trigger] ks[q], k),
        p < ks.len() ==> !seq_lt(ks[p], k),
    ensures
        place(ks, k) == p,
    decreases p,
{
    if p > 0 {
        assert(seq_lt(ks[0], k));
        let d = ks.drop_first();
        assert forall|q: int| 0 <= q < p - 1 implies seq_lt(#[trigger] d[q], k) by {
            assert(d[q] == ks[q + 1]);
        }
        if p - 1 < d.len() {
            assert(d[p - 1] == ks[p]);
        }
        lemma_place(d, k, p - 1);
    }
}

/// Adds `k` to a sorted list of names in its place, unless it is there.
pub fn add_sorted(ks: &mut Vec<Vec<char>>, k: &[char])
    ensures
        char_views(final(ks)@) == add_key(char_views(old(ks)@), k@),
{
    let ghost v = char_views(ks@);
    let mut i: usize = 0;
    while i < ks.len()
        invariant
            0 <= i <= ks.len(),
            v == char_views(ks@),
            v.len() == ks@.len(),
            forall|q: int| 0 <= q < i ==> #[trigger] v[q] != k@,
        decreases ks.len() - i,
    {
        assert(v[i as int] == ks@[i as int]@);
        if same(&ks[i], k) {
            proof {
                assert(v.contains(k@));
            }
            return;
        }
        i = i + 1;
    }
    proof {
        if v.contains(k@) {
            let q = choose|q: int| 0 <= q < v.len() && v[q] == k@;
            assert(v[q] != k@);
        }
    }
    let mut p: usize = 0;
    while p < ks.len() && chars_lt(&ks[p], k)
        invariant
            0 <= p <= ks.len(),
            v == char_views(ks@),
            v.len() == ks@.len(),
            forall|q: int| 0 <= q < p ==> seq_lt(#[trigger] v[q], k@),
        decreases ks.len() - p,
    {
        assert(v[p as int] == ks@[p as int]@);
        p = p + 1;
    }
    proof {
        if p < ks.len() {
            assert(v[p as int] == ks@[p as int]@);
        }
        lemma_place(v, k@, p as int);
    }
    let name = crate::text::slice_range(k, 0, k.len());
    assert(name@ =~= k@);
    ks.insert(p, name);
    proof {
        assert(char_views(ks@) =~= v.insert(p as int, k@));
    }
}

pub proof fn lemma_place_le(ks: Seq<Seq<char>>, k: Seq<char>)
    ensures
        place(ks, k) <= ks.len(),
    decreases ks.len(),
{
    if ks.len() > 0 && seq_lt(ks[0], k) {
        lemma_place_le(ks.drop_first(), k);
    }
}

/// Adding a key to a list adds it and nothing else.
pub proof fn lemma_add_key_has(ks: Seq<Seq<char>>, k: Seq<char>, x: Seq<char>)
    ensures
        add_key(ks, k).contains(x) == (ks.contains(x) || x == k),
{
    if !ks.contains(k) {
        lemma_place_le(ks, k);
        let p = place(ks, k) as int;
        let a = add_key(ks, k);
        assert(a[p] == k);
        if ks.contains(x) {
            let j = choose|j: int| 0 <= j < ks.len() && ks[j] == x;
            if j < p {
                assert(a[j] == x);
            } else {
                assert(a[j + 1] == x);
            }
        }
        if a.contains(x) {
            let j = choose|j: int| 0 <= j < a.len() && a[j] == x;
            if j < p {
                assert(ks[j] == x);
            } else if j > p {
                assert(ks[j - 1] == x);
            }
        }
    }
}


/// Strictly sorted: each name sorts below every later one, so none stands
/// twice.
pub open spec fn sorted_names(ks: Seq<Seq<char>>) -> bool {
    forall|i: int, j: int| 0 <= i < j < ks.len() ==> seq_lt(#[trigger] ks[i], #[trigger] ks[j])
}

proof fn lemma_place_bounds(ks: Seq<Seq<char>>, k: Seq<char>)
    ensures
        place(ks, k) <= ks.len(),
        forall|q: int| 0 <= q < place(ks, k) ==> seq_lt(#[trigger] ks[q], k),
        place(ks, k) < ks.len() ==> !seq_lt(ks[place(ks, k) as int], k),
    decreases ks.len(),
{
    if ks.len() > 0 && seq_lt(ks[0], k) {
        let d = ks.drop_first();
        lemma_place_bounds(d, k);
        assert forall|q: int| 0 <= q < place(ks, k) implies seq_lt(#[trigger] ks[q], k) by {
            if q > 0 {
                assert(ks[q] == d[q - 1]);
            }
        }
        if place(ks, k) < ks.len() {
            assert(ks[place(ks, k) as int] == d[place(d, k) as int]);
        }
    }
}

/// Adding `k` to a list of names holds what the list held, and `k`.
pub proof fn lemma_add_key_contains(ks: Seq<Seq<char>>, k: Seq<char>, x: Seq<char>)
    ensures
        add_key(ks, k).contains(x) == (ks.contains(x) || x == k),
{
    if !ks.contains(k) {
        lemma_place_bounds(ks, k);
        let p = place(ks, k) as int;
        let r = ks.insert(p, k);
        assert(r[p] == k);
        if ks.contains(x) {
            let q = choose|q: int| 0 <= q < ks.len() && ks[q] == x;
            if q < p {
                assert(r[q] == ks[q]);
            } else {
                assert(r[q + 1] == ks[q]);
            }
        }
        if r.contains(x) {
            let q = choose|q: int| 0 <= q < r.len() && r[q] == x;
            if q < p {
                assert(ks[q] == x);
            } else if q > p {
                assert(ks[q - 1] == x);
            }
        }
    }
}

/// Adding a name keeps a list sorted: the list stays strictly sorted, so
/// each name stands once, in order.
pub proof fn lemma_add_key_sorted(ks: Seq<Seq<char>>, k: Seq<char>)
    requires
        sorted_names(ks),
    ensures
        sorted_names(add_key(ks, k)),
{
    if !ks.contains(k) {
        lemma_place_bounds(ks, k);
        let p = place(ks, k) as int;
        let r = ks.insert(p, k);
        if p < ks.len() {
            assert(ks[p] != k);
            crate::text::lemma_seq_lt_total(ks[p], k);
        }
        assert forall|i: int, j: int| 0 <= i < j < r.len() implies seq_lt(#[trigger] r[i], #[trigger] r[j]) by {
            if j < p {
                assert(r[i] == ks[i] && r[j] == ks[j]);
            } else if j == p {
                assert(r[i] == ks[i] && r[j] == k);
            } else if i < p {
                assert(r[i] == ks[i] && r[j] == ks[j - 1]);
            } else if i == p {
                assert(r[i] == k && r[j] == ks[j - 1]);
                if j - 1 > p {
                    crate::text::lemma_seq_lt_transitive(k, ks[p], ks[j - 1]);
                }
            } else {
                assert(r[i] == ks[i - 1] && r[j] == ks[j - 1]);
            }
        }
    }
}
} // verus!
