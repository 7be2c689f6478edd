//! What an explicit contribution shows a person, and which of its values
//! point at a private place on the contributor's machine.
use vstd::prelude::*;
use crate::text::{
    char_views, chars_of, join, join_with, same, slice_range, split, split_on, starts_with, string_of,
    trim, trimmed,
};
use crate::value::{Model, Value, entries, lemma_entries, lemma_models, model, models};

verus! {

broadcast use vstd::std_specs::vec::group_vec_axioms;

/// A line without the carriage return that may end it.
pub open spec fn strip_cr(l: Seq<char>) -> Seq<char> {
    if l.len() > 0 && l.last() == '\r' {
        l.drop_last()
    } else {
        l
    }
}

/// `str::lines`: the pieces between newlines, without a last empty piece;
/// a piece that a newline ends loses the carriage return before it, and the
/// last piece, which no newline ends, keeps one.
pub open spec fn lines(s: Seq<char>) -> Seq<Seq<char>> {
    let parts = split(s, '\n');
    let n: int = if parts.len() > 0 && parts.last().len() == 0 {
        parts.len() - 1
    } else {
        parts.len() as int
    };
    Seq::new(
        n as nat,
        |i: int|
            if i + 1 < parts.len() {
                strip_cr(parts[i])
            } else {
                parts[i]
            },
    )
}

/// A line where the account of a contribution begins.
pub open spec fn begins_account(l: Seq<char>) -> bool {
    starts_with(l, "add "@) || starts_with(l, "set "@) || starts_with(l, "review "@)
}

/// How many lines come before the account begins.
pub open spec fn before_account(ls: Seq<Seq<char>>) -> nat
    decreases ls.len(),
{
    if ls.len() == 0 || begins_account(ls[0]) {
        0
    } else {
        1 + before_account(ls.drop_first())
    }
}

/// The lines that are neither blank nor one of the diagnostics.
pub open spec fn shown(ls: Seq<Seq<char>>, diagnostics: Seq<Seq<char>>) -> Seq<Seq<char>>
    decreases ls.len(),
{
    if ls.len() == 0 {
        Seq::empty()
    } else {
        let prev = shown(ls.drop_last(), diagnostics);
        let l = ls.last();
        if trim(l).len() > 0 && !diagnostics.contains(l) {
            prev.push(l)
        } else {
            prev
        }
    }
}

/// The notice for a person: the lines before the account of the
/// contribution, without blank lines and without the diagnostics.
pub open spec fn notice(output: Seq<char>, diagnostics: Seq<Seq<char>>) -> Seq<char> {
    let ls = lines(output);
    join(shown(ls.take(before_account(ls) as int), diagnostics), "\n"@)
}

proof fn lemma_before_account(ls: Seq<Seq<char>>, k: int)
    requires
        0 <= k <= ls.len(),
        forall|i: int| 0 <= i < k ==> !begins_account(#[trigger] ls[i]),
        k == ls.len() || begins_account(ls[k]),
    ensures
        before_account(ls) == k,
    decreases ls.len(),
{
    if ls.len() > 0 && k > 0 {
        assert forall|i: int| 0 <= i < k - 1 implies !begins_account(#[trigger] ls.drop_first()[i]) by {
            assert(ls.drop_first()[i] == ls[i + 1]);
        }
        lemma_before_account(ls.drop_first(), k - 1);
    }
}

/// A notice shows no blank line and none of the diagnostics: each line it
/// joins is one of the lines it was given, is not blank, and is not among
/// the diagnostics.
pub proof fn lemma_shown_lines(ls: Seq<Seq<char>>, diagnostics: Seq<Seq<char>>)
    ensures
        forall|i: int|
            0 <= i < shown(ls, diagnostics).len() ==> {
                let l = #[trigger] shown(ls, diagnostics)[i];
                &&& ls.contains(l)
                &&& trim(l).len() > 0
                &&& !diagnostics.contains(l)
            },
    decreases ls.len(),
{
    if ls.len() > 0 {
        let d = ls.drop_last();
        lemma_shown_lines(d, diagnostics);
        let prev = shown(d, diagnostics);
        assert forall|i: int| 0 <= i < shown(ls, diagnostics).len() implies {
            let l = #[trigger] shown(ls, diagnostics)[i];
            &&& ls.contains(l)
            &&& trim(l).len() > 0
            &&& !diagnostics.contains(l)
        } by {
            let l = shown(ls, diagnostics)[i];
            if i < prev.len() {
                assert(l == prev[i]);
                let w = choose|w: int| 0 <= w < d.len() && d[w] == l;
                assert(ls[w] == d[w]);
            } else {
                assert(l == ls.last());
                assert(ls[ls.len() - 1] == l);
            }
        }
    }
}

fn has_prefix_str(l: &[char], p: &str) -> (r: bool)
    ensures
        r == starts_with(l@, p@),
{
    let pc = chars_of(p);
    let b = crate::text::has_prefix(l, &pc);
    proof {
        if pc@.len() <= l@.len() {
            assert(b == (l@.take(pc@.len() as int) == pc@));
        }
    }
    b
}

/// The lines of a program's output that a person should read about a
/// contribution: those before the account of what was added, set or
/// reviewed, less blank lines and the diagnostics already reported.
pub fn human_notice(output: &str, diagnostics: &[String]) -> (r: String)
    ensures
        r@ == notice(output@, crate::page::strings(diagnostics@)),
{
    let ghost ds = crate::page::strings(diagnostics@);
    let cs = chars_of(output);
    let parts = split_on(&cs, '\n');
    proof {
        crate::text::lemma_split_nonempty(output@, '\n');
    }
    let n = if parts[parts.len() - 1].len() == 0 {
        parts.len() - 1
    } else {
        parts.len()
    };
    let ghost ls = lines(output@);
    let mut lns: Vec<Vec<char>> = Vec::new();
    let mut i: usize = 0;
    while i < n
        invariant
            0 <= i <= n,
            n <= parts@.len(),
            parts@.len() == split(output@, '\n').len(),
            forall|q: int| 0 <= q < parts@.len() ==> #[trigger] parts@[q]@ == split(output@, '\n')[q],
            ls == lines(output@),
            ls.len() == n,
            lns@.len() == i,
            forall|q: int| 0 <= q < i ==> #[trigger] lns@[q]@ == ls[q],
        decreases n - i,
    {
        let p = &parts[i];
        let ended = i + 1 < parts.len();
        let line = if ended && p.len() > 0 && p[p.len() - 1] == '\r' {
            slice_range(p, 0, p.len() - 1)
        } else {
            slice_range(p, 0, p.len())
        };
        proof {
            if ended {
                assert(ls[i as int] == strip_cr(split(output@, '\n')[i as int]));
                assert(line@ =~= strip_cr(p@));
            } else {
                assert(ls[i as int] == split(output@, '\n')[i as int]);
                assert(line@ =~= p@);
            }
        }
        lns.push(line);
        i = i + 1;
    }
    let mut k: usize = 0;
    while k < n && !(has_prefix_str(&lns[k], "add ") || has_prefix_str(&lns[k], "set ")
        || has_prefix_str(&lns[k], "review "))
        invariant
            0 <= k <= n,
            lns@.len() == n,
            ls.len() == n,
            forall|q: int| 0 <= q < n ==> #[trigger] lns@[q]@ == ls[q],
            forall|q: int| 0 <= q < k ==> !begins_account(#[trigger] ls[q]),
        decreases n - k,
    {
        k = k + 1;
    }
    proof {
        lemma_before_account(ls, k as int);
    }
    let ghost head = ls.take(k as int);
    let mut kept: Vec<Vec<char>> = Vec::new();
    let mut j: usize = 0;
    while j < k
        invariant
            0 <= j <= k <= n,
            lns@.len() == n,
            ls.len() == n,
            forall|q: int| 0 <= q < n ==> #[trigger] lns@[q]@ == ls[q],
            head == ls.take(k as int),
            ds == crate::page::strings(diagnostics@),
            char_views(kept@) == shown(head.take(j as int), ds),
        decreases k - j,
    {
        let line = &lns[j];
        let blank = trimmed(line).len() == 0;
        let mut listed = false;
        let mut d: usize = 0;
        while d < diagnostics.len()
            invariant
                0 <= d <= diagnostics.len(),
                ds == crate::page::strings(diagnostics@),
                ds.len() == diagnostics@.len(),
                listed <==> exists|q: int| 0 <= q < d && #[trigger] ds[q] == line@,
            decreases diagnostics.len() - d,
        {
            assert(ds[d as int] == diagnostics@[d as int]@);
            if same(line, &chars_of(diagnostics[d].as_str())) {
                listed = true;
            }
            d = d + 1;
        }
        proof {
            assert(head.take(j + 1).drop_last() =~= head.take(j as int));
            assert(head.take(j + 1).last() == line@);
            if ds.contains(line@) {
                let q = choose|q: int| 0 <= q < ds.len() && ds[q] == line@;
                assert(ds[q] == line@);
            }
        }
        if !blank && !listed {
            let ghost before = kept@;
            let copied = slice_range(line, 0, line.len());
            assert(copied@ =~= line@);
            kept.push(copied);
            proof {
                assert(char_views(kept@) =~= char_views(before).push(line@));
            }
        }
        j = j + 1;
    }
    proof {
        assert(head.take(k as int) =~= head);
    }
    let joined = join_with(&kept, &chars_of("\n"));
    string_of(&joined)
}

/// Fields whose texts may say where a thing lives.
pub open spec fn locator_key(k: Seq<char>) -> bool {
    k == "file"@ || k == "path"@ || k == "location"@ || k == "source_file"@ || k == "uri"@ || k
        == "url"@ || k == "from"@
}

/// A text that points at a place on one machine: a `file:` URL, an absolute
/// or home-relative path, or a drive letter followed by a separator.
pub open spec fn private_place(t: Seq<char>) -> bool {
    starts_with(t, "file:"@) || starts_with(t, "/"@) || starts_with(t, "~/"@) || (t.len() >= 3
        && (t[0] as u32) < 128 && t[1] == ':' && (t[2] == '/' || t[2] == '\\'))
}

/// A locator field whose text is a private place.
pub open spec fn private_field(k: Seq<char>, v: Model) -> bool {
    locator_key(k) && match v {
        Model::Text(t) => private_place(t),
        _ => false,
    }
}

/// Whether a value holds, at any depth, a locator field with a private place.
pub open spec fn private_in(m: Model) -> bool
    decreases m, 0nat,
{
    match m {
        Model::Mapping(es) => private_entries(es),
        Model::List(xs) => private_items(xs),
        _ => false,
    }
}

pub open spec fn private_entries(es: Seq<(Seq<char>, Model)>) -> bool
    decreases es, es.len(),
{
    if es.len() == 0 {
        false
    } else {
        proof {
            assert(decreases_to!(es => es[es.len() - 1]));
            assert(decreases_to!(es[es.len() - 1] => es[es.len() - 1].1));
        }
        private_entries(es.drop_last()) || private_field(es.last().0, es.last().1) || private_in(
            es.last().1,
        )
    }
}

pub open spec fn private_items(xs: Seq<Model>) -> bool
    decreases xs, xs.len(),
{
    if xs.len() == 0 {
        false
    } else {
        proof {
            assert(decreases_to!(xs => xs[xs.len() - 1]));
        }
        private_items(xs.drop_last()) || private_in(xs.last())
    }
}

fn is_locator_key(k: &String) -> (r: bool)
    ensures
        r == locator_key(k@),
{
    crate::value::text_is(k, "file") || crate::value::text_is(k, "path") || crate::value::text_is(
        k,
        "location",
    ) || crate::value::text_is(k, "source_file") || crate::value::text_is(k, "uri")
        || crate::value::text_is(k, "url") || crate::value::text_is(k, "from")
}

fn is_private_place(t: &String) -> (r: bool)
    ensures
        r == private_place(t@),
{
    let c = chars_of(t.as_str());
    has_prefix_str(&c, "file:") || has_prefix_str(&c, "/") || has_prefix_str(&c, "~/") || (c.len()
        >= 3 && (c[0] as u32) < 128 && c[1] == ':' && (c[2] == '/' || c[2] == '\\'))
}

/// Whether a value holds, at any depth, a locator pointing at a private place.
pub fn private_locator(value: &Value) -> (r: bool)
    ensures
        r == private_in(value@),
    decreases value,
{
    match value {
        Value::Mapping(fields) => {
            proof {
                lemma_entries(fields@);
            }
            let ghost es = entries(fields@);
            let mut i: usize = 0;
            while i < fields.len()
                invariant
                    0 <= i <= fields.len(),
                    *value == Value::Mapping(*fields),
                    es == entries(fields@),
                    es.len() == fields@.len(),
                    forall|q: int| 0 <= q < fields@.len() ==> #[trigger] es[q] == (fields@[q].0@, model(fields@[q].1)),
                    !private_entries(es.take(i as int)),
                decreases fields.len() - i,
            {
                proof {
                    assert(decreases_to!(*value => (*value)->Mapping_0));
                    assert(decreases_to!((*value)->Mapping_0 => fields@[i as int]));
                    assert(decreases_to!(fields@[i as int] => fields@[i as int].1));
                }
                let here = is_locator_key(&fields[i].0) && match &fields[i].1 {
                    Value::Text(t) => is_private_place(t),
                    _ => false,
                };
                let below = private_locator(&fields[i].1);
                proof {
                    let q = i as int;
                    assert(es[q] == (fields@[q].0@, model(fields@[q].1)));
                    assert(es.take(q + 1).drop_last() =~= es.take(q));
                    assert(es.take(q + 1).last() == es[q]);
                }
                if here || below {
                    proof {
                        lemma_private_prefix(es, i as int + 1);
                    }
                    return true;
                }
                i = i + 1;
            }
            proof {
                assert(es.take(i as int) =~= es);
            }
            false
        },
        Value::List(xs) => {
            proof {
                lemma_models(xs@);
            }
            let ghost ms = models(xs@);
            let mut i: usize = 0;
            while i < xs.len()
                invariant
                    0 <= i <= xs.len(),
                    *value == Value::List(*xs),
                    ms == models(xs@),
                    ms.len() == xs@.len(),
                    forall|q: int| 0 <= q < xs@.len() ==> #[trigger] ms[q] == model(xs@[q]),
                    !private_items(ms.take(i as int)),
                decreases xs.len() - i,
            {
                proof {
                    assert(decreases_to!(*value => (*value)->List_0));
                    assert(decreases_to!((*value)->List_0 => xs@[i as int]));
                }
                let below = private_locator(&xs[i]);
                proof {
                    let q = i as int;
                    assert(ms.take(q + 1).drop_last() =~= ms.take(q));
                    assert(ms.take(q + 1).last() == ms[q]);
                }
                if below {
                    proof {
                        lemma_private_items_prefix(ms, i as int + 1);
                    }
                    return true;
                }
                i = i + 1;
            }
            proof {
                assert(ms.take(i as int) =~= ms);
            }
            false
        },
        _ => false,
    }
}

/// A private locator among the first entries is one among all of them.
proof fn lemma_private_prefix(es: Seq<(Seq<char>, Model)>, n: int)
    requires
        0 <= n <= es.len(),
        private_entries(es.take(n)),
    ensures
        private_entries(es),
    decreases es.len() - n,
{
    if n < es.len() {
        assert(es.take(n + 1).drop_last() =~= es.take(n));
        lemma_private_prefix(es, n + 1);
    } else {
        assert(es.take(n) =~= es);
    }
}

proof fn lemma_private_items_prefix(xs: Seq<Model>, n: int)
    requires
        0 <= n <= xs.len(),
        private_items(xs.take(n)),
    ensures
        private_items(xs),
    decreases xs.len() - n,
{
    if n < xs.len() {
        assert(xs.take(n + 1).drop_last() =~= xs.take(n));
        lemma_private_items_prefix(xs, n + 1);
    } else {
        assert(xs.take(n) =~= xs);
    }
}


/// The source handle of a pending contribution: `contribution.` and its name,
/// without the `pending-` that a name may begin with.
pub open spec fn handle(name: Seq<char>) -> Seq<char> {
    "contribution."@ + if starts_with(name, "pending-"@) {
        name.skip(8)
    } else {
        name
    }
}

pub fn contribution_handle(name: &str) -> (r: String)
    ensures
        r@ == handle(name@),
{
    let n = chars_of(name);
    let pending = chars_of("pending-");
    proof {
        reveal_strlit("pending-");
    }
    let rest = if crate::text::has_prefix(&n, &pending) {
        slice_range(&n, 8, n.len())
    } else {
        n
    };
    let mut out = chars_of("contribution.");
    crate::text::append(&mut out, &rest);
    string_of(&out)
}

} // verus!
