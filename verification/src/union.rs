//! The decisions of laying hypotheses over a base at consolidation: when a
//! replaced judgment changes kind, when a replaced reading is refused or
//! taken by name, and which dependencies a taken judgment drops.
use vstd::prelude::*;
use crate::fields::texts;
use crate::overlay::{shaped, shaped_spec, strings_of};
use crate::page::{holds_string, str_set, strings};
use crate::python::{py, py_str};
use crate::text::{append, chars_lt, chars_of, same, seq_lt, string_of};
use crate::value::{Model, Value, field, field_of, truth, truthy};

verus! {

broadcast use vstd::std_specs::vec::group_vec_axioms;

pub open spec fn not_judgment_text() -> Seq<char> {
    "the base holds a judgment under this id and the hypothesis an entry - a subject does not change kind at the fold, and no name takes this: give it what it rests on and a verdict, or a new id"@
}

pub open spec fn arrangement_dropped_text() -> Seq<char> {
    "what replaces an arrangement is an arrangement - rest on the session sources of the occasion it decides and give it a sign over a count; no name takes a body that drops them"@
}

pub open spec fn arrangement_over_judgment_text() -> Seq<char> {
    "the base holds a judgment under this id and the hypothesis an arrangement - an arrangement is born when it is written in place, and no name takes one over a judgment: write it as its own decision"@
}

/// Why no name takes what a hypothesis lays over a judgment of the base, if
/// that is so: it is not a judgment (a mapping that rests on texts), or it
/// is not an arrangement where the base's is, or it is one where the base's
/// is not. Whether each is an arrangement is given.
pub open spec fn kind_change(new: Model, dep: Seq<char>, old_arrangement: bool, new_arrangement: bool) -> Option<Seq<char>> {
    if !(new is Mapping) || !shaped_spec(new, dep) {
        Some(not_judgment_text())
    } else if old_arrangement && !new_arrangement {
        Some(arrangement_dropped_text())
    } else if !old_arrangement && new_arrangement {
        Some(arrangement_over_judgment_text())
    } else {
        None
    }
}

pub fn judgment_kind_change(new: &Value, dep: &str, old_arrangement: bool, new_arrangement: bool) -> (r: Option<String>)
    ensures
        match r {
            Some(w) => kind_change(new@, dep@, old_arrangement, new_arrangement) == Some(w@),
            None => kind_change(new@, dep@, old_arrangement, new_arrangement) is None,
        },
{
    let is_map = match new {
        Value::Mapping(_) => true,
        _ => false,
    };
    if !is_map || !shaped(new, dep) {
        return Some(string_of(&chars_of("the base holds a judgment under this id and the hypothesis an entry - a subject does not change kind at the fold, and no name takes this: give it what it rests on and a verdict, or a new id")));
    }
    if old_arrangement && !new_arrangement {
        return Some(string_of(&chars_of("what replaces an arrangement is an arrangement - rest on the session sources of the occasion it decides and give it a sign over a count; no name takes a body that drops them")));
    }
    if !old_arrangement && new_arrangement {
        return Some(string_of(&chars_of("the base holds a judgment under this id and the hypothesis an arrangement - an arrangement is born when it is written in place, and no name takes one over a judgment: write it as its own decision")));
    }
    None
}

/// What is decided of a reading laid over an entry of the base, before the
/// general rule of superseding is asked.
pub struct ReadingDecision {
    pub allowed: bool,
    pub why: String,
    /// The id follows a source other than the base's.
    pub sourced: bool,
}

pub open spec fn entry_kind_text() -> Seq<char> {
    "the base holds an entry under this id and the hypothesis a judgment - a subject does not change kind at the fold: set the entry, or give the judgment a new id"@
}

/// Whether the hypothesis reads the entry from another source than the base:
/// both are mappings with a truthy `from`, and the two read differently.
pub open spec fn other_source(new: Model, old: Model) -> bool {
    new is Mapping && old is Mapping && truthy(field_of(new, "from"@)) && truthy(field_of(old, "from"@)) && py_str(
        field_of(new, "from"@),
    ) != py_str(field_of(old, "from"@))
}

/// The decision on a reading `new` laid over the base's entry `old`, in this
/// order: a judgment over an entry is refused; so is a reading dated after
/// today; a reading from another source (where the hypothesis is no file of
/// its own and the claims differ) is taken only by name; an undated reading
/// over a dated one is refused. `None` leaves the decision to the general
/// rule of superseding.
pub open spec fn reading_decision(
    new: Model,
    old: Model,
    dep: Seq<char>,
    read: Option<Seq<char>>,
    old_day: Option<Seq<char>>,
    stamp: Seq<char>,
    from_file: bool,
    same_claim: bool,
    taken: bool,
    hyp: Seq<char>,
    id: Seq<char>,
) -> Option<(bool, Seq<char>, bool)> {
    if shaped_spec(new, dep) {
        Some((false, entry_kind_text(), false))
    } else if read matches Some(d) && seq_lt(stamp, d) {
        Some(
            (
                false,
                "a reading dated "@ + read->0 + ", after today ("@ + stamp
                    + ") - a day is the record's clock, and a day ahead is not read"@,
                false,
            ),
        )
    } else if !from_file && other_source(new, old) && !same_claim {
        let pn = py_str(field_of(new, "from"@));
        let po = py_str(field_of(old, "from"@));
        if taken {
            Some((true, "a reading from "@ + pn + " where the base reads from "@ + po + " - taken by name"@, false))
        } else {
            Some(
                (
                    false,
                    "a reading from "@ + pn + " where the base reads from "@ + po
                        + " - one id follows one source; take it by name: consolidate "@ + hyp + " --take "@ + id,
                    true,
                ),
            )
        }
    } else if read is None && old_day is Some {
        Some((false, "the reading is undated, and the base's is from "@ + old_day->0, false))
    } else {
        None
    }
}

fn from_of(v: &Value) -> (r: Vec<char>)
    ensures
        r@ == py_str(field_of(v@, "from"@)),
{
    match field(v, "from") {
        Some(f) => py(f),
        None => py(&Value::Null),
    }
}

fn from_truthy(v: &Value) -> (r: bool)
    ensures
        r == truthy(field_of(v@, "from"@)),
{
    match field(v, "from") {
        Some(f) => truth(f),
        None => false,
    }
}

/// The decision on a reading laid over an entry of the base; `read` and
/// `old_day` are the days the two were read on, `from_file` whether the
/// hypothesis is a file of its own, `same_claim` whether the two claim the
/// same, and `taken` whether the consolidation names the id.
pub fn entry_reading(
    new: &Value,
    old: &Value,
    dep: &str,
    read: Option<&str>,
    old_day: Option<&str>,
    stamp: &str,
    from_file: bool,
    same_claim: bool,
    taken: bool,
    hyp: &str,
    id: &str,
) -> (r: Option<ReadingDecision>)
    ensures
        ({
            let want = reading_decision(
                new@,
                old@,
                dep@,
                match read {
                    Some(d) => Some(d@),
                    None => None,
                },
                match old_day {
                    Some(d) => Some(d@),
                    None => None,
                },
                stamp@,
                from_file,
                same_claim,
                taken,
                hyp@,
                id@,
            );
            match r {
                Some(d) => want == Some((d.allowed, d.why@, d.sourced)),
                None => want is None,
            }
        }),
{
    if shaped(new, dep) {
        return Some(ReadingDecision { allowed: false, why: string_of(&chars_of("the base holds an entry under this id and the hypothesis a judgment - a subject does not change kind at the fold: set the entry, or give the judgment a new id")), sourced: false });
    }
    match read {
        Some(d) => {
            if chars_lt(&chars_of(stamp), &chars_of(d)) {
                let mut why = chars_of("a reading dated ");
                append(&mut why, &chars_of(d));
                append(&mut why, &chars_of(", after today ("));
                append(&mut why, &chars_of(stamp));
                append(&mut why, &chars_of(") - a day is the record's clock, and a day ahead is not read"));
                return Some(ReadingDecision { allowed: false, why: string_of(&why), sourced: false });
            }
        },
        None => {},
    }
    let maps = match (new, old) {
        (Value::Mapping(_), Value::Mapping(_)) => true,
        _ => false,
    };
    if !from_file && maps && from_truthy(new) && from_truthy(old) && !same_claim {
        let pn = from_of(new);
        let po = from_of(old);
        if !same(&pn, &po) {
            let mut why = chars_of("a reading from ");
            append(&mut why, &pn);
            append(&mut why, &chars_of(" where the base reads from "));
            append(&mut why, &po);
            if taken {
                append(&mut why, &chars_of(" - taken by name"));
                return Some(ReadingDecision { allowed: true, why: string_of(&why), sourced: false });
            }
            append(&mut why, &chars_of(" - one id follows one source; take it by name: consolidate "));
            append(&mut why, &chars_of(hyp));
            append(&mut why, &chars_of(" --take "));
            append(&mut why, &chars_of(id));
            return Some(ReadingDecision { allowed: false, why: string_of(&why), sourced: true });
        }
    }
    match (read, old_day) {
        (None, Some(od)) => {
            let mut why = chars_of("the reading is undated, and the base's is from ");
            append(&mut why, &chars_of(od));
            Some(ReadingDecision { allowed: false, why: string_of(&why), sourced: false })
        },
        _ => None,
    }
}

/// The dependencies of the base's judgment that a taken replacement no
/// longer rests on and the consolidation does not drop by name, in the
/// base's order.
pub open spec fn gone(old: Seq<Seq<char>>, now: Seq<Seq<char>>, drops: Set<Seq<char>>) -> Seq<Seq<char>>
    decreases old.len(),
{
    if old.len() == 0 {
        Seq::empty()
    } else {
        let p = gone(old.drop_last(), now, drops);
        let d = old.last();
        if !now.contains(d) && !drops.contains(d) {
            p.push(d)
        } else {
            p
        }
    }
}

pub open spec fn listed(v: Model) -> Seq<Seq<char>> {
    match v {
        Model::List(xs) => texts(xs),
        _ => Seq::empty(),
    }
}

fn listed_under(v: &Value, dep: &str) -> (r: Vec<String>)
    ensures
        strings(r@) == listed(field_of(v@, dep@)),
{
    match field(v, dep) {
        Some(x) => strings_of(x),
        None => strings_of(&Value::Null),
    }
}

/// What a taken replacement of a judgment stops resting on without naming
/// why: the texts `old` lists under `dep` that `new` does not, and that
/// `drops` does not name.
pub fn gone_dependencies(old: &Value, new: &Value, dep: &str, drops: &Vec<String>) -> (r: Vec<String>)
    ensures
        strings(r@) == gone(listed(field_of(old@, dep@)), listed(field_of(new@, dep@)), str_set(drops@)),
{
    let was = listed_under(old, dep);
    let now = listed_under(new, dep);
    let ghost wv = strings(was@);
    let ghost nv = strings(now@);
    let mut out: Vec<String> = Vec::new();
    let mut i: usize = 0;
    while i < was.len()
        invariant
            0 <= i <= was.len(),
            wv == strings(was@),
            nv == strings(now@),
            strings(out@) == gone(wv.take(i as int), nv, str_set(drops@)),
        decreases was.len() - i,
    {
        let d = chars_of(was[i].as_str());
        let kept = holds_string(&now, &d);
        let named = holds_string(drops, &d);
        proof {
            assert(wv.take(i + 1).drop_last() =~= wv.take(i as int));
            assert(wv.take(i + 1).last() == d@);
            assert(kept == nv.contains(d@)) by {
                if kept {
                    let q = choose|q: int| 0 <= q < now@.len() && #[trigger] now@[q]@ == d@;
                    assert(nv[q] == d@);
                }
                if nv.contains(d@) {
                    let q = choose|q: int| 0 <= q < nv.len() && nv[q] == d@;
                    assert(now@[q]@ == d@);
                }
            }
        }
        if !kept && !named {
            let ghost before = out@;
            out.push(string_of(&d));
            proof {
                assert(strings(out@) =~= strings(before).push(d@));
            }
        }
        i = i + 1;
    }
    assert(wv.take(was.len() as int) =~= wv);
    out
}

/// A reading is refused for its day only when the day is after today: a
/// reading dated today (on the stamp itself) is decided exactly as one dated
/// any earlier day, so the day alone never refuses it.
pub proof fn lemma_reading_dated_today(
    new: Model,
    old: Model,
    dep: Seq<char>,
    earlier: Seq<char>,
    old_day: Option<Seq<char>>,
    stamp: Seq<char>,
    from_file: bool,
    same_claim: bool,
    taken: bool,
    hyp: Seq<char>,
    id: Seq<char>,
)
    requires
        seq_lt(earlier, stamp),
    ensures
        reading_decision(new, old, dep, Some(stamp), old_day, stamp, from_file, same_claim, taken, hyp, id)
            == reading_decision(new, old, dep, Some(earlier), old_day, stamp, from_file, same_claim, taken, hyp, id),
{
    crate::text::lemma_seq_lt_irreflexive(stamp);
    if seq_lt(stamp, earlier) {
        crate::text::lemma_seq_lt_transitive(stamp, earlier, stamp);
    }
}

/// A reading refused for its day is dated after today: where the reading's
/// day `d` is today or earlier, the decision is never the "after today"
/// refusal of `d`.
pub proof fn lemma_refused_day_is_ahead(
    new: Model,
    old: Model,
    dep: Seq<char>,
    d: Seq<char>,
    old_day: Option<Seq<char>>,
    stamp: Seq<char>,
    from_file: bool,
    same_claim: bool,
    taken: bool,
    hyp: Seq<char>,
    id: Seq<char>,
)
    requires
        !shaped_spec(new, dep),
        d == stamp || seq_lt(d, stamp),
    ensures
        reading_decision(new, old, dep, Some(d), old_day, stamp, from_file, same_claim, taken, hyp, id)
            != Some::<(bool, Seq<char>, bool)>(
            (
                false,
                "a reading dated "@ + d + ", after today ("@ + stamp
                    + ") - a day is the record's clock, and a day ahead is not read"@,
                false,
            ),
        ),
{
    crate::text::lemma_seq_lt_irreflexive(stamp);
    if seq_lt(stamp, d) && seq_lt(d, stamp) {
        crate::text::lemma_seq_lt_transitive(stamp, d, stamp);
    }
}

/// A reading of an entry dated after today is refused: where the day is
/// after the stamp, the decision is a refusal.
pub proof fn lemma_reading_ahead_refused(
    new: Model,
    old: Model,
    dep: Seq<char>,
    d: Seq<char>,
    old_day: Option<Seq<char>>,
    stamp: Seq<char>,
    from_file: bool,
    same_claim: bool,
    taken: bool,
    hyp: Seq<char>,
    id: Seq<char>,
)
    requires
        seq_lt(stamp, d),
    ensures
        reading_decision(new, old, dep, Some(d), old_day, stamp, from_file, same_claim, taken, hyp, id) matches Some(
            x,
        ) && !x.0,
{
}

} // verus!
