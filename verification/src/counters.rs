//! The counters a page reads off its brief: intents no tab serves, how many
//! of the newest intents in a row go unserved, and flagged judgments the
//! brief leaves out.
use vstd::prelude::*;
use crate::page::{holds_string, str_set};
use crate::projection::record_view;
use crate::text::chars_of;

verus! {

broadcast use vstd::std_specs::vec::group_vec_axioms;

/// Whether some tab earns `intent`.
pub open spec fn served(earned: Seq<Vec<String>>, intent: Seq<char>) -> bool {
    exists|t: int| 0 <= t < earned.len() && #[trigger] str_set(earned[t]@).contains(intent)
}

/// How many intents of `recorded` have something recorded for them that no
/// tab earns.
pub open spec fn unserved_spec(recorded: Seq<(Seq<char>, Seq<Seq<char>>)>, earned: Seq<Vec<String>>) -> nat
    decreases recorded.len(),
{
    if recorded.len() == 0 {
        0
    } else {
        let (intent, ids) = recorded.last();
        unserved_spec(recorded.drop_last(), earned) + if ids.len() > 0 && !served(earned, intent) {
            1nat
        } else {
            0nat
        }
    }
}

fn is_served(earned: &Vec<Vec<String>>, intent: &Vec<char>) -> (r: bool)
    ensures
        r == served(earned@, intent@),
{
    let mut t: usize = 0;
    while t < earned.len()
        invariant
            0 <= t <= earned.len(),
            forall|q: int| 0 <= q < t ==> !#[trigger] str_set(earned@[q]@).contains(intent@),
        decreases earned.len() - t,
    {
        if holds_string(&earned[t], intent) {
            return true;
        }
        t = t + 1;
    }
    false
}

/// How many intents have something recorded for them that no tab earns;
/// `recorded` pairs each intent with what was recorded for it, and `earned`
/// lists what each tab's sections earn.
pub fn unserved(recorded: &Vec<(String, Vec<String>)>, earned: &Vec<Vec<String>>) -> (r: usize)
    ensures
        r == unserved_spec(record_view(recorded@), earned@),
{
    let ghost rv = record_view(recorded@);
    let mut n: usize = 0;
    let mut i: usize = 0;
    assert(rv.take(0) =~= Seq::<(Seq<char>, Seq<Seq<char>>)>::empty());
    while i < recorded.len()
        invariant
            0 <= i <= recorded.len(),
            rv == record_view(recorded@),
            rv.len() == recorded@.len(),
            n == unserved_spec(rv.take(i as int), earned@),
            n <= i,
        decreases recorded.len() - i,
    {
        assert(rv.take(i + 1).drop_last() =~= rv.take(i as int));
        assert(rv.take(i + 1).last() == rv[i as int]);
        assert(rv[i as int].1.len() == recorded@[i as int].1@.len());
        let intent = chars_of(recorded[i].0.as_str());
        if recorded[i].1.len() > 0 && !is_served(earned, &intent) {
            n = n + 1;
        }
        i = i + 1;
    }
    assert(rv.take(recorded.len() as int) =~= rv);
    n
}

/// A day, where one is known, ordered by year, month and day; an unknown
/// day comes before every known one.
pub open spec fn day_before(a: Option<(i32, u32, u32)>, b: Option<(i32, u32, u32)>) -> bool {
    match (a, b) {
        (None, Some(_)) => true,
        (Some(x), Some(y)) => x.0 < y.0 || (x.0 == y.0 && (x.1 < y.1 || (x.1 == y.1 && x.2 < y.2))),
        _ => false,
    }
}

/// Whether every served intent of `rows` is from a day before `day`.
pub open spec fn after_every_served(rows: Seq<(Option<(i32, u32, u32)>, String, bool)>, day: Option<(i32, u32, u32)>) -> bool {
    forall|s: int| 0 <= s < rows.len() && !rows[s].2 ==> day_before(#[trigger] rows[s].0, day)
}

/// How many of the first `n` rows are newer than every served row.
pub open spec fn streak_spec(rows: Seq<(Option<(i32, u32, u32)>, String, bool)>, n: int) -> nat
    decreases n,
{
    if n <= 0 {
        0
    } else {
        streak_spec(rows, n - 1) + if after_every_served(rows, rows[n - 1].0) {
            1nat
        } else {
            0nat
        }
    }
}

fn before_day(a: Option<(i32, u32, u32)>, b: Option<(i32, u32, u32)>) -> (r: bool)
    ensures
        r == day_before(a, b),
{
    match (a, b) {
        (None, Some(_)) => true,
        (Some(x), Some(y)) => x.0 < y.0 || (x.0 == y.0 && (x.1 < y.1 || (x.1 == y.1 && x.2 < y.2))),
        _ => false,
    }
}

/// How many of the newest intents in a row went unserved: read newest day
/// first, whole days at a time, up to the first day with a served intent.
/// Each row is an intent with something recorded for it: its day, its id,
/// and whether no tab serves it. This is the number of rows newer than
/// every served row.
pub fn recent_unserved(rows: &Vec<(Option<(i32, u32, u32)>, String, bool)>) -> (r: usize)
    ensures
        r == streak_spec(rows@, rows@.len() as int),
{
    let mut n: usize = 0;
    let mut i: usize = 0;
    while i < rows.len()
        invariant
            0 <= i <= rows.len(),
            n == streak_spec(rows@, i as int),
            n <= i,
        decreases rows.len() - i,
    {
        let day = rows[i].0;
        let mut s: usize = 0;
        let mut newer = true;
        while s < rows.len()
            invariant
                0 <= s <= rows.len(),
                i < rows.len(),
                day == rows@[i as int].0,
                newer == (forall|k: int| 0 <= k < s && !rows@[k].2 ==> day_before(#[trigger] rows@[k].0, day)),
            decreases rows.len() - s,
        {
            if !rows[s].2 && !before_day(rows[s].0, day) {
                newer = false;
            }
            s = s + 1;
        }
        if newer {
            n = n + 1;
        }
        i = i + 1;
    }
    n
}

/// How many flagged judgments none of the tabs' sections pick.
pub open spec fn spill_spec(states: Seq<(String, Vec<String>)>, chosen: Set<Seq<char>>) -> nat
    decreases states.len(),
{
    if states.len() == 0 {
        0
    } else {
        let (id, flags) = states.last();
        spill_spec(states.drop_last(), chosen) + if flags@.len() > 0 && !chosen.contains(id@) {
            1nat
        } else {
            0nat
        }
    }
}

/// How many flagged judgments (`states` pairs each with its flags) are not
/// among the ids `chosen` by any tab's sections.
pub fn spill(states: &Vec<(String, Vec<String>)>, chosen: &Vec<String>) -> (r: usize)
    ensures
        r == spill_spec(states@, str_set(chosen@)),
{
    let mut n: usize = 0;
    let mut i: usize = 0;
    assert(states@.take(0) =~= Seq::<(String, Vec<String>)>::empty());
    while i < states.len()
        invariant
            0 <= i <= states.len(),
            n == spill_spec(states@.take(i as int), str_set(chosen@)),
            n <= i,
        decreases states.len() - i,
    {
        assert(states@.take(i + 1).drop_last() =~= states@.take(i as int));
        assert(states@.take(i + 1).last() == states@[i as int]);
        if states[i].1.len() > 0 && !holds_string(chosen, &chars_of(states[i].0.as_str())) {
            n = n + 1;
        }
        i = i + 1;
    }
    assert(states@.take(states.len() as int) =~= states@);
    n
}

/// How many of the first `n` rows go unserved.
pub open spec fn unserved_rows(rows: Seq<(Option<(i32, u32, u32)>, String, bool)>, n: int) -> nat
    decreases n,
{
    if n <= 0 {
        0
    } else {
        unserved_rows(rows, n - 1) + if rows[n - 1].2 {
            1nat
        } else {
            0nat
        }
    }
}

/// The newest-unserved count counts only intents that go unserved: a served
/// intent is never newer than itself.
pub proof fn lemma_streak_counts_unserved(rows: Seq<(Option<(i32, u32, u32)>, String, bool)>, n: int)
    requires
        0 <= n <= rows.len(),
    ensures
        streak_spec(rows, n) <= unserved_rows(rows, n),
    decreases n,
{
    if n > 0 {
        lemma_streak_counts_unserved(rows, n - 1);
        if after_every_served(rows, rows[n - 1].0) && !rows[n - 1].2 {
            assert(day_before(rows[n - 1].0, rows[n - 1].0));
        }
    }
}

/// A calendar day written as (year, month, day).
pub open spec fn calendar_day(d: (i32, u32, u32)) -> bool {
    1 <= d.1 <= 12 && 1 <= d.2 <= 31
}

/// A day's place on the calendar: later days have larger numbers.
pub open spec fn day_number(d: (i32, u32, u32)) -> int {
    d.0 as int * 512 + d.1 as int * 32 + d.2 as int
}

/// Days are ordered as the calendar orders them: one day comes before
/// another exactly when its place on the calendar is earlier, so within a
/// month the earlier day of the month comes first; and an unknown day comes
/// before every known one and after none.
pub proof fn lemma_days_in_calendar_order(a: (i32, u32, u32), b: (i32, u32, u32))
    requires
        calendar_day(a),
        calendar_day(b),
    ensures
        day_before(Some(a), Some(b)) <==> day_number(a) < day_number(b),
        a.0 == b.0 && a.1 == b.1 && a.2 < b.2 ==> day_before(Some(a), Some(b)),
        day_before(None, Some(b)),
        !day_before(Some(a), None),
        !day_before(None::<(i32, u32, u32)>, None),
        !day_before(Some(a), Some(a)),
{
}

proof fn lemma_streak_grows(rows: Seq<(Option<(i32, u32, u32)>, String, bool)>, m: int, n: int)
    requires
        0 <= m <= n,
    ensures
        streak_spec(rows, m) <= streak_spec(rows, n),
    decreases n - m,
{
    if m < n {
        lemma_streak_grows(rows, m, n - 1);
    }
}

/// An unserved intent read on a day later on the calendar than every
/// served intent's day (or where the served intents are undated) is counted
/// among the newest unserved: the count is at least one.
pub proof fn lemma_newest_unserved_counted(rows: Seq<(Option<(i32, u32, u32)>, String, bool)>, i: int)
    requires
        0 <= i < rows.len(),
        rows[i].2,
        rows[i].0 is Some,
        calendar_day(rows[i].0->0),
        forall|s: int|
            0 <= s < rows.len() && !rows[s].2 ==> (#[trigger] rows[s].0 is None || (calendar_day(rows[s].0->0)
                && day_number(rows[s].0->0) < day_number(rows[i].0->0))),
    ensures
        streak_spec(rows, rows.len() as int) >= 1,
{
    assert forall|s: int| 0 <= s < rows.len() && !rows[s].2 implies day_before(#[trigger] rows[s].0, rows[i].0) by {
        if rows[s].0 is Some {
            lemma_days_in_calendar_order(rows[s].0->0, rows[i].0->0);
        }
    }
    assert(after_every_served(rows, rows[i].0));
    assert(streak_spec(rows, i + 1) >= 1);
    lemma_streak_grows(rows, i + 1, rows.len() as int);
}

/// Where a served intent was read on a day no earlier on the calendar than
/// any intent's day, no intent is newer than every served one: the count of
/// the newest unserved is zero.
pub proof fn lemma_newest_served_counts_none(rows: Seq<(Option<(i32, u32, u32)>, String, bool)>, s: int)
    requires
        0 <= s < rows.len(),
        !rows[s].2,
        rows[s].0 is Some,
        calendar_day(rows[s].0->0),
        forall|r: int|
            0 <= r < rows.len() ==> (#[trigger] rows[r].0 is None || (calendar_day(rows[r].0->0) && day_number(
                rows[r].0->0,
            ) <= day_number(rows[s].0->0))),
    ensures
        streak_spec(rows, rows.len() as int) == 0,
{
    lemma_none_newer(rows, s, rows.len() as int);
}

proof fn lemma_none_newer(rows: Seq<(Option<(i32, u32, u32)>, String, bool)>, s: int, n: int)
    requires
        0 <= s < rows.len(),
        0 <= n <= rows.len(),
        !rows[s].2,
        rows[s].0 is Some,
        calendar_day(rows[s].0->0),
        forall|r: int|
            0 <= r < rows.len() ==> (#[trigger] rows[r].0 is None || (calendar_day(rows[r].0->0) && day_number(
                rows[r].0->0,
            ) <= day_number(rows[s].0->0))),
    ensures
        streak_spec(rows, n) == 0,
    decreases n,
{
    if n > 0 {
        lemma_none_newer(rows, s, n - 1);
        let r = n - 1;
        assert(rows[r].0 is None || (calendar_day(rows[r].0->0) && day_number(rows[r].0->0) <= day_number(rows[s].0->0)));
        if rows[r].0 is Some {
            lemma_days_in_calendar_order(rows[s].0->0, rows[r].0->0);
        }
        assert(!day_before(rows[s].0, rows[r].0));
        assert(!after_every_served(rows, rows[r].0));
    }
}

} // verus!
