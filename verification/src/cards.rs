//! What a page's cards and notes say in words: a judgment's states in the
//! page's language, a tab's title, and how a tab's recorded shape moved.
use vstd::prelude::*;
use crate::page::{Tab, decimal, decimal_of, strings, textish, textish_of};
use crate::text::{chars_of, join, join_with, string_of, char_views};
use crate::value::{Model, Value, entries, get, lookup, text_is, truth, truthy};

verus! {

broadcast use vstd::std_specs::vec::group_vec_axioms;

/// The states a card names, the most urgent first.
pub open spec fn urgent() -> Seq<Seq<char>> {
    seq![
        "broken"@,
        "falsified"@,
        "unchecked"@,
        "unknown"@,
        "reversed"@,
        "moved"@,
        "blocked"@,
        "no_predicate"@,
    ]
}

/// Where a state stands among the urgent ones, or -1.
pub open spec fn urgency(flag: Seq<char>) -> int {
    if flag == "broken"@ {
        0
    } else if flag == "falsified"@ {
        1
    } else if flag == "unchecked"@ {
        2
    } else if flag == "unknown"@ {
        3
    } else if flag == "reversed"@ {
        4
    } else if flag == "moved"@ {
        5
    } else if flag == "blocked"@ {
        6
    } else if flag == "no_predicate"@ {
        7
    } else {
        -1
    }
}

/// What each urgent state says, in the page's language (Hebrew, Arabic, or
/// else English), in the order of `urgent`.
pub open spec fn phrases(language: Seq<char>) -> Seq<Seq<char>> {
    if language == "he"@ {
        seq![
            "נשען על משהו שאינו ברשומה הזו"@,
            "התנאי שהוא עצמו הציב לכך שהוא שגוי מתקיים עכשיו"@,
            "מעולם לא נבדק מול אחד הדברים שהוא נשען עליהם"@,
            "לא ניתן להכריע כרגע בתנאי שלו"@,
            "המסקנה שלו הוחלפה תחת המזהה הזה ואיש לא סקר אותה מאז"@,
            "משהו שהוא נשען עליו כבר לא מה שראה לאחרונה"@,
            "ממתין למשהו שאיש עוד לא רשם"@,
            "שום דבר כאן לא יראה שהוא שגוי"@,
        ]
    } else if language == "ar"@ {
        seq![
            "يستند إلى شيء غير موجود في السجل"@,
            "تحقق شرط خطئه"@,
            "لم يراجع مقابل بعض ما يستند إليه"@,
            "لا يمكن تقييم شرطه حاليًا"@,
            "استُبدل حكمه تحت هذا المعرّف ولم يراجعه أحد منذ ذلك الحين"@,
            "تغير شيء يستند إليه منذ مراجعته"@,
            "ينتظر شيئاً لم يسجل بعد"@,
            "لا يوجد هنا ما يبيّن خطأه"@,
        ]
    } else {
        seq![
            "rests on something that is not in this record"@,
            "its own condition for being wrong now holds"@,
            "has never been checked against one of the things it rests on"@,
            "its condition cannot currently be evaluated"@,
            "its verdict was replaced under this id and nobody has reviewed it since"@,
            "something it rests on no longer matches what it last saw"@,
            "waiting on something nobody has recorded yet"@,
            "nothing here would show it to be wrong"@,
        ]
    }
}

/// What a card says of a state, where the state is one it words.
pub open spec fn says_spec(language: Seq<char>, flag: Seq<char>) -> Option<Seq<char>> {
    if urgency(flag) >= 0 {
        Some(phrases(language)[urgency(flag)])
    } else {
        None
    }
}

fn urgency_of(flag: &str) -> (r: i32)
    ensures
        r == urgency(flag@),
{
    let f = chars_of(flag);
    if crate::text::same(&f, &chars_of("broken")) {
        0
    } else if crate::text::same(&f, &chars_of("falsified")) {
        1
    } else if crate::text::same(&f, &chars_of("unchecked")) {
        2
    } else if crate::text::same(&f, &chars_of("unknown")) {
        3
    } else if crate::text::same(&f, &chars_of("reversed")) {
        4
    } else if crate::text::same(&f, &chars_of("moved")) {
        5
    } else if crate::text::same(&f, &chars_of("blocked")) {
        6
    } else if crate::text::same(&f, &chars_of("no_predicate")) {
        7
    } else {
        -1
    }
}

fn phrase(language: &str, i: i32) -> (r: &'static str)
    requires
        0 <= i < 8,
    ensures
        r@ == phrases(language@)[i as int],
{
    let l = chars_of(language);
    if crate::text::same(&l, &chars_of("he")) {
        if i == 0 {
            "נשען על משהו שאינו ברשומה הזו"
        } else if i == 1 {
            "התנאי שהוא עצמו הציב לכך שהוא שגוי מתקיים עכשיו"
        } else if i == 2 {
            "מעולם לא נבדק מול אחד הדברים שהוא נשען עליהם"
        } else if i == 3 {
            "לא ניתן להכריע כרגע בתנאי שלו"
        } else if i == 4 {
            "המסקנה שלו הוחלפה תחת המזהה הזה ואיש לא סקר אותה מאז"
        } else if i == 5 {
            "משהו שהוא נשען עליו כבר לא מה שראה לאחרונה"
        } else if i == 6 {
            "ממתין למשהו שאיש עוד לא רשם"
        } else {
            "שום דבר כאן לא יראה שהוא שגוי"
        }
    } else if crate::text::same(&l, &chars_of("ar")) {
        if i == 0 {
            "يستند إلى شيء غير موجود في السجل"
        } else if i == 1 {
            "تحقق شرط خطئه"
        } else if i == 2 {
            "لم يراجع مقابل بعض ما يستند إليه"
        } else if i == 3 {
            "لا يمكن تقييم شرطه حاليًا"
        } else if i == 4 {
            "استُبدل حكمه تحت هذا المعرّف ولم يراجعه أحد منذ ذلك الحين"
        } else if i == 5 {
            "تغير شيء يستند إليه منذ مراجعته"
        } else if i == 6 {
            "ينتظر شيئاً لم يسجل بعد"
        } else {
            "لا يوجد هنا ما يبيّن خطأه"
        }
    } else {
        if i == 0 {
            "rests on something that is not in this record"
        } else if i == 1 {
            "its own condition for being wrong now holds"
        } else if i == 2 {
            "has never been checked against one of the things it rests on"
        } else if i == 3 {
            "its condition cannot currently be evaluated"
        } else if i == 4 {
            "its verdict was replaced under this id and nobody has reviewed it since"
        } else if i == 5 {
            "something it rests on no longer matches what it last saw"
        } else if i == 6 {
            "waiting on something nobody has recorded yet"
        } else {
            "nothing here would show it to be wrong"
        }
    }
}

/// What a card says of a state in the page's language: None for a state
/// it does not word.
pub fn says(language: &str, flag: &str) -> (r: Option<&'static str>)
    ensures
        match r {
            Some(s) => says_spec(language@, flag@) == Some(s@),
            None => says_spec(language@, flag@) is None,
        },
{
    let i = urgency_of(flag);
    if i >= 0 {
        Some(phrase(language, i))
    } else {
        None
    }
}


/// The urgent states among `flags`, worded, the first `n` of `urgent` only.
pub open spec fn urgent_parts(flags: Seq<Seq<char>>, language: Seq<char>, n: nat) -> Seq<Seq<char>>
    decreases n,
{
    if n == 0 {
        Seq::empty()
    } else {
        let p = urgent_parts(flags, language, (n - 1) as nat);
        let u = urgent()[n - 1];
        if flags.contains(u) {
            p.push(says_spec(language, u)->Some_0)
        } else {
            p
        }
    }
}

/// The states a card has no words for, as they are.
pub open spec fn other_parts(flags: Seq<Seq<char>>, language: Seq<char>) -> Seq<Seq<char>>
    decreases flags.len(),
{
    if flags.len() == 0 {
        Seq::empty()
    } else {
        let p = other_parts(flags.drop_last(), language);
        if says_spec(language, flags.last()) is None {
            p.push(flags.last())
        } else {
            p
        }
    }
}

/// "Unverified" in the page's language.
pub open spec fn unverified_word(language: Seq<char>) -> Seq<char> {
    if language == "he"@ {
        "לא אומת"@
    } else if language == "ar"@ {
        "غير متحقق"@
    } else {
        "unverified"@
    }
}

/// What a body leaves unverified, worded, where it says so.
pub open spec fn unverified_part(body: Seq<(Seq<char>, Model)>, language: Seq<char>) -> Seq<Seq<char>> {
    match lookup(body, "unverified"@) {
        Some(v) => if truthy(v) {
            seq![unverified_word(language) + ": "@ + textish(v)]
        } else {
            Seq::empty()
        },
        None => Seq::empty(),
    }
}

/// A card's line of states: the worded urgent states, the most urgent
/// first, then the states it has no words for, then what is unverified,
/// joined by "; "; nothing where there is none of these.
pub open spec fn state_line_spec(flags: Seq<Seq<char>>, body: Seq<(Seq<char>, Model)>, language: Seq<char>) -> Option<Seq<char>> {
    let parts = urgent_parts(flags, language, 8) + other_parts(flags, language) + unverified_part(body, language);
    if parts.len() == 0 {
        None
    } else {
        Some(join(parts, "; "@))
    }
}

/// Each urgent state stands at its own place.
proof fn lemma_urgency(i: int)
    requires
        0 <= i < 8,
    ensures
        urgency(urgent()[i]) == i,
{
    reveal_strlit("broken");
    reveal_strlit("falsified");
    reveal_strlit("unchecked");
    reveal_strlit("unknown");
    reveal_strlit("reversed");
    reveal_strlit("moved");
    reveal_strlit("blocked");
    reveal_strlit("no_predicate");
    let u = urgent();
    assert(u[0] == "broken"@);
    assert(u[1] == "falsified"@);
    assert(u[2] == "unchecked"@);
    assert(u[3] == "unknown"@);
    assert(u[4] == "reversed"@);
    assert(u[5] == "moved"@);
    assert(u[6] == "blocked"@);
    assert(u[7] == "no_predicate"@);
    assert("falsified"@ != "broken"@ && "falsified"@[0] != "broken"@[0]);
    assert("unchecked"@[0] != "broken"@[0] && "unchecked"@[0] != "falsified"@[0]);
    assert("unknown"@[0] != "broken"@[0] && "unknown"@[0] != "falsified"@[0] && "unknown"@[2] != "unchecked"@[2]);
    assert("reversed"@[0] != "broken"@[0] && "reversed"@[0] != "falsified"@[0] && "reversed"@[0] != "unchecked"@[0]
        && "reversed"@[0] != "unknown"@[0]);
    assert("moved"@[0] != "broken"@[0] && "moved"@[0] != "falsified"@[0] && "moved"@[0] != "unchecked"@[0]
        && "moved"@[0] != "unknown"@[0] && "moved"@[0] != "reversed"@[0]);
    assert("blocked"@[1] != "broken"@[1] && "blocked"@[0] != "falsified"@[0] && "blocked"@[0] != "unchecked"@[0]
        && "blocked"@[0] != "unknown"@[0] && "blocked"@[0] != "reversed"@[0] && "blocked"@[0] != "moved"@[0]);
    assert("no_predicate"@[0] != "broken"@[0] && "no_predicate"@[0] != "falsified"@[0] && "no_predicate"@[0]
        != "unchecked"@[0] && "no_predicate"@[0] != "unknown"@[0] && "no_predicate"@[0] != "reversed"@[0]
        && "no_predicate"@[0] != "moved"@[0] && "no_predicate"@[0] != "blocked"@[0]);
}

fn urgent_flag(i: i32) -> (r: &'static str)
    requires
        0 <= i < 8,
    ensures
        r@ == urgent()[i as int],
{
    if i == 0 {
        "broken"
    } else if i == 1 {
        "falsified"
    } else if i == 2 {
        "unchecked"
    } else if i == 3 {
        "unknown"
    } else if i == 4 {
        "reversed"
    } else if i == 5 {
        "moved"
    } else if i == 6 {
        "blocked"
    } else {
        "no_predicate"
    }
}

fn holds_flag(flags: &Vec<String>, f: &str) -> (r: bool)
    ensures
        r == strings(flags@).contains(f@),
{
    let mut i: usize = 0;
    while i < flags.len()
        invariant
            0 <= i <= flags.len(),
            forall|q: int| 0 <= q < i ==> #[trigger] flags@[q]@ != f@,
        decreases flags.len() - i,
    {
        if text_is(&flags[i], f) {
            proof {
                assert(strings(flags@)[i as int] == f@);
            }
            return true;
        }
        i = i + 1;
    }
    proof {
        if strings(flags@).contains(f@) {
            let q = choose|q: int| 0 <= q < strings(flags@).len() && strings(flags@)[q] == f@;
            assert(flags@[q]@ == f@);
        }
    }
    false
}

/// What a card says about a judgment that needs a person: its states, the
/// most urgent first, then the states it has no words for, then what is
/// unverified about it. `flags` are the judgment's states in sorted order.
pub fn state_line(flags: &Vec<String>, body: &Vec<(String, Value)>, language: &str) -> (r: Option<String>)
    ensures
        match r {
            Some(s) => state_line_spec(strings(flags@), entries(body@), language@) == Some(s@),
            None => state_line_spec(strings(flags@), entries(body@), language@) is None,
        },
{
    let ghost fs = strings(flags@);
    let mut parts: Vec<Vec<char>> = Vec::new();
    let mut i: i32 = 0;
    while i < 8
        invariant
            0 <= i <= 8,
            fs == strings(flags@),
            char_views(parts@) == urgent_parts(fs, language@, i as nat),
        decreases 8 - i,
    {
        let u = urgent_flag(i);
        if holds_flag(flags, u) {
            let ghost before = parts@;
            proof {
                lemma_urgency(i as int);
            }
            let w = says(language, u);
            match w {
                Some(t) => {
                    parts.push(chars_of(t));
                    proof {
                        assert(char_views(parts@) =~= char_views(before).push(t@));
                    }
                },
                None => {},
            }
        }
        i = i + 1;
    }
    let mut k: usize = 0;
    let ghost head = char_views(parts@);
    while k < flags.len()
        invariant
            0 <= k <= flags.len(),
            fs == strings(flags@),
            char_views(parts@) == head + other_parts(fs.take(k as int), language@),
        decreases flags.len() - k,
    {
        proof {
            assert(fs.take(k + 1).drop_last() =~= fs.take(k as int));
            assert(fs.take(k + 1).last() == flags@[k as int]@);
        }
        if says(language, flags[k].as_str()).is_none() {
            let ghost before = parts@;
            parts.push(chars_of(flags[k].as_str()));
            proof {
                assert(char_views(parts@) =~= char_views(before).push(flags@[k as int]@));
            }
        }
        k = k + 1;
    }
    proof {
        assert(fs.take(flags.len() as int) =~= fs);
    }
    let ghost mid = char_views(parts@);
    match get(body, "unverified") {
        Some(v) => {
            if truth(v) {
                let l = chars_of(language);
                let word = if crate::text::same(&l, &chars_of("he")) {
                    "לא אומת"
                } else if crate::text::same(&l, &chars_of("ar")) {
                    "غير متحقق"
                } else {
                    "unverified"
                };
                let mut line = chars_of(word);
                crate::text::append(&mut line, &chars_of(": "));
                crate::text::append(&mut line, &chars_of(textish_of(v).as_str()));
                let ghost before = parts@;
                parts.push(line);
                proof {
                    assert(char_views(parts@) =~= char_views(before).push(line@));
                }
            }
        },
        None => {},
    }
    proof {
        assert(char_views(parts@) =~= head + other_parts(fs, language@) + unverified_part(entries(body@), language@));
    }
    if parts.len() == 0 {
        None
    } else {
        Some(string_of(&join_with(&parts, &chars_of("; "))))
    }
}

/// A tab's title, or "Now" for a tab that has none.
pub fn tab_title(tab: &Tab) -> (r: &str)
    ensures
        r@ == if tab.title@.len() == 0 {
            "Now"@
        } else {
            tab.title@
        },
{
    if tab.title.as_str().unicode_len() == 0 {
        "Now"
    } else {
        tab.title.as_str()
    }
}


/// The figures a tab records of the page's shape, in the order they are reported.
pub open spec fn shape_keys() -> Seq<Seq<char>> {
    seq!["entries"@, "judgments"@, "flagged"@, "blocked"@]
}

pub open spec fn count_view(s: Seq<(String, usize)>) -> Seq<(Seq<char>, usize)> {
    s.map_values(|p: (String, usize)| (p.0@, p.1))
}

/// The first `n` figures that moved: each one the tab recorded and the page
/// now counts, whose recorded text differs from the count now.
pub open spec fn moves(old: Seq<(Seq<char>, Model)>, now: Seq<(Seq<char>, usize)>, n: nat) -> Seq<Seq<char>>
    decreases n,
{
    if n == 0 {
        Seq::empty()
    } else {
        let p = moves(old, now, (n - 1) as nat);
        let k = shape_keys()[n - 1];
        match (lookup(old, k), lookup(now, k)) {
            (Some(o), Some(c)) => if textish(o) != decimal(c as nat) {
                p.push(k + ": "@ + textish(o) + " -> "@ + decimal(c as nat))
            } else {
                p
            },
            _ => p,
        }
    }
}

fn shape_key(i: usize) -> (r: &'static str)
    requires
        i < 4,
    ensures
        r@ == shape_keys()[i as int],
{
    if i == 0 {
        "entries"
    } else if i == 1 {
        "judgments"
    } else if i == 2 {
        "flagged"
    } else {
        "blocked"
    }
}

fn count_at(s: &Vec<(String, usize)>, key: &str) -> (r: Option<usize>)
    ensures
        r == lookup(count_view(s@), key@),
{
    let ghost v = count_view(s@);
    let mut i: usize = 0;
    while i < s.len()
        invariant
            0 <= i <= s.len(),
            v == count_view(s@),
            v.len() == s@.len(),
            forall|q: int| 0 <= q < i ==> #[trigger] v[q].0 != key@,
        decreases s.len() - i,
    {
        assert(v[i as int] == (s@[i as int].0@, s@[i as int].1));
        if text_is(&s[i].0, key) {
            proof {
                crate::value::lemma_key_index(v, key@, i as int);
            }
            return Some(s[i].1);
        }
        i = i + 1;
    }
    proof {
        crate::value::lemma_no_key(v, key@);
    }
    None
}

/// How the page's shape moved since a tab recorded it: one line per figure
/// the tab recorded whose text no longer matches the page's count.
pub fn shape_moves(tab: &Tab, shape: &Vec<(String, usize)>) -> (r: Vec<String>)
    ensures
        strings(r@) == moves(entries(tab.shape@), count_view(shape@), 4),
{
    let mut out: Vec<String> = Vec::new();
    let mut i: usize = 0;
    while i < 4
        invariant
            0 <= i <= 4,
            strings(out@) == moves(entries(tab.shape@), count_view(shape@), i as nat),
        decreases 4 - i,
    {
        let key = shape_key(i);
        match (get(&tab.shape, key), count_at(shape, key)) {
            (Some(o), Some(c)) => {
                let was = chars_of(textish_of(o).as_str());
                let now = decimal_of(c);
                if !crate::text::same(&was, &now) {
                    let mut line = chars_of(key);
                    crate::text::append(&mut line, &chars_of(": "));
                    crate::text::append(&mut line, &was);
                    crate::text::append(&mut line, &chars_of(" -> "));
                    crate::text::append(&mut line, &now);
                    let ghost before = out@;
                    out.push(string_of(&line));
                    proof {
                        assert(strings(out@) =~= strings(before).push(line@));
                    }
                }
            },
            _ => {},
        }
        i = i + 1;
    }
    out
}


/// The name under which a relation's count is reported.
pub open spec fn count_label(relation: Seq<char>) -> Seq<char> {
    if relation == "rests_on"@ {
        "dependency_count"@
    } else if relation == "from"@ {
        "source_count"@
    } else {
        relation + "_count"@
    }
}

/// One relation's count as a word: `label=count`.
pub open spec fn count_word(p: (Seq<char>, usize)) -> Seq<char> {
    count_label(p.0) + "="@ + decimal(p.1 as nat)
}

pub open spec fn count_words(counts: Seq<(Seq<char>, usize)>) -> Seq<Seq<char>> {
    counts.map_values(|p: (Seq<char>, usize)| count_word(p))
}

fn count_label_of(relation: &String) -> (r: Vec<char>)
    ensures
        r@ == count_label(relation@),
{
    if text_is(relation, "rests_on") {
        chars_of("dependency_count")
    } else if text_is(relation, "from") {
        chars_of("source_count")
    } else {
        let mut r = chars_of(relation.as_str());
        crate::text::append(&mut r, &chars_of("_count"));
        r
    }
}

/// A cell's relation counts in words: each relation's `label=count`, in the
/// order given (a JSON object keeps its keys sorted), joined by single spaces.
pub fn relation_counts(counts: &Vec<(String, usize)>) -> (r: String)
    ensures
        r@ == join(count_words(count_view(counts@)), " "@),
{
    let ghost cv = count_view(counts@);
    let mut parts: Vec<Vec<char>> = Vec::new();
    let mut i: usize = 0;
    while i < counts.len()
        invariant
            0 <= i <= counts.len(),
            cv == count_view(counts@),
            parts.len() == i,
            forall|j: int| 0 <= j < i ==> #[trigger] parts@[j]@ == count_word(cv[j]),
        decreases counts.len() - i,
    {
        let mut word = count_label_of(&counts[i].0);
        crate::text::append(&mut word, &chars_of("="));
        crate::text::append(&mut word, &decimal_of(counts[i].1));
        parts.push(word);
        i = i + 1;
    }
    proof {
        assert(char_views(parts@) =~= count_words(cv));
    }
    let joined = join_with(&parts, &chars_of(" "));
    string_of(&joined)
}

} // verus!
