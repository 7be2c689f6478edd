//! What a fold of hypotheses into the base says it did: each replacement
//! and what it kept, what a replaced judgment stopped resting on, the tally
//! of what was folded, the files to commit, and why a fold is undone.
use vstd::prelude::*;
use crate::page::{decimal, decimal_of, strings};
use crate::text::{append, char_views, chars_of, join, join_with, string_of};
use crate::union::{gone, gone_dependencies, listed};
use crate::value::{Model, Value, field_of, has_key, map_entries};

verus! {

broadcast use vstd::std_specs::vec::group_vec_axioms;

fn joined(parts: &Vec<String>, sep: &str) -> (r: Vec<char>)
    ensures
        r@ == join(strings(parts@), sep@),
{
    let mut cs: Vec<Vec<char>> = Vec::new();
    let mut i: usize = 0;
    while i < parts.len()
        invariant
            0 <= i <= parts.len(),
            cs@.len() == i,
            forall|q: int| 0 <= q < i ==> #[trigger] cs@[q]@ == parts@[q]@,
        decreases parts.len() - i,
    {
        cs.push(chars_of(parts[i].as_str()));
        i = i + 1;
    }
    assert(char_views(cs@) =~= strings(parts@));
    join_with(&cs, &chars_of(sep))
}

/// The line of a replacement: what replaces the id, and what it kept where
/// the replaced judgment was renewed (and born anew).
pub open spec fn replace_text(id: Seq<char>, hyp: Seq<char>, renewed: bool, born: bool) -> Seq<char> {
    "replace "@ + id + " with what "@ + hyp + " holds, where it stands"@ + if renewed && born {
        " - born renewed, and what it replaced kept"@
    } else if renewed {
        " - what it replaced kept"@
    } else {
        Seq::empty()
    }
}

pub fn replace_line(id: &str, hyp: &str, renewed: bool, born: bool) -> (r: String)
    ensures
        r@ == replace_text(id@, hyp@, renewed, born),
{
    let mut out = chars_of("replace ");
    append(&mut out, &chars_of(id));
    append(&mut out, &chars_of(" with what "));
    append(&mut out, &chars_of(hyp));
    append(&mut out, &chars_of(" holds, where it stands"));
    if renewed && born {
        append(&mut out, &chars_of(" - born renewed, and what it replaced kept"));
    } else if renewed {
        append(&mut out, &chars_of(" - what it replaced kept"));
    } else {
        assert(out@ + Seq::<char>::empty() =~= out@);
    }
    string_of(&out)
}

/// Which of a judgment's `verdict`, `because` and `request` it holds, in
/// that order.
pub open spec fn kept_fields(old: Model) -> Seq<Seq<char>> {
    let es = map_entries(old);
    let a: Seq<Seq<char>> = if old is Mapping && has_key(es, "verdict"@) {
        seq!["verdict"@]
    } else {
        Seq::empty()
    };
    let b: Seq<Seq<char>> = if old is Mapping && has_key(es, "because"@) {
        seq!["because"@]
    } else {
        Seq::empty()
    };
    let c: Seq<Seq<char>> = if old is Mapping && has_key(es, "request"@) {
        seq!["request"@]
    } else {
        Seq::empty()
    };
    a + b + c
}

/// The line that says what of a replaced judgment was kept, and where.
pub open spec fn kept_text(old: Model, replaced_path: Seq<char>) -> Seq<char> {
    let ks = kept_fields(old);
    "  kept: the replaced "@ + (if ks.len() == 0 {
        "body"@
    } else {
        join(ks, ", "@)
    }) + ", in "@ + replaced_path
}

fn holds_field(old: &Value, k: &str) -> (r: bool)
    ensures
        r == (old@ is Mapping && has_key(map_entries(old@), k@)),
{
    match old {
        Value::Mapping(es) => {
            proof {
                crate::value::lemma_entries(es@);
            }
            match crate::value::find(es, k) {
                Some(i) => {
                    proof {
                        crate::value::lemma_key_index(crate::value::entries(es@), k@, i as int);
                    }
                    true
                },
                None => false,
            }
        },
        _ => false,
    }
}

pub fn kept_line(old: &Value, replaced_path: &str) -> (r: String)
    ensures
        r@ == kept_text(old@, replaced_path@),
{
    let mut ks: Vec<String> = Vec::new();
    if holds_field(old, "verdict") {
        ks.push(string_of(&chars_of("verdict")));
    }
    if holds_field(old, "because") {
        ks.push(string_of(&chars_of("because")));
    }
    if holds_field(old, "request") {
        ks.push(string_of(&chars_of("request")));
    }
    assert(strings(ks@) =~= kept_fields(old@));
    let mut out = chars_of("  kept: the replaced ");
    if ks.len() == 0 {
        append(&mut out, &chars_of("body"));
    } else {
        append(&mut out, &joined(&ks, ", "));
    }
    append(&mut out, &chars_of(", in "));
    append(&mut out, &chars_of(replaced_path));
    string_of(&out)
}

/// What a renewed judgment no longer rests on, where it dropped anything.
pub open spec fn dropped_text(old: Model, new: Model, dep: Seq<char>) -> Option<Seq<char>> {
    let g = gone(listed(field_of(old, dep)), listed(field_of(new, dep)), Set::empty());
    if g.len() == 0 {
        None
    } else {
        Some("  no longer rests on "@ + join(g, "; "@))
    }
}

pub fn dropped_line(old: &Value, new: &Value, dep: &str) -> (r: Option<String>)
    ensures
        match r {
            Some(s) => dropped_text(old@, new@, dep@) == Some(s@),
            None => dropped_text(old@, new@, dep@) is None,
        },
{
    let none: Vec<String> = Vec::new();
    let g = gone_dependencies(old, new, dep, &none);
    proof {
        assert(crate::page::str_set(none@) =~= Set::<Seq<char>>::empty());
    }
    if g.len() == 0 {
        return None;
    }
    let mut out = chars_of("  no longer rests on ");
    append(&mut out, &joined(&g, "; "));
    Some(string_of(&out))
}

/// The tally of a fold: nothing to write, or how many entries and judgments
/// were folded, added and replaced.
pub open spec fn tally_text(names: Seq<char>, hyps: nat, writes: nat, judgments: nat, added: nat, replaced: nat) -> Seq<char> {
    if writes == 0 {
        "nothing to write: the base already holds everything "@ + names + " propose"@ + if hyps == 1 {
            "s"@
        } else {
            Seq::empty()
        }
    } else {
        let ne = (writes - judgments) as nat;
        "folded "@ + names + ": "@ + decimal(ne) + (if ne == 1 {
            " entry"@
        } else {
            " entries"@
        }) + " and "@ + decimal(judgments) + (if judgments == 1 {
            " judgment"@
        } else {
            " judgments"@
        }) + " - "@ + decimal(added) + " added, "@ + decimal(replaced) + " replaced"@
    }
}

/// The tally line of a fold by the hypotheses `names` (joined), of `writes`
/// writes of which `judgments` are judgments.
pub fn tally_line(names: &str, hyps: usize, writes: usize, judgments: usize, added: usize, replaced: usize) -> (r: String)
    requires
        judgments <= writes,
    ensures
        r@ == tally_text(names@, hyps as nat, writes as nat, judgments as nat, added as nat, replaced as nat),
{
    if writes == 0 {
        let mut out = chars_of("nothing to write: the base already holds everything ");
        append(&mut out, &chars_of(names));
        append(&mut out, &chars_of(" propose"));
        if hyps == 1 {
            append(&mut out, &chars_of("s"));
        } else {
            assert(out@ + Seq::<char>::empty() =~= out@);
        }
        return string_of(&out);
    }
    let ne = writes - judgments;
    let mut out = chars_of("folded ");
    append(&mut out, &chars_of(names));
    append(&mut out, &chars_of(": "));
    append(&mut out, &decimal_of(ne));
    if ne == 1 {
        append(&mut out, &chars_of(" entry"));
    } else {
        append(&mut out, &chars_of(" entries"));
    }
    append(&mut out, &chars_of(" and "));
    append(&mut out, &decimal_of(judgments));
    if judgments == 1 {
        append(&mut out, &chars_of(" judgment"));
    } else {
        append(&mut out, &chars_of(" judgments"));
    }
    append(&mut out, &chars_of(" - "));
    append(&mut out, &decimal_of(added));
    append(&mut out, &chars_of(" added, "));
    append(&mut out, &decimal_of(replaced));
    append(&mut out, &chars_of(" replaced"));
    string_of(&out)
}

/// The files a fold asks to commit.
pub open spec fn files_text(shown: Seq<Seq<char>>) -> Seq<char> {
    "files to commit: "@ + if shown.len() == 0 {
        "none"@
    } else {
        join(shown, ", "@)
    }
}

pub fn files_line(shown: &Vec<String>) -> (r: String)
    ensures
        r@ == files_text(strings(shown@)),
{
    let mut out = chars_of("files to commit: ");
    if shown.len() == 0 {
        append(&mut out, &chars_of("none"));
    } else {
        append(&mut out, &joined(shown, ", "));
    }
    string_of(&out)
}

/// Why a fold is undone where its checks fail on what it folded: the first
/// three failures that the base did not already have.
pub open spec fn worse_text(worse: Seq<Seq<char>>) -> Option<Seq<char>> {
    if worse.len() == 0 {
        None
    } else {
        Some(
            "the fold broke the record and was undone: check fails on what was folded: "@ + join(
                worse.take(if worse.len() < 3 {
                    worse.len() as int
                } else {
                    3
                }),
                "; "@,
            ),
        )
    }
}

pub fn worse_checks(worse: &Vec<String>) -> (r: Option<String>)
    ensures
        match r {
            Some(s) => worse_text(strings(worse@)) == Some(s@),
            None => worse_text(strings(worse@)) is None,
        },
{
    if worse.len() == 0 {
        return None;
    }
    let n = if worse.len() < 3 {
        worse.len()
    } else {
        3
    };
    let mut first: Vec<String> = Vec::new();
    let mut i: usize = 0;
    while i < n
        invariant
            0 <= i <= n <= worse.len(),
            first@.len() == i,
            forall|q: int| 0 <= q < i ==> #[trigger] first@[q]@ == worse@[q]@,
        decreases n - i,
    {
        first.push(string_of(&chars_of(worse[i].as_str())));
        i = i + 1;
    }
    assert(strings(first@) =~= strings(worse@).take(n as int));
    let mut out = chars_of("the fold broke the record and was undone: check fails on what was folded: ");
    append(&mut out, &joined(&first, "; "));
    Some(string_of(&out))
}

} // verus!
