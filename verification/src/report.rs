//! The words of a consolidation report: its heading, the heading of each of
//! its sections, and the lines that say what a hypothesis updates or
//! reverses and what it must name to be taken.
use vstd::prelude::*;
use crate::explain::{contains_text, holds_text};
use crate::page::{decimal, decimal_of, strings};
use crate::text::{append, char_views, chars_of, join, join_with, string_of};
use crate::wording::{quote, quote_spec};

verus! {

broadcast use vstd::std_specs::vec::group_vec_axioms;

/// The report's first line: the hypotheses laid over the base.
pub open spec fn heading(names: Seq<Seq<char>>) -> Seq<char> {
    "the base with "@ + join(names, ", "@) + " laid over it"@ + if names.len() > 1 {
        ", in name order"@
    } else {
        Seq::empty()
    }
}

pub fn base_heading(names: &Vec<String>) -> (r: String)
    ensures
        r@ == heading(strings(names@)),
{
    let mut parts: Vec<Vec<char>> = Vec::new();
    let mut i: usize = 0;
    while i < names.len()
        invariant
            0 <= i <= names.len(),
            parts@.len() == i,
            forall|q: int| 0 <= q < i ==> #[trigger] parts@[q]@ == names@[q]@,
        decreases names.len() - i,
    {
        parts.push(chars_of(names[i].as_str()));
        i = i + 1;
    }
    assert(char_views(parts@) =~= strings(names@));
    let mut out = chars_of("the base with ");
    append(&mut out, &join_with(&parts, &chars_of(", ")));
    append(&mut out, &chars_of(" laid over it"));
    if names.len() > 1 {
        append(&mut out, &chars_of(", in name order"));
    } else {
        assert(out@ + Seq::<char>::empty() =~= out@);
    }
    string_of(&out)
}

/// The sections of a report, in the order they come.
pub enum ReportSection {
    Contested,
    Arrived,
    Updates,
    Reversed,
    Moved,
}

/// What a section's heading says after its count.
pub open spec fn section_words(s: ReportSection) -> Seq<char> {
    match s {
        ReportSection::Contested => "): an id two hypotheses hold with different claims - the union has no value to lay, so the run stops here"@,
        ReportSection::Arrived => "): what the fold would add"@,
        ReportSection::Updates => "): what the base holds that a hypothesis replaces, and what rests on each"@,
        ReportSection::Reversed => "): a verdict, or other grounds, laid over a standing judgment - by its own condition, by a person's name, or waiting for one"@,
        ReportSection::Moved => "): what the union moves or breaks"@,
    }
}

pub open spec fn section_name(s: ReportSection) -> Seq<char> {
    match s {
        ReportSection::Contested => "contested"@,
        ReportSection::Arrived => "arrived"@,
        ReportSection::Updates => "updates"@,
        ReportSection::Reversed => "reversed"@,
        ReportSection::Moved => "moved / falsified"@,
    }
}

/// A section's heading: its name, its count in brackets, and what it holds.
pub fn section_heading(section: ReportSection, count: usize) -> (r: String)
    ensures
        r@ == section_name(section) + " ("@ + decimal(count as nat) + section_words(section),
{
    let (name, words) = match section {
        ReportSection::Contested => ("contested", "): an id two hypotheses hold with different claims - the union has no value to lay, so the run stops here"),
        ReportSection::Arrived => ("arrived", "): what the fold would add"),
        ReportSection::Updates => ("updates", "): what the base holds that a hypothesis replaces, and what rests on each"),
        ReportSection::Reversed => ("reversed", "): a verdict, or other grounds, laid over a standing judgment - by its own condition, by a person's name, or waiting for one"),
        ReportSection::Moved => ("moved / falsified", "): what the union moves or breaks"),
    };
    let mut out = chars_of(name);
    append(&mut out, &chars_of(" ("));
    append(&mut out, &decimal_of(count));
    append(&mut out, &chars_of(words));
    string_of(&out)
}

/// The two lines of an update: what the base held and what replaces it, and
/// why; an update that is not allowed leaves the base as it is.
pub open spec fn update_text(
    id: Seq<char>,
    old: Seq<char>,
    new: Seq<char>,
    hyp: Seq<char>,
    why: Seq<char>,
    allowed: bool,
) -> (Seq<char>, Seq<char>) {
    (
        "  "@ + id + ": "@ + old + " -> "@ + new + ", from "@ + hyp,
        "    "@ + why + if allowed {
            Seq::empty()
        } else {
            " - the base keeps what it holds"@
        },
    )
}

pub fn update_lines(id: &str, old: &str, new: &str, hyp: &str, why: &str, allowed: bool) -> (r: (String, String))
    ensures
        (r.0@, r.1@) == update_text(id@, old@, new@, hyp@, why@, allowed),
{
    let mut first = chars_of("  ");
    append(&mut first, &chars_of(id));
    append(&mut first, &chars_of(": "));
    append(&mut first, &chars_of(old));
    append(&mut first, &chars_of(" -> "));
    append(&mut first, &chars_of(new));
    append(&mut first, &chars_of(", from "));
    append(&mut first, &chars_of(hyp));
    let mut second = chars_of("    ");
    append(&mut second, &chars_of(why));
    if !allowed {
        append(&mut second, &chars_of(" - the base keeps what it holds"));
    } else {
        assert(second@ + Seq::<char>::empty() =~= second@);
    }
    (string_of(&first), string_of(&second))
}

/// The line of a reversal: the verdicts before and after, or that the
/// verdict stays and only its grounds change, and the hypothesis.
pub open spec fn reversal_text(id: Seq<char>, old: Seq<char>, new: Seq<char>, same_verdict: bool, hyp: Seq<char>) -> Seq<char> {
    "  "@ + id + ": "@ + (if same_verdict {
        "the same verdict on other grounds"@
    } else {
        old + " -> "@ + new
    }) + ", from "@ + hyp
}

pub fn reversal_line(id: &str, old: &str, new: &str, same_verdict: bool, hyp: &str) -> (r: String)
    ensures
        r@ == reversal_text(id@, old@, new@, same_verdict, hyp@),
{
    let mut out = chars_of("  ");
    append(&mut out, &chars_of(id));
    append(&mut out, &chars_of(": "));
    if same_verdict {
        append(&mut out, &chars_of("the same verdict on other grounds"));
    } else {
        append(&mut out, &chars_of(old));
        append(&mut out, &chars_of(" -> "));
        append(&mut out, &chars_of(new));
    }
    append(&mut out, &chars_of(", from "));
    append(&mut out, &chars_of(hyp));
    string_of(&out)
}

/// How a reversal may be taken: by name, by its own condition, not at all
/// where no name takes it, or else by naming it at the consolidation.
pub open spec fn reversal_note_text(
    why: Seq<char>,
    allowed: bool,
    untakeable: bool,
    hyp: Seq<char>,
    id: Seq<char>,
) -> Seq<char> {
    if allowed && contains_text(why, "by name"@) {
        "    taken by name - "@ + why
    } else if allowed {
        "    by its own condition - "@ + why
    } else if untakeable {
        "    "@ + why
    } else {
        "    "@ + why + " - take it by name: consolidate "@ + hyp + " --take "@ + id
    }
}

pub fn reversal_note(why: &str, allowed: bool, untakeable: bool, hyp: &str, id: &str) -> (r: String)
    ensures
        r@ == reversal_note_text(why@, allowed, untakeable, hyp@, id@),
{
    let w = chars_of(why);
    let mut out: Vec<char>;
    if allowed && holds_text(&w, &chars_of("by name")) {
        out = chars_of("    taken by name - ");
        append(&mut out, &w);
    } else if allowed {
        out = chars_of("    by its own condition - ");
        append(&mut out, &w);
    } else if untakeable {
        out = chars_of("    ");
        append(&mut out, &w);
    } else {
        out = chars_of("    ");
        append(&mut out, &w);
        append(&mut out, &chars_of(" - take it by name: consolidate "));
        append(&mut out, &chars_of(hyp));
        append(&mut out, &chars_of(" --take "));
        append(&mut out, &chars_of(id));
    }
    string_of(&out)
}

/// The line that asks a fold to name why a judgment no longer rests on `d`.
pub open spec fn drop_text(d: Seq<char>) -> Seq<char> {
    "    no longer rests on "@ + d + " - name the reason at the fold: --drop "@ + quote_spec(d + ": <why>"@)
}

pub fn drop_note(d: &str) -> (r: String)
    ensures
        r@ == drop_text(d@),
{
    let mut arg = chars_of(d);
    append(&mut arg, &chars_of(": <why>"));
    let quoted = quote(string_of(&arg).as_str());
    let mut out = chars_of("    no longer rests on ");
    append(&mut out, &chars_of(d));
    append(&mut out, &chars_of(" - name the reason at the fold: --drop "));
    append(&mut out, &chars_of(quoted.as_str()));
    string_of(&out)
}

} // verus!
