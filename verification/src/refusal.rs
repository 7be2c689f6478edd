//! Whether a consolidation may fold, decided from what laying the
//! hypotheses over the base found: the first reason it may not, if any.
use vstd::prelude::*;
use crate::page::{decimal, decimal_of, holds_string, str_set, strings};
use crate::text::{append, char_views, chars_of, join, join_with, string_of};
use crate::value::lookup;
use crate::wording::{quote, quote_spec};

verus! {

broadcast use vstd::std_specs::vec::group_vec_axioms;

/// A hypothesis reading laid over a standing judgment of the base: the id,
/// the hypothesis (by its place), and why it may or may not be taken.
pub struct Reversal {
    pub id: String,
    pub hyp: usize,
    pub why: String,
}

pub struct ReversalModel {
    pub id: Seq<char>,
    pub hyp: nat,
    pub why: Seq<char>,
}

impl View for Reversal {
    type V = ReversalModel;

    open spec fn view(&self) -> ReversalModel {
        ReversalModel { id: self.id@, hyp: self.hyp as nat, why: self.why@ }
    }
}

/// What laying the hypotheses over the base found, as a fold reads it.
pub struct UnionFacts {
    /// Each hypothesis by name, with whether its head says it never folds.
    pub hyps: Vec<(String, bool)>,
    /// The ids two hypotheses hold with different claims, ascending.
    pub contested: Vec<String>,
    pub reversed: Vec<Reversal>,
    /// The reversals (by place) that wait for a person to take them.
    pub untaken: Vec<usize>,
    /// The ids no name can take.
    pub untakeable: Vec<String>,
    /// For a reversed id, the dependencies it drops, by id.
    pub drops_needed: Vec<(String, Vec<String>)>,
    pub refused: usize,
    pub falsified: usize,
    pub holes: usize,
    pub head_falsified: usize,
    pub moved: usize,
}

pub struct UnionModel {
    pub hyps: Seq<(Seq<char>, bool)>,
    pub contested: Seq<Seq<char>>,
    pub reversed: Seq<ReversalModel>,
    pub untaken: Seq<usize>,
    pub untakeable: Set<Seq<char>>,
    pub drops_needed: Seq<(Seq<char>, Seq<Seq<char>>)>,
    pub refused: nat,
    pub falsified: nat,
    pub holes: nat,
    pub head_falsified: nat,
    pub moved: nat,
}

impl View for UnionFacts {
    type V = UnionModel;

    open spec fn view(&self) -> UnionModel {
        UnionModel {
            hyps: self.hyps@.map_values(|h: (String, bool)| (h.0@, h.1)),
            contested: strings(self.contested@),
            reversed: self.reversed@.map_values(|r: Reversal| r@),
            untaken: self.untaken@,
            untakeable: str_set(self.untakeable@),
            drops_needed: crate::projection::record_view(self.drops_needed@),
            refused: self.refused as nat,
            falsified: self.falsified as nat,
            holes: self.holes as nat,
            head_falsified: self.head_falsified as nat,
            moved: self.moved as nat,
        }
    }
}

/// Places into the lists that a well-formed union keeps: each untaken
/// reversal and each reversal's hypothesis exists.
pub open spec fn well_placed(c: UnionModel) -> bool {
    &&& forall|i: int| 0 <= i < c.untaken.len() ==> (#[trigger] c.untaken[i]) < c.reversed.len()
    &&& forall|i: int| 0 <= i < c.reversed.len() ==> (#[trigger] c.reversed[i]).hyp < c.hyps.len()
}

/// Whether the dry run found something that stops the fold outright.
pub open spec fn red(c: UnionModel) -> bool {
    c.contested.len() > 0 || c.refused > 0 || c.untaken.len() > 0 || c.falsified > 0 || c.holes > 0 || c.head_falsified > 0
}

pub open spec fn blocked(c: UnionModel) -> bool {
    red(c) || c.moved > 0
}

/// The ids of `take` that name no reversal, in order.
pub open spec fn strays_of(c: UnionModel, take: Seq<Seq<char>>) -> Seq<Seq<char>>
    decreases take.len(),
{
    if take.len() == 0 {
        Seq::empty()
    } else {
        let rest = strays_of(c, take.drop_last());
        if !reversed_id(c, take.last()) {
            rest.push(take.last())
        } else {
            rest
        }
    }
}

/// The ids of `take` that no name takes, in order.
pub open spec fn untakeable_of(c: UnionModel, take: Seq<Seq<char>>) -> Seq<Seq<char>>
    decreases take.len(),
{
    if take.len() == 0 {
        Seq::empty()
    } else {
        let rest = untakeable_of(c, take.drop_last());
        if c.untakeable.contains(take.last()) {
            rest.push(take.last())
        } else {
            rest
        }
    }
}

pub open spec fn reversed_id(c: UnionModel, id: Seq<char>) -> bool {
    exists|i: int| 0 <= i < c.reversed.len() && (#[trigger] c.reversed[i]).id == id
}

/// Why the reversals among the first `n` untaken ones whose id `cannot`
/// lists may not be taken, in order.
pub open spec fn untaken_whys_in(c: UnionModel, cannot: Seq<Seq<char>>, n: int) -> Seq<Seq<char>>
    decreases n,
{
    if n <= 0 {
        Seq::empty()
    } else {
        let rest = untaken_whys_in(c, cannot, n - 1);
        let r = c.reversed[c.untaken[n - 1] as int];
        if cannot.contains(r.id) {
            rest.push(r.why)
        } else {
            rest
        }
    }
}

/// Why the reversals among the first `n` untaken ones that no name takes
/// may not be taken, in order.
pub open spec fn untaken_whys(c: UnionModel, n: int) -> Seq<Seq<char>>
    decreases n,
{
    if n <= 0 {
        Seq::empty()
    } else {
        let rest = untaken_whys(c, n - 1);
        let r = c.reversed[c.untaken[n - 1] as int];
        if c.untakeable.contains(r.id) {
            rest.push(r.why)
        } else {
            rest
        }
    }
}

/// The ids among the first `n` untaken reversals that no name takes.
pub open spec fn untaken_cannot(c: UnionModel, n: int) -> Seq<Seq<char>>
    decreases n,
{
    if n <= 0 {
        Seq::empty()
    } else {
        let rest = untaken_cannot(c, n - 1);
        let r = c.reversed[c.untaken[n - 1] as int];
        if c.untakeable.contains(r.id) {
            rest.push(r.id)
        } else {
            rest
        }
    }
}

/// How each of the first `n` untaken reversals is taken by name.
pub open spec fn take_commands(c: UnionModel, n: int) -> Seq<Seq<char>>
    decreases n,
{
    if n <= 0 {
        Seq::empty()
    } else {
        let r = c.reversed[c.untaken[n - 1] as int];
        take_commands(c, n - 1).push("consolidate "@ + c.hyps[r.hyp as int].0 + " --take "@ + r.id)
    }
}

/// The `--drop` arguments naming why each dependency is dropped.
pub open spec fn drop_args(ds: Seq<Seq<char>>) -> Seq<Seq<char>> {
    ds.map_values(|d: Seq<char>| "--drop "@ + quote_spec(d + ": <why>"@))
}

/// For each of the first `n` reversals that drops dependencies, the command
/// that folds it with a reason for each.
pub open spec fn drop_commands(c: UnionModel, n: int) -> Seq<Seq<char>>
    decreases n,
{
    if n <= 0 {
        Seq::empty()
    } else {
        let rest = drop_commands(c, n - 1);
        let r = c.reversed[n - 1];
        match lookup(c.drops_needed, r.id) {
            Some(ds) => rest.push("consolidate "@ + c.hyps[r.hyp as int].0 + " "@ + join(drop_args(ds), " "@)),
            None => rest,
        }
    }
}

/// The names of the hypotheses that never fold.
pub open spec fn never_folding(hyps: Seq<(Seq<char>, bool)>) -> Seq<Seq<char>>
    decreases hyps.len(),
{
    if hyps.len() == 0 {
        Seq::empty()
    } else {
        let rest = never_folding(hyps.drop_last());
        if hyps.last().1 {
            rest.push(hyps.last().0)
        } else {
            rest
        }
    }
}

/// Why the ids a fold is asked to take (`--take`) cannot be taken, if so:
/// one names no reversal here, or one no name takes.
pub open spec fn stray_spec(c: UnionModel, take: Seq<Seq<char>>) -> Option<Seq<char>> {
    if c.contested.len() > 0 {
        None
    } else {
        let stray = strays_of(c, take);
        if stray.len() > 0 {
            Some(
                "refused - --take names "@ + join(stray, ", "@)
                    + ", which no hypothesis here lays over a standing judgment, or reads from another source than the base"@,
            )
        } else {
            let cannot = untakeable_of(c, take);
            if cannot.len() == 0 {
                None
            } else {
                Some(
                    "refused - no name takes "@ + join(cannot, ", "@) + ": "@ + join(
                        untaken_whys_in(c, cannot, c.untaken.len() as int),
                        "; "@,
                    ),
                )
            }
        }
    }
}

/// The first reason a fold is refused, if any, in the order the checks run.
pub open spec fn fold_refusal_spec(c: UnionModel, take: Seq<Seq<char>>) -> Option<Seq<char>> {
    let n = c.untaken.len() as int;
    let never = never_folding(c.hyps);
    if c.contested.len() > 0 {
        Some("refused - a contested id stops the fold: "@ + join(c.contested, ", "@))
    } else if stray_spec(c, take) is Some {
        stray_spec(c, take)
    } else if c.drops_needed.len() > 0 && !blocked(c) {
        Some(
            "refused - a replacement no longer rests on what the judgment it replaces rested on, and a dependency dropped is a decision with a reason: "@
                + join(drop_commands(c, c.reversed.len() as int), "; "@),
        )
    } else if n > 0 && c.falsified == 0 && c.holes == 0 && c.head_falsified == 0 && c.refused == 0 {
        let cannot = untaken_cannot(c, n);
        if cannot.len() > 0 {
            Some(
                "refused - no name takes "@ + join(cannot, ", "@) + ": "@ + join(
                    untaken_whys(c, n),
                    "; "@,
                ),
            )
        } else {
            Some(
                "refused - a verdict the base's own condition has not broken folds only when a person names it: "@
                    + join(take_commands(c, n), "; "@),
            )
        }
    } else if blocked(c) {
        Some("refused - the dry run is not clean; nothing folds until it is"@)
    } else if never.len() > 0 {
        Some(
            "refused - "@ + join(never, ", "@) + " never fold"@ + (if never.len() == 1 {
                "s"@
            } else {
                ""@
            }) + ": a what-if is evaluated and never written; consolidate the others by name"@,
        )
    } else {
        None
    }
}

fn join_of(v: &Vec<String>, sep: &str) -> (r: Vec<char>)
    ensures
        r@ == join(strings(v@), sep@),
{
    let mut parts: Vec<Vec<char>> = Vec::new();
    let mut i: usize = 0;
    while i < v.len()
        invariant
            0 <= i <= v.len(),
            parts@.len() == i,
            forall|q: int| 0 <= q < i ==> #[trigger] parts@[q]@ == v@[q]@,
        decreases v.len() - i,
    {
        parts.push(chars_of(v[i].as_str()));
        i = i + 1;
    }
    assert(char_views(parts@) =~= strings(v@));
    join_with(&parts, &chars_of(sep))
}

fn in_strings(v: &Vec<String>, x: &Vec<char>) -> (r: bool)
    ensures
        r == strings(v@).contains(x@),
{
    let mut i: usize = 0;
    while i < v.len()
        invariant
            0 <= i <= v.len(),
            forall|q: int| 0 <= q < i ==> #[trigger] strings(v@)[q] != x@,
        decreases v.len() - i,
    {
        if crate::text::same(&chars_of(v[i].as_str()), x) {
            assert(strings(v@)[i as int] == x@);
            return true;
        }
        i = i + 1;
    }
    false
}

fn is_reversed(c: &UnionFacts, id: &Vec<char>) -> (r: bool)
    ensures
        r == reversed_id(c@, id@),
{
    let mut i: usize = 0;
    while i < c.reversed.len()
        invariant
            0 <= i <= c.reversed.len(),
            forall|q: int| 0 <= q < i ==> (#[trigger] c@.reversed[q]).id != id@,
        decreases c.reversed.len() - i,
    {
        assert(c@.reversed[i as int] == c.reversed@[i as int]@);
        if crate::text::same(&chars_of(c.reversed[i].id.as_str()), id) {
            return true;
        }
        i = i + 1;
    }
    false
}

fn push_string(out: &mut Vec<String>, m: &Vec<char>)
    ensures
        strings(final(out)@) == strings(old(out)@).push(m@),
{
    let ghost before = out@;
    out.push(string_of(m));
    assert(strings(out@) =~= strings(before).push(m@));
}

fn strays_exec(c: &UnionFacts, take: &Vec<String>) -> (r: Vec<String>)
    ensures
        strings(r@) == strays_of(c@, strings(take@)),
{
    let ghost ts = strings(take@);
    let mut out: Vec<String> = Vec::new();
    let mut i: usize = 0;
    assert(ts.take(0) =~= Seq::<Seq<char>>::empty());
    while i < take.len()
        invariant
            0 <= i <= take.len(),
            ts == strings(take@),
            strings(out@) == strays_of(c@, ts.take(i as int)),
        decreases take.len() - i,
    {
        assert(ts.take(i + 1).drop_last() =~= ts.take(i as int));
        assert(ts.take(i + 1).last() == take@[i as int]@);
        let id = chars_of(take[i].as_str());
        if !is_reversed(c, &id) {
            push_string(&mut out, &id);
        }
        i = i + 1;
    }
    assert(ts.take(take.len() as int) =~= ts);
    out
}

fn untakeable_exec(c: &UnionFacts, take: &Vec<String>) -> (r: Vec<String>)
    ensures
        strings(r@) == untakeable_of(c@, strings(take@)),
{
    let ghost ts = strings(take@);
    let mut out: Vec<String> = Vec::new();
    let mut i: usize = 0;
    assert(ts.take(0) =~= Seq::<Seq<char>>::empty());
    while i < take.len()
        invariant
            0 <= i <= take.len(),
            ts == strings(take@),
            strings(out@) == untakeable_of(c@, ts.take(i as int)),
        decreases take.len() - i,
    {
        assert(ts.take(i + 1).drop_last() =~= ts.take(i as int));
        assert(ts.take(i + 1).last() == take@[i as int]@);
        let id = chars_of(take[i].as_str());
        if holds_string(&c.untakeable, &id) {
            push_string(&mut out, &id);
        }
        i = i + 1;
    }
    assert(ts.take(take.len() as int) =~= ts);
    out
}

/// `mode` 0: the whys of the untaken reversals whose id `cannot` lists;
/// 1: the whys of those no name takes; 2: the ids of those no name takes;
/// 3: the commands that take each by name.
fn untaken_list(c: &UnionFacts, cannot: &Vec<String>, mode: u8) -> (r: Vec<String>)
    requires
        well_placed(c@),
    ensures
        mode == 0 ==> strings(r@) == untaken_whys_in(c@, strings(cannot@), c@.untaken.len() as int),
        mode == 1 ==> strings(r@) == untaken_whys(c@, c@.untaken.len() as int),
        mode == 2 ==> strings(r@) == untaken_cannot(c@, c@.untaken.len() as int),
        mode == 3 ==> strings(r@) == take_commands(c@, c@.untaken.len() as int),
{
    let mut out: Vec<String> = Vec::new();
    let mut i: usize = 0;
    while i < c.untaken.len()
        invariant
            0 <= i <= c.untaken.len(),
            well_placed(c@),
            mode == 0 ==> strings(out@) == untaken_whys_in(c@, strings(cannot@), i as int),
            mode == 1 ==> strings(out@) == untaken_whys(c@, i as int),
            mode == 2 ==> strings(out@) == untaken_cannot(c@, i as int),
            mode == 3 ==> strings(out@) == take_commands(c@, i as int),
        decreases c.untaken.len() - i,
    {
        let k = c.untaken[i];
        assert(c@.untaken[i as int] == k);
        assert(k < c.reversed.len());
        let r = &c.reversed[k];
        assert(c@.reversed[k as int] == r@);
        let id = chars_of(r.id.as_str());
        if mode == 0 {
            if in_strings(cannot, &id) {
                push_string(&mut out, &chars_of(r.why.as_str()));
            }
        } else if mode == 1 {
            if holds_string(&c.untakeable, &id) {
                push_string(&mut out, &chars_of(r.why.as_str()));
            }
        } else if mode == 2 {
            if holds_string(&c.untakeable, &id) {
                push_string(&mut out, &id);
            }
        } else if mode == 3 {
            assert(r.hyp < c.hyps.len());
            assert(c@.hyps[r.hyp as int] == (c.hyps@[r.hyp as int].0@, c.hyps@[r.hyp as int].1));
            let mut m = chars_of("consolidate ");
            append(&mut m, &chars_of(c.hyps[r.hyp].0.as_str()));
            append(&mut m, &chars_of(" --take "));
            append(&mut m, &id);
            push_string(&mut out, &m);
        }
        i = i + 1;
    }
    out
}

fn drop_args_of(ds: &Vec<String>) -> (r: Vec<String>)
    ensures
        strings(r@) == drop_args(strings(ds@)),
{
    let mut out: Vec<String> = Vec::new();
    let mut i: usize = 0;
    while i < ds.len()
        invariant
            0 <= i <= ds.len(),
            out@.len() == i,
            forall|q: int| 0 <= q < i ==> #[trigger] out@[q]@ == "--drop "@ + quote_spec(ds@[q]@ + ": <why>"@),
        decreases ds.len() - i,
    {
        let mut arg = chars_of(ds[i].as_str());
        append(&mut arg, &chars_of(": <why>"));
        let q = quote(string_of(&arg).as_str());
        let mut m = chars_of("--drop ");
        append(&mut m, &chars_of(q.as_str()));
        out.push(string_of(&m));
        i = i + 1;
    }
    assert(strings(out@) =~= drop_args(strings(ds@)));
    out
}

fn drop_cmds(c: &UnionFacts) -> (r: Vec<String>)
    requires
        well_placed(c@),
    ensures
        strings(r@) == drop_commands(c@, c@.reversed.len() as int),
{
    let mut out: Vec<String> = Vec::new();
    let mut i: usize = 0;
    while i < c.reversed.len()
        invariant
            0 <= i <= c.reversed.len(),
            well_placed(c@),
            strings(out@) == drop_commands(c@, i as int),
        decreases c.reversed.len() - i,
    {
        let r = &c.reversed[i];
        assert(c@.reversed[i as int] == r@);
        match crate::projection::record_of(&c.drops_needed, r.id.as_str()) {
            Some(ds) => {
                assert(r.hyp < c.hyps.len());
                assert(c@.hyps[r.hyp as int] == (c.hyps@[r.hyp as int].0@, c.hyps@[r.hyp as int].1));
                let mut m = chars_of("consolidate ");
                append(&mut m, &chars_of(c.hyps[r.hyp].0.as_str()));
                append(&mut m, &chars_of(" "));
                append(&mut m, &join_of(&drop_args_of(ds), " "));
                push_string(&mut out, &m);
            },
            None => {},
        }
        i = i + 1;
    }
    out
}

fn never_exec(c: &UnionFacts) -> (r: Vec<String>)
    ensures
        strings(r@) == never_folding(c@.hyps),
{
    let ghost hs = c@.hyps;
    let mut out: Vec<String> = Vec::new();
    let mut i: usize = 0;
    assert(hs.take(0) =~= Seq::<(Seq<char>, bool)>::empty());
    while i < c.hyps.len()
        invariant
            0 <= i <= c.hyps.len(),
            hs == c@.hyps,
            hs.len() == c.hyps@.len(),
            strings(out@) == never_folding(hs.take(i as int)),
        decreases c.hyps.len() - i,
    {
        assert(hs.take(i + 1).drop_last() =~= hs.take(i as int));
        assert(hs.take(i + 1).last() == (c.hyps@[i as int].0@, c.hyps@[i as int].1));
        if c.hyps[i].1 {
            push_string(&mut out, &chars_of(c.hyps[i].0.as_str()));
        }
        i = i + 1;
    }
    assert(hs.take(c.hyps.len() as int) =~= hs);
    out
}

/// Why the ids a fold is asked to take (`take`) cannot be taken, if so.
pub fn stray(c: &UnionFacts, take: &Vec<String>) -> (r: Option<String>)
    requires
        well_placed(c@),
    ensures
        match r {
            Some(m) => stray_spec(c@, strings(take@)) == Some(m@),
            None => stray_spec(c@, strings(take@)) is None,
        },
{
    if c.contested.len() > 0 {
        return None;
    }
    let st = strays_exec(c, take);
    if st.len() > 0 {
        let mut m = chars_of("refused - --take names ");
        append(&mut m, &join_of(&st, ", "));
        append(
            &mut m,
            &chars_of(", which no hypothesis here lays over a standing judgment, or reads from another source than the base"),
        );
        return Some(string_of(&m));
    }
    let cannot = untakeable_exec(c, take);
    if cannot.len() == 0 {
        return None;
    }
    let mut m = chars_of("refused - no name takes ");
    append(&mut m, &join_of(&cannot, ", "));
    append(&mut m, &chars_of(": "));
    append(&mut m, &join_of(&untaken_list(c, &cannot, 0), "; "));
    Some(string_of(&m))
}

/// The first reason a consolidation may not fold, if any: a contested id,
/// an id asked to be taken that cannot be, a dependency dropped without a
/// reason, a reversal nobody has taken, a dry run that is not clean, or a
/// hypothesis that never folds.
pub fn fold_refusal(c: &UnionFacts, take: &Vec<String>) -> (r: Option<String>)
    requires
        well_placed(c@),
    ensures
        match r {
            Some(m) => fold_refusal_spec(c@, strings(take@)) == Some(m@),
            None => fold_refusal_spec(c@, strings(take@)) is None,
        },
{
    if c.contested.len() > 0 {
        let mut m = chars_of("refused - a contested id stops the fold: ");
        append(&mut m, &join_of(&c.contested, ", "));
        return Some(string_of(&m));
    }
    match stray(c, take) {
        Some(m) => return Some(m),
        None => {},
    }
    let is_red = c.contested.len() > 0 || c.refused > 0 || c.untaken.len() > 0 || c.falsified > 0 || c.holes > 0
        || c.head_falsified > 0;
    let is_blocked = is_red || c.moved > 0;
    if c.drops_needed.len() > 0 && !is_blocked {
        let mut m = chars_of(
            "refused - a replacement no longer rests on what the judgment it replaces rested on, and a dependency dropped is a decision with a reason: ",
        );
        append(&mut m, &join_of(&drop_cmds(c), "; "));
        return Some(string_of(&m));
    }
    if c.untaken.len() > 0 && c.falsified == 0 && c.holes == 0 && c.head_falsified == 0 && c.refused == 0 {
        let none: Vec<String> = Vec::new();
        let cannot = untaken_list(c, &none, 2);
        if cannot.len() > 0 {
            let mut m = chars_of("refused - no name takes ");
            append(&mut m, &join_of(&cannot, ", "));
            append(&mut m, &chars_of(": "));
            append(&mut m, &join_of(&untaken_list(c, &none, 1), "; "));
            return Some(string_of(&m));
        }
        let mut m = chars_of(
            "refused - a verdict the base's own condition has not broken folds only when a person names it: ",
        );
        append(&mut m, &join_of(&untaken_list(c, &none, 3), "; "));
        return Some(string_of(&m));
    }
    if is_blocked {
        return Some(string_of(&chars_of("refused - the dry run is not clean; nothing folds until it is")));
    }
    let never = never_exec(c);
    if never.len() > 0 {
        let mut m = chars_of("refused - ");
        append(&mut m, &join_of(&never, ", "));
        append(&mut m, &chars_of(" never fold"));
        if never.len() == 1 {
            append(&mut m, &chars_of("s"));
        } else {
            proof {
                reveal_strlit("");
                assert(m@ + ""@ =~= m@);
            }
        }
        append(&mut m, &chars_of(": a what-if is evaluated and never written; consolidate the others by name"));
        return Some(string_of(&m));
    }
    None
}

/// A hypothesis's name, by its place.
pub open spec fn hyp_name(c: UnionModel, h: nat) -> Seq<char> {
    c.hyps[h as int].0
}

/// The `--take` arguments for the first `n` untaken reversals a name can
/// take, each with its hypothesis.
pub open spec fn take_pairs(c: UnionModel, n: int) -> Seq<(Seq<char>, Seq<char>)>
    decreases n,
{
    if n <= 0 {
        Seq::empty()
    } else {
        let rest = take_pairs(c, n - 1);
        let r = c.reversed[c.untaken[n - 1] as int];
        if c.untakeable.contains(r.id) {
            rest
        } else {
            rest.push((hyp_name(c, r.hyp), "--take "@ + r.id))
        }
    }
}

/// The `--drop` arguments for the first `n` reversals, each with its
/// hypothesis.
pub open spec fn drop_pairs(c: UnionModel, n: int) -> Seq<(Seq<char>, Seq<char>)>
    decreases n,
{
    if n <= 0 {
        Seq::empty()
    } else {
        let rest = drop_pairs(c, n - 1);
        let r = c.reversed[n - 1];
        match lookup(c.drops_needed, r.id) {
            Some(ds) => rest + drop_args(ds).map_values(|a: Seq<char>| (hyp_name(c, r.hyp), a)),
            None => rest,
        }
    }
}

/// The place of the group named `name`, if one is.
pub open spec fn group_at(gs: Seq<(Seq<char>, Seq<Seq<char>>)>, name: Seq<char>, i: int) -> int
    decreases gs.len() - i,
{
    if i >= gs.len() {
        -1
    } else if gs[i].0 == name {
        i
    } else {
        group_at(gs, name, i + 1)
    }
}

/// Arguments gathered by hypothesis, in the order each hypothesis first
/// appears.
pub open spec fn grouped(ps: Seq<(Seq<char>, Seq<char>)>) -> Seq<(Seq<char>, Seq<Seq<char>>)>
    decreases ps.len(),
{
    if ps.len() == 0 {
        Seq::empty()
    } else {
        let gs = grouped(ps.drop_last());
        let (name, arg) = ps.last();
        let k = group_at(gs, name, 0);
        if k < 0 {
            gs.push((name, seq![arg]))
        } else {
            gs.update(k, (name, gs[k].1.push(arg)))
        }
    }
}

pub open spec fn plural(n: nat, one: Seq<char>, many: Seq<char>) -> Seq<char> {
    if n == 1 {
        one
    } else {
        many
    }
}

/// What keeps a dry run from being clean.
pub open spec fn unclean_parts(c: UnionModel) -> Seq<Seq<char>> {
    let n = c.untaken.len();
    (if c.falsified > 0 || c.head_falsified > 0 {
        seq!["a falsifier holds"@]
    } else {
        Seq::empty()
    }) + (if c.holes > 0 {
        seq!["a hole"@]
    } else {
        Seq::empty()
    }) + (if c.refused > 0 {
        seq!["a contested reading"@]
    } else {
        Seq::empty()
    }) + (if n > 0 {
        seq![decimal(n) + " reversal"@ + plural(n, ""@, "s"@) + " to take by name"@]
    } else {
        Seq::empty()
    }) + (if c.drops_needed.len() > 0 {
        seq!["a dropped dependency to name"@]
    } else {
        Seq::empty()
    })
}

/// The names of the hypotheses that may fold.
pub open spec fn folding(hyps: Seq<(Seq<char>, bool)>) -> Seq<Seq<char>>
    decreases hyps.len(),
{
    if hyps.len() == 0 {
        Seq::empty()
    } else {
        let rest = folding(hyps.drop_last());
        if hyps.last().1 {
            rest
        } else {
            rest.push(hyps.last().0)
        }
    }
}

pub open spec fn all_names(hyps: Seq<(Seq<char>, bool)>) -> Seq<Seq<char>> {
    hyps.map_values(|h: (Seq<char>, bool)| h.0)
}

/// The closing lines of a consolidation's report: what keeps it from being
/// clean and the commands that would fold it, a premise that moved, or
/// what would fold. `arrived` and `updates` count what the fold would add
/// and replace.
pub open spec fn verdict_spec(c: UnionModel, arrived: nat, updates: nat) -> Seq<Seq<char>> {
    let foldable = folding(c.hyps);
    let names = all_names(c.hyps);
    if red(c) || c.drops_needed.len() > 0 {
        let other = c.falsified > 0 || c.head_falsified > 0 || c.holes > 0 || c.refused > 0 || c.contested.len() > 0;
        let head = "not clean: "@ + join(unclean_parts(c), ", "@) + (if other {
            " - nothing folds until it is read again"@
        } else if c.untaken.len() > 0 {
            " - a verdict the base's own condition has not broken folds only when a person names it"@
        } else {
            " - a dependency dropped is a decision with a reason, named at the fold"@
        });
        let gs = grouped(take_pairs(c, c.untaken.len() as int) + drop_pairs(c, c.reversed.len() as int));
        seq![head] + gs.map_values(|g: (Seq<char>, Seq<Seq<char>>)| "  consolidate "@ + g.0 + " "@ + join(g.1, " "@))
    } else if c.moved > 0 {
        seq![
            "moved: "@ + decimal(c.moved) + " judgment"@ + plural(c.moved, ""@, "s"@)
                + " to re-review before the fold - a premise moved under "@ + plural(c.moved, "it"@, "them"@),
        ]
    } else if foldable.len() == 0 {
        seq![
            "clean - and nothing here folds: "@ + join(names, ", "@) + (if names.len() > 1 {
                " are what-ifs"@
            } else {
                " is a what-if"@
            }) + ", evaluated and never written"@,
        ]
    } else if arrived == 0 && updates == 0 {
        seq![
            "clean - and nothing to write: the base already holds everything "@ + join(foldable, ", "@) + " propose"@
                + plural(foldable.len(), "s"@, ""@) + "; consolidate "@ + join(foldable, " "@) + " removes the file"@
                + (if foldable.len() > 1 {
                "s"@
            } else {
                ""@
            }),
        ]
    } else {
        seq!["clean: "@ + join(foldable, ", "@) + " may fold - consolidate "@ + join(foldable, " "@)]
    }
}

pub open spec fn pairs_view(ps: Seq<(String, String)>) -> Seq<(Seq<char>, Seq<char>)> {
    ps.map_values(|p: (String, String)| (p.0@, p.1@))
}

fn push_pair(out: &mut Vec<(String, String)>, a: &Vec<char>, b: &Vec<char>)
    ensures
        pairs_view(final(out)@) == pairs_view(old(out)@).push((a@, b@)),
{
    let ghost before = out@;
    out.push((string_of(a), string_of(b)));
    assert(pairs_view(out@) =~= pairs_view(before).push((a@, b@)));
}

fn hyp_name_of(c: &UnionFacts, h: usize) -> (r: Vec<char>)
    requires
        h < c.hyps.len(),
    ensures
        r@ == hyp_name(c@, h as nat),
{
    assert(c@.hyps[h as int] == (c.hyps@[h as int].0@, c.hyps@[h as int].1));
    chars_of(c.hyps[h].0.as_str())
}

fn take_pairs_exec(c: &UnionFacts) -> (r: Vec<(String, String)>)
    requires
        well_placed(c@),
    ensures
        pairs_view(r@) == take_pairs(c@, c@.untaken.len() as int),
{
    let mut out: Vec<(String, String)> = Vec::new();
    assert(pairs_view(out@) =~= Seq::<(Seq<char>, Seq<char>)>::empty());
    let mut i: usize = 0;
    while i < c.untaken.len()
        invariant
            0 <= i <= c.untaken.len(),
            well_placed(c@),
            pairs_view(out@) == take_pairs(c@, i as int),
        decreases c.untaken.len() - i,
    {
        let k = c.untaken[i];
        assert(c@.untaken[i as int] == k);
        let r = &c.reversed[k];
        assert(c@.reversed[k as int] == r@);
        let id = chars_of(r.id.as_str());
        if !holds_string(&c.untakeable, &id) {
            let mut arg = chars_of("--take ");
            append(&mut arg, &id);
            push_pair(&mut out, &hyp_name_of(c, r.hyp), &arg);
        }
        i = i + 1;
    }
    out
}

fn drop_pairs_exec(c: &UnionFacts) -> (r: Vec<(String, String)>)
    requires
        well_placed(c@),
    ensures
        pairs_view(r@) == drop_pairs(c@, c@.reversed.len() as int),
{
    let mut out: Vec<(String, String)> = Vec::new();
    assert(pairs_view(out@) =~= Seq::<(Seq<char>, Seq<char>)>::empty());
    let mut i: usize = 0;
    while i < c.reversed.len()
        invariant
            0 <= i <= c.reversed.len(),
            well_placed(c@),
            pairs_view(out@) == drop_pairs(c@, i as int),
        decreases c.reversed.len() - i,
    {
        let r = &c.reversed[i];
        assert(c@.reversed[i as int] == r@);
        match crate::projection::record_of(&c.drops_needed, r.id.as_str()) {
            Some(ds) => {
                let name = hyp_name_of(c, r.hyp);
                let args = drop_args_of(ds);
                let ghost before = pairs_view(out@);
                let ghost want = drop_args(strings(ds@)).map_values(|a: Seq<char>| (hyp_name(c@, r@.hyp), a));
                let mut j: usize = 0;
                while j < args.len()
                    invariant
                        0 <= j <= args.len(),
                        name@ == hyp_name(c@, r@.hyp),
                        strings(args@) == drop_args(strings(ds@)),
                        want == drop_args(strings(ds@)).map_values(|a: Seq<char>| (hyp_name(c@, r@.hyp), a)),
                        pairs_view(out@) == before + want.take(j as int),
                    decreases args.len() - j,
                {
                    assert(want.take(j + 1) =~= want.take(j as int).push(want[j as int]));
                    assert(want[j as int] == (name@, args@[j as int]@));
                    push_pair(&mut out, &name, &chars_of(args[j].as_str()));
                    j = j + 1;
                }
                assert(want.take(args.len() as int) =~= want);
            },
            None => {},
        }
        i = i + 1;
    }
    out
}

fn group_exec(ps: &Vec<(String, String)>) -> (r: Vec<(String, Vec<String>)>)
    ensures
        crate::projection::record_view(r@) == grouped(pairs_view(ps@)),
{
    let ghost pv = pairs_view(ps@);
    let mut gs: Vec<(String, Vec<String>)> = Vec::new();
    assert(pv.take(0) =~= Seq::<(Seq<char>, Seq<char>)>::empty());
    assert(crate::projection::record_view(gs@) =~= Seq::<(Seq<char>, Seq<Seq<char>>)>::empty());
    let mut i: usize = 0;
    while i < ps.len()
        invariant
            0 <= i <= ps.len(),
            pv == pairs_view(ps@),
            crate::projection::record_view(gs@) == grouped(pv.take(i as int)),
        decreases ps.len() - i,
    {
        assert(pv.take(i + 1).drop_last() =~= pv.take(i as int));
        assert(pv.take(i + 1).last() == (ps@[i as int].0@, ps@[i as int].1@));
        let ghost g0 = crate::projection::record_view(gs@);
        let name = chars_of(ps[i].0.as_str());
        let mut k: usize = 0;
        while k < gs.len() && !crate::text::same(&chars_of(gs[k].0.as_str()), &name)
            invariant
                0 <= k <= gs.len(),
                g0 == crate::projection::record_view(gs@),
                group_at(g0, name@, 0) == group_at(g0, name@, k as int),
            decreases gs.len() - k,
        {
            k = k + 1;
        }
        let arg = string_of(&chars_of(ps[i].1.as_str()));
        if k == gs.len() {
            let ghost before = gs@;
            let mut one: Vec<String> = Vec::new();
            one.push(arg);
            gs.push((string_of(&name), one));
            proof {
                assert(strings(one@) =~= seq![ps@[i as int].1@]);
                assert(crate::projection::record_view(gs@) =~= g0.push((name@, seq![ps@[i as int].1@])));
            }
        } else {
            let ghost before = gs@;
            let (gname, mut args) = gs.remove(k);
            let ghost old_args = args@;
            args.push(arg);
            gs.insert(k, (gname, args));
            proof {
                assert(before[k as int].0 == gname && before[k as int].1@ == old_args);
                assert(strings(args@) =~= strings(old_args).push(ps@[i as int].1@));
                assert(crate::projection::record_view(gs@) =~= g0.update(k as int, (name@, g0[k as int].1.push(ps@[i as int].1@))));
            }
        }
        i = i + 1;
    }
    assert(pv.take(ps.len() as int) =~= pv);
    gs
}

fn names_exec(c: &UnionFacts, only_folding: bool) -> (r: Vec<String>)
    ensures
        only_folding ==> strings(r@) == folding(c@.hyps),
        !only_folding ==> strings(r@) == all_names(c@.hyps),
{
    let ghost hs = c@.hyps;
    let mut out: Vec<String> = Vec::new();
    let mut i: usize = 0;
    assert(hs.take(0) =~= Seq::<(Seq<char>, bool)>::empty());
    while i < c.hyps.len()
        invariant
            0 <= i <= c.hyps.len(),
            hs == c@.hyps,
            hs.len() == c.hyps@.len(),
            only_folding ==> strings(out@) == folding(hs.take(i as int)),
            !only_folding ==> strings(out@) == all_names(hs.take(i as int)),
        decreases c.hyps.len() - i,
    {
        assert(hs.take(i + 1).drop_last() =~= hs.take(i as int));
        assert(hs.take(i + 1).last() == (c.hyps@[i as int].0@, c.hyps@[i as int].1));
        assert(all_names(hs.take(i + 1)) =~= all_names(hs.take(i as int)).push(c.hyps@[i as int].0@));
        if !only_folding || !c.hyps[i].1 {
            push_string(&mut out, &chars_of(c.hyps[i].0.as_str()));
        }
        i = i + 1;
    }
    assert(hs.take(c.hyps.len() as int) =~= hs);
    out
}

fn unclean_exec(c: &UnionFacts) -> (r: Vec<String>)
    ensures
        strings(r@) == unclean_parts(c@),
{
    let mut out: Vec<String> = Vec::new();
    let ghost e = Seq::<Seq<char>>::empty();
    assert(strings(out@) =~= e);
    if c.falsified > 0 || c.head_falsified > 0 {
        push_string(&mut out, &chars_of("a falsifier holds"));
    }
    if c.holes > 0 {
        push_string(&mut out, &chars_of("a hole"));
    }
    if c.refused > 0 {
        push_string(&mut out, &chars_of("a contested reading"));
    }
    let n = c.untaken.len();
    if n > 0 {
        let mut m = decimal_of(n);
        append(&mut m, &chars_of(" reversal"));
        if n != 1 {
            append(&mut m, &chars_of("s"));
        } else {
            proof {
                reveal_strlit("");
                assert(m@ + ""@ =~= m@);
            }
        }
        append(&mut m, &chars_of(" to take by name"));
        push_string(&mut out, &m);
    }
    if c.drops_needed.len() > 0 {
        push_string(&mut out, &chars_of("a dropped dependency to name"));
    }
    assert(strings(out@) =~= unclean_parts(c@));
    out
}

/// The closing lines of a consolidation's report; `arrived` and `updates`
/// count what the fold would add and replace.
pub fn verdict_lines(c: &UnionFacts, arrived: usize, updates: usize) -> (r: Vec<String>)
    requires
        well_placed(c@),
    ensures
        strings(r@) == verdict_spec(c@, arrived as nat, updates as nat),
{
    proof {
        reveal_strlit("");
    }
    let is_red = c.contested.len() > 0 || c.refused > 0 || c.untaken.len() > 0 || c.falsified > 0 || c.holes > 0
        || c.head_falsified > 0;
    let foldable = names_exec(c, true);
    let names = names_exec(c, false);
    let mut out: Vec<String> = Vec::new();
    if is_red || c.drops_needed.len() > 0 {
        let other = c.falsified > 0 || c.head_falsified > 0 || c.holes > 0 || c.refused > 0 || c.contested.len() > 0;
        let mut head = chars_of("not clean: ");
        append(&mut head, &join_of(&unclean_exec(c), ", "));
        if other {
            append(&mut head, &chars_of(" - nothing folds until it is read again"));
        } else if c.untaken.len() > 0 {
            append(&mut head, &chars_of(" - a verdict the base's own condition has not broken folds only when a person names it"));
        } else {
            append(&mut head, &chars_of(" - a dependency dropped is a decision with a reason, named at the fold"));
        }
        push_string(&mut out, &head);
        let mut ps = take_pairs_exec(c);
        let dp = drop_pairs_exec(c);
        let ghost p1 = pairs_view(ps@);
        let mut j: usize = 0;
        while j < dp.len()
            invariant
                0 <= j <= dp.len(),
                pairs_view(ps@) == p1 + pairs_view(dp@).take(j as int),
            decreases dp.len() - j,
        {
            assert(pairs_view(dp@).take(j + 1) =~= pairs_view(dp@).take(j as int).push((dp@[j as int].0@, dp@[j as int].1@)));
            push_pair(&mut ps, &chars_of(dp[j].0.as_str()), &chars_of(dp[j].1.as_str()));
            j = j + 1;
        }
        assert(pairs_view(dp@).take(dp.len() as int) =~= pairs_view(dp@));
        let gs = group_exec(&ps);
        let ghost gv = crate::projection::record_view(gs@);
        let ghost first = strings(out@);
        let mut k: usize = 0;
        while k < gs.len()
            invariant
                0 <= k <= gs.len(),
                gv == crate::projection::record_view(gs@),
                strings(out@) == first + gv.take(k as int).map_values(
                    |g: (Seq<char>, Seq<Seq<char>>)| "  consolidate "@ + g.0 + " "@ + join(g.1, " "@),
                ),
            decreases gs.len() - k,
        {
            let mut m = chars_of("  consolidate ");
            append(&mut m, &chars_of(gs[k].0.as_str()));
            append(&mut m, &chars_of(" "));
            append(&mut m, &join_of(&gs[k].1, " "));
            let ghost b = strings(out@);
            push_string(&mut out, &m);
            assert(gv[k as int] == (gs@[k as int].0@, strings(gs@[k as int].1@)));
            assert(gv.take(k + 1).map_values(|g: (Seq<char>, Seq<Seq<char>>)| "  consolidate "@ + g.0 + " "@ + join(g.1, " "@))
                =~= gv.take(k as int).map_values(|g: (Seq<char>, Seq<Seq<char>>)| "  consolidate "@ + g.0 + " "@ + join(g.1, " "@)).push(m@));
            k = k + 1;
        }
        assert(gv.take(gs.len() as int) =~= gv);
        return out;
    }
    let mut m: Vec<char>;
    if c.moved > 0 {
        m = chars_of("moved: ");
        append(&mut m, &decimal_of(c.moved));
        append(&mut m, &chars_of(" judgment"));
        if c.moved != 1 {
            append(&mut m, &chars_of("s"));
        } else {
            assert(m@ + ""@ =~= m@);
        }
        append(&mut m, &chars_of(" to re-review before the fold - a premise moved under "));
        append(&mut m, &chars_of(if c.moved == 1 { "it" } else { "them" }));
    } else if foldable.len() == 0 {
        m = chars_of("clean - and nothing here folds: ");
        append(&mut m, &join_of(&names, ", "));
        append(&mut m, &chars_of(if names.len() > 1 { " are what-ifs" } else { " is a what-if" }));
        append(&mut m, &chars_of(", evaluated and never written"));
    } else if arrived == 0 && updates == 0 {
        m = chars_of("clean - and nothing to write: the base already holds everything ");
        append(&mut m, &join_of(&foldable, ", "));
        append(&mut m, &chars_of(" propose"));
        if foldable.len() == 1 {
            append(&mut m, &chars_of("s"));
        } else {
            assert(m@ + ""@ =~= m@);
        }
        append(&mut m, &chars_of("; consolidate "));
        append(&mut m, &join_of(&foldable, " "));
        append(&mut m, &chars_of(" removes the file"));
        if foldable.len() > 1 {
            append(&mut m, &chars_of("s"));
        } else {
            assert(m@ + ""@ =~= m@);
        }
    } else {
        m = chars_of("clean: ");
        append(&mut m, &join_of(&foldable, ", "));
        append(&mut m, &chars_of(" may fold - consolidate "));
        append(&mut m, &join_of(&foldable, " "));
    }
    push_string(&mut out, &m);
    out
}

/// A consolidation whose dry run is not clean never folds: where it found a
/// contested id, a refused reading, an untaken reversal, a falsifier, a
/// hole, a hypothesis whose own condition holds, or a moved premise, the
/// fold is refused, whatever is asked to be taken.
pub proof fn lemma_unclean_never_folds(c: UnionModel, take: Seq<Seq<char>>)
    requires
        c.contested.len() > 0 || c.refused > 0 || c.untaken.len() > 0 || c.falsified > 0 || c.holes > 0
            || c.head_falsified > 0 || c.moved > 0,
    ensures
        fold_refusal_spec(c, take) is Some,
{
}

/// A dry run that found a hole refuses the fold as not clean, unless an
/// earlier reason (a contested id or an id asked to be taken that cannot
/// be) refuses it first.
pub proof fn lemma_hole_refuses_as_unclean(c: UnionModel, take: Seq<Seq<char>>)
    requires
        c.holes > 0,
        c.contested.len() == 0,
        stray_spec(c, take) is None,
    ensures
        fold_refusal_spec(c, take) == Some("refused - the dry run is not clean; nothing folds until it is"@),
{
}

/// A clean dry run with no hypothesis that never folds, no dependency
/// dropped and nothing asked to be taken folds.
pub proof fn lemma_clean_folds(c: UnionModel)
    requires
        !blocked(c),
        c.drops_needed.len() == 0,
        forall|h: int| 0 <= h < c.hyps.len() ==> !(#[trigger] c.hyps[h]).1,
    ensures
        fold_refusal_spec(c, Seq::empty()) is None,
{
    lemma_none_never(c.hyps);
    assert(strays_of(c, Seq::empty()) =~= Seq::<Seq<char>>::empty());
    assert(untakeable_of(c, Seq::empty()) =~= Seq::<Seq<char>>::empty());
}

proof fn lemma_none_never(hyps: Seq<(Seq<char>, bool)>)
    requires
        forall|h: int| 0 <= h < hyps.len() ==> !(#[trigger] hyps[h]).1,
    ensures
        never_folding(hyps).len() == 0,
    decreases hyps.len(),
{
    if hyps.len() > 0 {
        assert forall|h: int| 0 <= h < hyps.drop_last().len() implies !(#[trigger] hyps.drop_last()[h]).1 by {
            assert(hyps.drop_last()[h] == hyps[h]);
        }
        lemma_none_never(hyps.drop_last());
        assert(!hyps[hyps.len() - 1].1);
    }
}

/// A contested id stops the fold before anything else, naming the
/// contested ids.
pub proof fn lemma_contested_stops_first(c: UnionModel, take: Seq<Seq<char>>)
    requires
        c.contested.len() > 0,
    ensures
        fold_refusal_spec(c, take) == Some("refused - a contested id stops the fold: "@ + join(c.contested, ", "@)),
        stray_spec(c, take) is None,
{
}

} // verus!
