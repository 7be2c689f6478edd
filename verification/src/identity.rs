//! The decisions an identity edit (`same` or `distinct`) makes before it
//! rewrites any file: whether its why is one line, which id survives, and on
//! which grounds the edit is refused.
use vstd::prelude::*;
use crate::fields::{builtin, is_builtin};
use crate::page::{holds_string, str_set};
use crate::text::{append, char_views, chars_of, has_char, join, join_with, same, string_of};
use crate::value::{Error, Model, Value, entries, field, field_of, lemma_entries, lookup, model};
use crate::wording::{ids_value, listed_ids, words, words_of, Breaks};

verus! {

broadcast use vstd::std_specs::vec::group_vec_axioms;

/// What an identity edit says of its two ids.
pub enum IdentityAction {
    /// The two ids are one entry; `keep` names the one that survives.
    Same { keep: Option<String> },
    /// The two ids are different entries, for the reason given.
    Distinct { because: String },
}

/// An identity edit of ids `a` and `b`.
pub struct IdentityRequest {
    pub a: String,
    pub b: String,
    pub action: IdentityAction,
}

pub open spec fn why_refusal() -> Seq<char> {
    "the why is one line: a second line would be a line of the record"@
}

/// Whether a `distinct` gives a why of more than one line.
pub open spec fn why_spans_lines(action: IdentityAction) -> bool {
    action matches IdentityAction::Distinct { because } && because@.contains('\n')
}

/// The first check of an identity edit: the why of a `distinct` is one line.
pub fn one_line_why(request: &IdentityRequest) -> (r: Result<(), Error>)
    ensures
        r is Err <==> why_spans_lines(request.action),
        r matches Err(e) ==> e.0@ == why_refusal(),
{
    match &request.action {
        IdentityAction::Distinct { because } => {
            if has_char(&chars_of(because.as_str()), '\n') {
                Err(Error(string_of(&chars_of("the why is one line: a second line would be a line of the record"))))
            } else {
                Ok(())
            }
        },
        IdentityAction::Same { .. } => Ok(()),
    }
}

pub open spec fn pairs_view(m: Seq<(String, String)>) -> Seq<(Seq<char>, Seq<char>)> {
    m.map_values(|p: (String, String)| (p.0@, p.1@))
}

/// Which id survives a `same`, and which is retired into it: `keep` names
/// the survivor by `a`, `b` or the id itself, and `a` survives by default.
pub open spec fn kept(a: Seq<char>, b: Seq<char>, keep: Option<Seq<char>>) -> Option<(Seq<char>, Seq<char>)> {
    match keep {
        None => Some((a, b)),
        Some(k) => if k == "a"@ || k == a {
            Some((a, b))
        } else if k == "b"@ || k == b {
            Some((b, a))
        } else {
            None
        },
    }
}

/// The refusal of an id that is no entry, naming what it was retired into
/// where it was.
pub open spec fn not_entry(id: Seq<char>, retired: Seq<(Seq<char>, Seq<char>)>) -> Seq<char> {
    "refused - "@ + id + " is not an entry of the record or of any hypothesis beside it"@ + match lookup(
        retired,
        id,
    ) {
        Some(into) => " - it was retired into "@ + into,
        None => Seq::empty(),
    }
}

/// Why the edit refuses to touch `id`, if it does: the reader counts it, or
/// neither the record nor a hypothesis beside it holds it.
pub open spec fn id_refusal(
    id: Seq<char>,
    is_same: bool,
    live: Set<Seq<char>>,
    retired: Seq<(Seq<char>, Seq<char>)>,
) -> Option<Seq<char>> {
    if builtin(id) {
        Some(
            if is_same {
                "refused - "@ + id + " is counted by the reader, never written"@
            } else {
                "refused - "@ + id + " is counted by the reader; it is nothing to be distinct from"@
            },
        )
    } else if !live.contains(id) {
        Some(not_entry(id, retired))
    } else {
        None
    }
}

/// What an identity edit decides of its ids: the survivor and the id retired
/// into it (for a `distinct`, `a` and `b`), or the refusal, checked in this
/// order: one id twice, a `keep` that names neither, each of the two ids in
/// turn, and a `same` of ids declared distinct.
pub open spec fn identity_outcome(
    a: Seq<char>,
    b: Seq<char>,
    action: IdentityAction,
    live: Set<Seq<char>>,
    retired: Seq<(Seq<char>, Seq<char>)>,
    declared_distinct: bool,
) -> Result<(Seq<char>, Seq<char>), Seq<char>> {
    let is_same = action is Same;
    if a == b {
        Err(
            if is_same {
                "refused - "@ + a + " and "@ + b + " are one id already"@
            } else {
                "refused - "@ + a + " and "@ + b + " are one id: distinct needs two"@
            },
        )
    } else {
        let roles = match action {
            IdentityAction::Same { keep } => kept(
                a,
                b,
                match keep {
                    Some(k) => Some(k@),
                    None => None,
                },
            ),
            IdentityAction::Distinct { .. } => Some((a, b)),
        };
        match roles {
            None => Err("refused - --keep names the id that survives: "@ + a + " or "@ + b),
            Some((survivor, obsolete)) => match id_refusal(survivor, is_same, live, retired) {
                Some(m) => Err(m),
                None => match id_refusal(obsolete, is_same, live, retired) {
                    Some(m) => Err(m),
                    None => if is_same && declared_distinct {
                        Err(
                            "refused - "@ + a + " and "@ + b
                                + " were declared distinct; remove the distinct_from that says so before saying otherwise"@,
                        )
                    } else {
                        Ok((survivor, obsolete))
                    },
                },
            },
        }
    }
}

fn lookup_pair(m: &Vec<(String, String)>, k: &[char]) -> (r: Option<Vec<char>>)
    ensures
        match r {
            Some(v) => lookup(pairs_view(m@), k@) == Some(v@),
            None => lookup(pairs_view(m@), k@) is None,
        },
{
    let ghost pv = pairs_view(m@);
    let mut i: usize = 0;
    while i < m.len()
        invariant
            0 <= i <= m.len(),
            pv == pairs_view(m@),
            pv.len() == m@.len(),
            forall|j: int| 0 <= j < i ==> #[trigger] pv[j].0 != k@,
        decreases m.len() - i,
    {
        assert(pv[i as int] == (m@[i as int].0@, m@[i as int].1@));
        let key = chars_of(m[i].0.as_str());
        if same(&key, k) {
            proof {
                crate::value::lemma_key_index(pv, k@, i as int);
            }
            return Some(chars_of(m[i].1.as_str()));
        }
        i = i + 1;
    }
    proof {
        crate::value::lemma_no_key(pv, k@);
    }
    None
}

fn joined3(p0: &str, x: &[char], p1: &str) -> (r: Vec<char>)
    ensures
        r@ == p0@ + x@ + p1@,
{
    let mut out = chars_of(p0);
    append(&mut out, x);
    append(&mut out, &chars_of(p1));
    out
}

fn joined5(p0: &str, x: &[char], p1: &str, y: &[char], p2: &str) -> (r: Vec<char>)
    ensures
        r@ == p0@ + x@ + p1@ + y@ + p2@,
{
    let mut out = joined3(p0, x, p1);
    append(&mut out, y);
    append(&mut out, &chars_of(p2));
    out
}

fn check_id(id: &[char], is_same: bool, live: &Vec<String>, retired: &Vec<(String, String)>) -> (r: Option<Error>)
    ensures
        match r {
            Some(e) => id_refusal(id@, is_same, str_set(live@), pairs_view(retired@)) == Some(e.0@),
            None => id_refusal(id@, is_same, str_set(live@), pairs_view(retired@)) is None,
        },
{
    let name = string_of(id);
    if is_builtin(name.as_str()) {
        let m = if is_same {
            joined3("refused - ", id, " is counted by the reader, never written")
        } else {
            joined3("refused - ", id, " is counted by the reader; it is nothing to be distinct from")
        };
        return Some(Error(string_of(&m)));
    }
    if holds_string(live, id) {
        return None;
    }
    let mut m = joined3("refused - ", id, " is not an entry of the record or of any hypothesis beside it");
    match lookup_pair(retired, id) {
        Some(into) => {
            append(&mut m, &chars_of(" - it was retired into "));
            append(&mut m, &into);
        },
        None => {},
    }
    Some(Error(string_of(&m)))
}

/// The survivor and the id retired into it, or why the edit is refused.
/// `live` holds the ids of the record and of the hypotheses beside it,
/// `retired` each retired id with the id it was retired into, and
/// `declared_distinct` says whether either id's `distinct_from` names the
/// other.
pub fn identity_roles(
    request: &IdentityRequest,
    live: &Vec<String>,
    retired: &Vec<(String, String)>,
    declared_distinct: bool,
) -> (r: Result<(String, String), Error>)
    ensures
        match r {
            Ok((s, o)) => identity_outcome(
                request.a@,
                request.b@,
                request.action,
                str_set(live@),
                pairs_view(retired@),
                declared_distinct,
            ) == Ok::<(Seq<char>, Seq<char>), Seq<char>>((s@, o@)),
            Err(e) => identity_outcome(
                request.a@,
                request.b@,
                request.action,
                str_set(live@),
                pairs_view(retired@),
                declared_distinct,
            ) == Err::<(Seq<char>, Seq<char>), Seq<char>>(e.0@),
        },
{
    let a = chars_of(request.a.as_str());
    let b = chars_of(request.b.as_str());
    let is_same = match &request.action {
        IdentityAction::Same { .. } => true,
        IdentityAction::Distinct { .. } => false,
    };
    if same(&a, &b) {
        let m = if is_same {
            joined5("refused - ", &a, " and ", &b, " are one id already")
        } else {
            joined5("refused - ", &a, " and ", &b, " are one id: distinct needs two")
        };
        return Err(Error(string_of(&m)));
    }
    let a_survives: Option<bool> = match &request.action {
        IdentityAction::Same { keep } => match keep {
            None => Some(true),
            Some(k) => {
                let kc = chars_of(k.as_str());
                if same(&kc, &chars_of("a")) || same(&kc, &a) {
                    Some(true)
                } else if same(&kc, &chars_of("b")) || same(&kc, &b) {
                    Some(false)
                } else {
                    None
                }
            },
        },
        IdentityAction::Distinct { .. } => Some(true),
    };
    let (survivor, obsolete) = match a_survives {
        None => {
            let m = joined5("refused - --keep names the id that survives: ", &a, " or ", &b, "");
            proof {
                reveal_strlit("");
                assert(m@ =~= "refused - --keep names the id that survives: "@ + a@ + " or "@ + b@);
            }
            return Err(Error(string_of(&m)));
        },
        Some(true) => (a, b),
        Some(false) => (b, a),
    };
    match check_id(&survivor, is_same, live, retired) {
        Some(e) => return Err(e),
        None => {},
    }
    match check_id(&obsolete, is_same, live, retired) {
        Some(e) => return Err(e),
        None => {},
    }
    if is_same && declared_distinct {
        let m = joined5(
            "refused - ",
            &chars_of(request.a.as_str()),
            " and ",
            &chars_of(request.b.as_str()),
            " were declared distinct; remove the distinct_from that says so before saying otherwise",
        );
        return Err(Error(string_of(&m)));
    }
    Ok((string_of(&survivor), string_of(&obsolete)))
}

/// The entries of each world: the record and each hypothesis beside it.
pub open spec fn world_views(ws: Seq<Vec<(String, Value)>>) -> Seq<Seq<(Seq<char>, Model)>> {
    ws.map_values(|w: Vec<(String, Value)>| entries(w@))
}

/// Whether a body's `distinct_from` lists `other`.
pub open spec fn names_other(body: Model, other: Seq<char>) -> bool {
    listed_ids(field_of(body, "distinct_from"@)).contains(other)
}

/// Whether entry `e` is `a` and declares itself distinct from `b`, or the
/// other way round.
pub open spec fn says_distinct(e: (Seq<char>, Model), a: Seq<char>, b: Seq<char>) -> bool {
    (e.0 == a && names_other(e.1, b)) || (e.0 == b && names_other(e.1, a))
}

/// Whether some world declares `a` and `b` distinct.
pub open spec fn declared(worlds: Seq<Seq<(Seq<char>, Model)>>, a: Seq<char>, b: Seq<char>) -> bool {
    exists|w: int, i: int|
        0 <= w < worlds.len() && 0 <= i < worlds[w].len() && #[trigger] says_distinct(worlds[w][i], a, b)
}

fn names_other_of(body: &Value, other: &[char]) -> (r: bool)
    ensures
        r == names_other(body@, other@),
{
    let null = Value::Null;
    let d = match field(body, "distinct_from") {
        Some(v) => v,
        None => &null,
    };
    assert(field_of(body@, "distinct_from"@) == d@);
    let ids = ids_value(d);
    let r = holds_string(&ids, other);
    proof {
        let ls = listed_ids(d@);
        if r {
            let i = choose|i: int| 0 <= i < ids@.len() && #[trigger] ids@[i]@ == other@;
            assert(ls[i] == other@);
        }
        if ls.contains(other@) {
            let i = choose|i: int| 0 <= i < ls.len() && ls[i] == other@;
            assert(ids@[i]@ == other@);
        }
    }
    r
}

/// Whether the record or a hypothesis beside it declares `a` and `b`
/// distinct: an entry `a` whose `distinct_from` lists `b`, or the other way
/// round.
pub fn declared_distinct(worlds: &Vec<Vec<(String, Value)>>, a: &str, b: &str) -> (r: bool)
    ensures
        r == declared(world_views(worlds@), a@, b@),
{
    let ghost wv = world_views(worlds@);
    let ca = chars_of(a);
    let cb = chars_of(b);
    let mut w: usize = 0;
    while w < worlds.len()
        invariant
            0 <= w <= worlds.len(),
            wv == world_views(worlds@),
            wv.len() == worlds@.len(),
            ca@ == a@,
            cb@ == b@,
            forall|v: int, i: int| 0 <= v < w && 0 <= i < wv[v].len() ==> !#[trigger] says_distinct(wv[v][i], a@, b@),
        decreases worlds.len() - w,
    {
        let es = &worlds[w];
        proof {
            lemma_entries(es@);
        }
        assert(wv[w as int] == entries(es@));
        let mut i: usize = 0;
        while i < es.len()
            invariant
                0 <= i <= es.len(),
                0 <= w < worlds.len(),
                es == &worlds@[w as int],
                wv == world_views(worlds@),
                wv.len() == worlds@.len(),
                wv[w as int] == entries(es@),
                entries(es@).len() == es@.len(),
                forall|q: int| 0 <= q < es@.len() ==> #[trigger] entries(es@)[q] == (es@[q].0@, model(es@[q].1)),
                ca@ == a@,
                cb@ == b@,
                forall|v: int, j: int| 0 <= v < w && 0 <= j < wv[v].len() ==> !#[trigger] says_distinct(wv[v][j], a@, b@),
                forall|j: int| 0 <= j < i ==> !#[trigger] says_distinct(wv[w as int][j], a@, b@),
            decreases es.len() - i,
        {
            let id = chars_of(es[i].0.as_str());
            let hit = (same(&id, &ca) && names_other_of(&es[i].1, &cb)) || (same(&id, &cb) && names_other_of(&es[i].1, &ca));
            assert(wv[w as int][i as int] == (es@[i as int].0@, es@[i as int].1@));
            if hit {
                assert(says_distinct(wv[w as int][i as int], a@, b@));
                return true;
            }
            i = i + 1;
        }
        w = w + 1;
    }
    false
}

/// Whether each world that holds `id` holds a judgment there (a body that
/// rests on texts), world by world.
pub open spec fn kinds(worlds: Seq<Seq<(Seq<char>, Model)>>, id: Seq<char>, dep: Seq<char>) -> Seq<bool>
    decreases worlds.len(),
{
    if worlds.len() == 0 {
        Seq::empty()
    } else {
        let p = kinds(worlds.drop_last(), id, dep);
        match lookup(worlds.last(), id) {
            Some(b) => p.push(crate::overlay::shaped_spec(b, dep)),
            None => p,
        }
    }
}

pub open spec fn kind_word(judgment: bool) -> Seq<char> {
    if judgment {
        "a judgment"@
    } else {
        "an entry"@
    }
}

/// A `same` of a judgment and an entry is refused: each id must be the same
/// kind in every world, and both the same kind.
pub open spec fn kind_refusal(
    worlds: Seq<Seq<(Seq<char>, Model)>>,
    survivor: Seq<char>,
    obsolete: Seq<char>,
    dep: Seq<char>,
) -> Option<Seq<char>> {
    let l = kinds(worlds, survivor, dep);
    let r = kinds(worlds, obsolete, dep);
    let lj = l.contains(true);
    let rj = r.contains(true);
    if lj == !l.contains(false) && rj == !r.contains(false) && lj == rj {
        None
    } else {
        Some("refused - "@ + survivor + " is "@ + kind_word(lj) + " and "@ + obsolete + " "@ + kind_word(rj)
            + ": one subject cannot be both"@)
    }
}

fn kinds_of(worlds: &Vec<Vec<(String, Value)>>, id: &str, dep: &str) -> (r: (bool, bool))
    ensures
        r.0 == kinds(world_views(worlds@), id@, dep@).contains(true),
        r.1 == kinds(world_views(worlds@), id@, dep@).contains(false),
{
    let ghost wv = world_views(worlds@);
    let mut any_true = false;
    let mut any_false = false;
    let mut w: usize = 0;
    while w < worlds.len()
        invariant
            0 <= w <= worlds.len(),
            wv == world_views(worlds@),
            wv.len() == worlds@.len(),
            any_true == kinds(wv.take(w as int), id@, dep@).contains(true),
            any_false == kinds(wv.take(w as int), id@, dep@).contains(false),
        decreases worlds.len() - w,
    {
        proof {
            lemma_entries(worlds@[w as int]@);
            assert(wv.take(w + 1).drop_last() =~= wv.take(w as int));
            assert(wv.take(w + 1).last() == entries(worlds@[w as int]@));
        }
        let ghost before = kinds(wv.take(w as int), id@, dep@);
        match crate::value::get(&worlds[w], id) {
            Some(b) => {
                let k = crate::overlay::shaped(b, dep);
                proof {
                    let now = kinds(wv.take(w + 1), id@, dep@);
                    assert(now == before.push(k));
                    assert(now.contains(true) == (before.contains(true) || k)) by {
                        if now.contains(true) {
                            let q = choose|q: int| 0 <= q < now.len() && now[q] == true;
                            if q < before.len() {
                                assert(before[q] == true);
                            }
                        }
                        if before.contains(true) {
                            let q = choose|q: int| 0 <= q < before.len() && before[q] == true;
                            assert(now[q] == true);
                        }
                        if k {
                            assert(now[before.len() as int] == true);
                        }
                    }
                    assert(now.contains(false) == (before.contains(false) || !k)) by {
                        if now.contains(false) {
                            let q = choose|q: int| 0 <= q < now.len() && now[q] == false;
                            if q < before.len() {
                                assert(before[q] == false);
                            }
                        }
                        if before.contains(false) {
                            let q = choose|q: int| 0 <= q < before.len() && before[q] == false;
                            assert(now[q] == false);
                        }
                        if !k {
                            assert(now[before.len() as int] == false);
                        }
                    }
                }
                if k {
                    any_true = true;
                } else {
                    any_false = true;
                }
            },
            None => {},
        }
        w = w + 1;
    }
    assert(wv.take(worlds.len() as int) =~= wv);
    (any_true, any_false)
}

/// The refusal of a `same` whose ids are not one kind, where that is so.
pub fn same_kinds(worlds: &Vec<Vec<(String, Value)>>, survivor: &str, obsolete: &str, dep: &str) -> (r: Result<(), Error>)
    ensures
        match r {
            Ok(()) => kind_refusal(world_views(worlds@), survivor@, obsolete@, dep@) is None,
            Err(e) => kind_refusal(world_views(worlds@), survivor@, obsolete@, dep@) == Some(e.0@),
        },
{
    let (lt, lf) = kinds_of(worlds, survivor, dep);
    let (rt, rf) = kinds_of(worlds, obsolete, dep);
    if lt == !lf && rt == !rf && lt == rt {
        return Ok(());
    }
    let lw = if lt {
        "a judgment"
    } else {
        "an entry"
    };
    let rw = if rt {
        "a judgment"
    } else {
        "an entry"
    };
    let mut m = chars_of("refused - ");
    append(&mut m, &chars_of(survivor));
    append(&mut m, &chars_of(" is "));
    append(&mut m, &chars_of(lw));
    append(&mut m, &chars_of(" and "));
    append(&mut m, &chars_of(obsolete));
    append(&mut m, &chars_of(" "));
    append(&mut m, &chars_of(rw));
    append(&mut m, &chars_of(": one subject cannot be both"));
    Err(Error(string_of(&m)))
}

/// The line an identity `same` reports: which id was retired into which,
/// and that the survivor was kept by name where `keep` named it.
pub open spec fn same_text(a: Seq<char>, b: Seq<char>, survivor: Seq<char>, obsolete: Seq<char>, kept: bool) -> Seq<char> {
    "same "@ + a + " "@ + b + ": "@ + obsolete + " retired into "@ + survivor + if kept {
        " (kept "@ + survivor + ")"@
    } else {
        Seq::empty()
    }
}

pub fn same_line(a: &str, b: &str, survivor: &str, obsolete: &str, kept: bool) -> (r: String)
    ensures
        r@ == same_text(a@, b@, survivor@, obsolete@, kept),
{
    let mut m = joined5("same ", &chars_of(a), " ", &chars_of(b), ": ");
    append(&mut m, &chars_of(obsolete));
    append(&mut m, &chars_of(" retired into "));
    append(&mut m, &chars_of(survivor));
    if kept {
        append(&mut m, &joined3(" (kept ", &chars_of(survivor), ")"));
    } else {
        assert(m@ + Seq::<char>::empty() =~= m@);
    }
    string_of(&m)
}

/// An identity edit that goes ahead names its two ids as survivor and
/// retired, one each, and they differ; a `distinct` keeps their order.
pub proof fn lemma_roles_are_the_ids(
    a: Seq<char>,
    b: Seq<char>,
    action: IdentityAction,
    live: Set<Seq<char>>,
    retired: Seq<(Seq<char>, Seq<char>)>,
    declared_distinct: bool,
    survivor: Seq<char>,
    obsolete: Seq<char>,
)
    requires
        identity_outcome(a, b, action, live, retired, declared_distinct) == Ok::<(Seq<char>, Seq<char>), Seq<char>>(
            (survivor, obsolete),
        ),
    ensures
        (survivor == a && obsolete == b) || (survivor == b && obsolete == a),
        survivor != obsolete,
        live.contains(survivor) && live.contains(obsolete),
        action is Distinct ==> survivor == a && obsolete == b,
{
}

/// The body of `id` in the first world that holds it.
pub open spec fn first_body(worlds: Seq<Seq<(Seq<char>, Model)>>, id: Seq<char>) -> Option<Model>
    decreases worlds.len(),
{
    if worlds.len() == 0 {
        None
    } else {
        match lookup(worlds[0], id) {
            Some(b) => Some(b),
            None => first_body(worlds.drop_first(), id),
        }
    }
}

pub open spec fn line_text(id: Seq<char>) -> Seq<char> {
    "refused - "@ + id
        + " is a line, not an entry with fields - an open question is closed by answering it, not folded into another"@
}

/// A `same` joins entries with fields: the body of `id` (where the record or
/// a hypothesis first holds it) must be a mapping.
pub fn entry_with_fields(worlds: &Vec<Vec<(String, Value)>>, id: &str) -> (r: Result<(), Error>)
    requires
        first_body(world_views(worlds@), id@) is Some,
    ensures
        match r {
            Ok(()) => first_body(world_views(worlds@), id@)->0 is Mapping,
            Err(e) => first_body(world_views(worlds@), id@)->0 !is Mapping && e.0@ == line_text(id@),
        },
{
    let ghost wv = world_views(worlds@);
    assert(wv.skip(0) =~= wv);
    let mut w: usize = 0;
    while w < worlds.len()
        invariant
            0 <= w <= worlds.len(),
            wv == world_views(worlds@),
            wv.len() == worlds@.len(),
            first_body(wv, id@) == first_body(wv.skip(w as int), id@),
            first_body(wv, id@) is Some,
        decreases worlds.len() - w,
    {
        proof {
            lemma_entries(worlds@[w as int]@);
            assert(wv.skip(w as int)[0] == entries(worlds@[w as int]@));
            assert(wv.skip(w as int).drop_first() =~= wv.skip(w + 1));
        }
        match crate::value::get(&worlds[w], id) {
            Some(b) => {
                return match b {
                    Value::Mapping(_) => Ok(()),
                    _ => {
                        let m = joined3(
                            "refused - ",
                            &chars_of(id),
                            " is a line, not an entry with fields - an open question is closed by answering it, not folded into another",
                        );
                        Err(Error(string_of(&m)))
                    },
                };
            },
            None => {},
        }
        w = w + 1;
    }
    proof {
        assert(wv.skip(worlds.len() as int) =~= Seq::<Seq<(Seq<char>, Model)>>::empty());
    }
    Ok(())
}

/// A hypothesis that could not be read stops a `same`: its error, as Python
/// prints it, is named.
pub open spec fn unread_text(name: Seq<char>, error: Model) -> Seq<char> {
    "refused - hypothesis "@ + name + " could not be read ("@ + crate::python::py_str(error)
        + "), so the migration could not reach what it holds"@
}

pub fn unread_hypothesis(name: &str, error: &Value) -> (r: Error)
    ensures
        r.0@ == unread_text(name@, error@),
{
    let m = joined5(
        "refused - hypothesis ",
        &chars_of(name),
        " could not be read (",
        &crate::python::py(error),
        "), so the migration could not reach what it holds",
    );
    Error(string_of(&m))
}

/// The ids the record or a hypothesis beside it holds.
pub open spec fn live_set(worlds: Seq<Seq<(Seq<char>, Model)>>) -> Set<Seq<char>> {
    Set::new(|x: Seq<char>| exists|w: int| 0 <= w < worlds.len() && crate::value::has_key(#[trigger] worlds[w], x))
}

pub proof fn lemma_live_has_body(worlds: Seq<Seq<(Seq<char>, Model)>>, x: Seq<char>)
    requires
        live_set(worlds).contains(x),
    ensures
        first_body(worlds, x) is Some,
    decreases worlds.len(),
{
    let w = choose|w: int| 0 <= w < worlds.len() && crate::value::has_key(#[trigger] worlds[w], x);
    if lookup(worlds[0], x) is None {
        if w == 0 {
            let k = choose|k: int| 0 <= k < worlds[0].len() && #[trigger] worlds[0][k].0 == x;
            assert(crate::value::has_key(worlds[0], x));
        }
        let rest = worlds.drop_first();
        assert(rest[w - 1] == worlds[w]);
        assert(live_set(rest).contains(x));
        lemma_live_has_body(rest, x);
    }
}

/// The ids of the record and of the hypotheses beside it, each once, in
/// ascending order.
pub fn live_ids(worlds: &Vec<Vec<(String, Value)>>) -> (r: Vec<String>)
    ensures
        str_set(r@) == live_set(world_views(worlds@)),
        crate::tally::sorted_names(crate::page::strings(r@)),
{
    let ghost wv = world_views(worlds@);
    let mut all: Vec<String> = Vec::new();
    let mut w: usize = 0;
    while w < worlds.len()
        invariant
            0 <= w <= worlds.len(),
            wv == world_views(worlds@),
            wv.len() == worlds@.len(),
            str_set(all@) == Set::new(|x: Seq<char>| exists|v: int| 0 <= v < w && crate::value::has_key(#[trigger] wv[v], x)),
        decreases worlds.len() - w,
    {
        let es = &worlds[w];
        proof {
            lemma_entries(es@);
        }
        assert(wv[w as int] == entries(es@));
        let ghost before = str_set(all@);
        let mut i: usize = 0;
        while i < es.len()
            invariant
                0 <= i <= es.len(),
                0 <= w < worlds.len(),
                es == &worlds@[w as int],
                wv == world_views(worlds@),
                wv[w as int] == entries(es@),
                entries(es@).len() == es@.len(),
                forall|q: int| 0 <= q < es@.len() ==> #[trigger] entries(es@)[q] == (es@[q].0@, model(es@[q].1)),
                str_set(all@) == before.union(Set::new(|x: Seq<char>| exists|q: int| 0 <= q < i && #[trigger] entries(es@)[q].0 == x)),
            decreases es.len() - i,
        {
            let ghost b2 = all@;
            all.push(string_of(&chars_of(es[i].0.as_str())));
            proof {
                let want = before.union(Set::new(|x: Seq<char>| exists|q: int| 0 <= q < i + 1 && #[trigger] entries(es@)[q].0 == x));
                assert(entries(es@)[i as int].0 == es@[i as int].0@);
                assert(str_set(all@) =~= want) by {
                    assert forall|x: Seq<char>| #[trigger] str_set(all@).contains(x) implies want.contains(x) by {
                        let q = choose|q: int| 0 <= q < all@.len() && #[trigger] all@[q]@ == x;
                        if q < b2.len() {
                            assert(all@[q] == b2[q]);
                            assert(str_set(b2).contains(x));
                        }
                    }
                    assert forall|x: Seq<char>| #[trigger] want.contains(x) implies str_set(all@).contains(x) by {
                        if before.contains(x) || exists|q: int| 0 <= q < i && #[trigger] entries(es@)[q].0 == x {
                            assert(str_set(b2).contains(x));
                            let q = choose|q: int| 0 <= q < b2.len() && #[trigger] b2[q]@ == x;
                            assert(all@[q] == b2[q]);
                        } else {
                            assert(all@[all@.len() - 1]@ == x);
                        }
                    }
                }
            }
            i = i + 1;
        }
        proof {
            let want = Set::new(|x: Seq<char>| exists|v: int| 0 <= v < w + 1 && crate::value::has_key(#[trigger] wv[v], x));
            assert(str_set(all@) =~= want) by {
                assert forall|x: Seq<char>| #[trigger] str_set(all@).contains(x) implies want.contains(x) by {
                    if !before.contains(x) {
                        let q = choose|q: int| 0 <= q < es@.len() && #[trigger] entries(es@)[q].0 == x;
                        assert(crate::value::has_key(wv[w as int], x));
                    }
                }
                assert forall|x: Seq<char>| #[trigger] want.contains(x) implies str_set(all@).contains(x) by {
                    let v = choose|v: int| 0 <= v < w + 1 && crate::value::has_key(#[trigger] wv[v], x);
                    if v == w {
                        let q = choose|q: int| 0 <= q < wv[v].len() && #[trigger] wv[v][q].0 == x;
                        assert(entries(es@)[q].0 == x);
                    }
                }
            }
        }
        w = w + 1;
    }
    crate::page::sorted_strings(&all)
}

/// What an identity edit decides before it rewrites any file, in the
/// order it decides it: the survivor and the id retired into it, or the
/// refusal. `worlds` holds the entries of the record and of each hypothesis
/// beside it, `errors` the error each hypothesis was read with (Null where it
/// was read), `retired` each retired id with the id it was retired into,
/// and `dep` the dependency field.
pub open spec fn plan_spec(
    a: Seq<char>,
    b: Seq<char>,
    action: IdentityAction,
    worlds: Seq<Seq<(Seq<char>, Model)>>,
    errors: Seq<(Seq<char>, Model)>,
    retired: Seq<(Seq<char>, Seq<char>)>,
    dep: Seq<char>,
) -> Result<(Seq<char>, Seq<char>), Seq<char>> {
    match identity_outcome(a, b, action, live_set(worlds), retired, declared(worlds, a, b)) {
        Err(e) => Err(e),
        Ok((s, o)) => if action is Distinct {
            Ok((s, o))
        } else if exists|i: int| 0 <= i < errors.len() && crate::value::truthy(#[trigger] errors[i].1) {
            let i = choose|i: int|
                0 <= i < errors.len() && crate::value::truthy(#[trigger] errors[i].1) && forall|j: int|
                    0 <= j < i ==> !crate::value::truthy(#[trigger] errors[j].1);
            Err(unread_text(errors[i].0, errors[i].1))
        } else {
            match kind_refusal(worlds, s, o, dep) {
                Some(m) => Err(m),
                None => if !(first_body(worlds, s)->0 is Mapping) {
                    Err(line_text(s))
                } else if !(first_body(worlds, o)->0 is Mapping) {
                    Err(line_text(o))
                } else {
                    Ok((s, o))
                },
            }
        },
    }
}

pub open spec fn error_view(e: Seq<(String, Value)>) -> Seq<(Seq<char>, Model)> {
    e.map_values(|p: (String, Value)| (p.0@, p.1@))
}

/// The checks of an identity edit, in order, from what the record and the
/// hypotheses beside it hold.
pub fn identity_plan(
    request: &IdentityRequest,
    worlds: &Vec<Vec<(String, Value)>>,
    errors: &Vec<(String, Value)>,
    retired: &Vec<(String, String)>,
    dep: &str,
) -> (r: Result<(String, String), Error>)
    ensures
        match r {
            Ok((s, o)) => plan_spec(request.a@, request.b@, request.action, world_views(worlds@), error_view(errors@), pairs_view(retired@), dep@)
                == Ok::<(Seq<char>, Seq<char>), Seq<char>>((s@, o@)),
            Err(e) => plan_spec(request.a@, request.b@, request.action, world_views(worlds@), error_view(errors@), pairs_view(retired@), dep@)
                == Err::<(Seq<char>, Seq<char>), Seq<char>>(e.0@),
        },
{
    let ghost wv = world_views(worlds@);
    let live = live_ids(worlds);
    let distinct_declared = declared_distinct(worlds, request.a.as_str(), request.b.as_str());
    let (s, o) = match identity_roles(request, &live, retired, distinct_declared) {
        Ok(p) => p,
        Err(e) => return Err(e),
    };
    let is_same = match &request.action {
        IdentityAction::Same { .. } => true,
        IdentityAction::Distinct { .. } => false,
    };
    if !is_same {
        return Ok((s, o));
    }
    let ghost ev = error_view(errors@);
    let mut i: usize = 0;
    while i < errors.len()
        invariant
            0 <= i <= errors.len(),
            ev == error_view(errors@),
            ev.len() == errors@.len(),
            wv == world_views(worlds@),
            request.action is Same,
            identity_outcome(request.a@, request.b@, request.action, live_set(wv), pairs_view(retired@), declared(wv, request.a@, request.b@))
                == Ok::<(Seq<char>, Seq<char>), Seq<char>>((s@, o@)),
            forall|j: int| 0 <= j < i ==> !crate::value::truthy(#[trigger] ev[j].1),
        decreases errors.len() - i,
    {
        assert(ev[i as int] == (errors@[i as int].0@, errors@[i as int].1@));
        if crate::value::truth(&errors[i].1) {
            let e = unread_hypothesis(errors[i].0.as_str(), &errors[i].1);
            proof {
                let k = choose|k: int|
                    0 <= k < ev.len() && crate::value::truthy(#[trigger] ev[k].1) && forall|j: int|
                        0 <= j < k ==> !crate::value::truthy(#[trigger] ev[j].1);
                assert(crate::value::truthy(ev[i as int].1));
                if k < i {
                    assert(!crate::value::truthy(ev[k].1));
                }
                if k > i {
                    assert(!crate::value::truthy(ev[i as int].1));
                }
            }
            return Err(e);
        }
        i = i + 1;
    }
    match same_kinds(worlds, s.as_str(), o.as_str(), dep) {
        Ok(()) => {},
        Err(e) => return Err(e),
    }
    proof {
        lemma_live_has_body(wv, s@);
        lemma_live_has_body(wv, o@);
    }
    match entry_with_fields(worlds, s.as_str()) {
        Ok(()) => {},
        Err(e) => return Err(e),
    }
    match entry_with_fields(worlds, o.as_str()) {
        Ok(()) => {},
        Err(e) => return Err(e),
    }
    Ok((s, o))
}

fn first_body_of<'a>(worlds: &'a Vec<Vec<(String, Value)>>, id: &str) -> (r: Option<&'a Value>)
    ensures
        match r {
            Some(b) => first_body(world_views(worlds@), id@) == Some(b@),
            None => first_body(world_views(worlds@), id@) is None,
        },
{
    let ghost wv = world_views(worlds@);
    assert(wv.skip(0) =~= wv);
    let mut w: usize = 0;
    while w < worlds.len()
        invariant
            0 <= w <= worlds.len(),
            wv == world_views(worlds@),
            wv.len() == worlds@.len(),
            first_body(wv, id@) == first_body(wv.skip(w as int), id@),
        decreases worlds.len() - w,
    {
        proof {
            lemma_entries(worlds@[w as int]@);
            assert(wv.skip(w as int)[0] == entries(worlds@[w as int]@));
            assert(wv.skip(w as int).drop_first() =~= wv.skip(w + 1));
        }
        match crate::value::get(&worlds[w], id) {
            Some(b) => return Some(b),
            None => {},
        }
        w = w + 1;
    }
    proof {
        assert(wv.skip(worlds.len() as int) =~= Seq::<Seq<(Seq<char>, Model)>>::empty());
    }
    None
}

/// What a `distinct` writes, when it writes anything.
pub enum DistinctPlan {
    /// The pair is declared distinct already: this is the answer.
    Already(String),
    /// Write `value` as the survivor's `distinct_from`, for the reason `why`.
    Write { why: String, value: String },
}

pub enum DistinctModel {
    Already(Seq<char>),
    Write(Seq<char>, Seq<char>),
}

pub open spec fn distinct_view(d: DistinctPlan) -> DistinctModel {
    match d {
        DistinctPlan::Already(m) => DistinctModel::Already(m@),
        DistinctPlan::Write { why, value } => DistinctModel::Write(why@, value@),
    }
}

/// What a `distinct` of `survivor` from `obsolete` decides: its why, closed
/// up to single spaces, must say something; the survivor must be an entry
/// with fields; a pair declared distinct already is left as it is; and
/// otherwise the survivor's `distinct_from` comes to list the other id after
/// those it lists.
pub open spec fn distinct_outcome(
    worlds: Seq<Seq<(Seq<char>, Model)>>,
    survivor: Seq<char>,
    obsolete: Seq<char>,
    because: Seq<char>,
) -> Result<DistinctModel, Seq<char>> {
    let why = join(words(because, Breaks::Separators), " "@);
    if why.len() == 0 {
        Err("refused - distinct takes the why: distinct <a> <b> \"<why>\""@)
    } else if !(first_body(worlds, survivor)->0 is Mapping) {
        Err("refused - "@ + survivor + " is a line, not an entry with fields; distinct is written on a field"@)
    } else if declared(worlds, survivor, obsolete) {
        Ok(DistinctModel::Already(survivor + " and "@ + obsolete + " are already declared distinct; nothing written\n"@))
    } else {
        Ok(
            DistinctModel::Write(
                why,
                join(listed_ids(field_of(first_body(worlds, survivor)->0, "distinct_from"@)).push(obsolete), ", "@),
            ),
        )
    }
}

pub fn distinct_plan(worlds: &Vec<Vec<(String, Value)>>, survivor: &str, obsolete: &str, because: &str) -> (r: Result<
    DistinctPlan,
    Error,
>)
    requires
        first_body(world_views(worlds@), survivor@) is Some,
    ensures
        match r {
            Ok(d) => distinct_outcome(world_views(worlds@), survivor@, obsolete@, because@) == Ok::<DistinctModel, Seq<char>>(
                distinct_view(d),
            ),
            Err(e) => distinct_outcome(world_views(worlds@), survivor@, obsolete@, because@) == Err::<DistinctModel, Seq<char>>(
                e.0@,
            ),
        },
{
    let ws = words_of(&chars_of(because), Breaks::Separators);
    let why = join_with(&ws, &chars_of(" "));
    if why.len() == 0 {
        return Err(Error(string_of(&chars_of("refused - distinct takes the why: distinct <a> <b> \"<why>\""))));
    }
    let body = match first_body_of(worlds, survivor) {
        Some(b) => b,
        None => return Err(Error(string_of(&chars_of("identity_target_not_found")))),
    };
    match body {
        Value::Mapping(_) => {},
        _ => {
            let m = joined3("refused - ", &chars_of(survivor), " is a line, not an entry with fields; distinct is written on a field");
            return Err(Error(string_of(&m)));
        },
    }
    if declared_distinct(worlds, survivor, obsolete) {
        let m = joined5("", &chars_of(survivor), " and ", &chars_of(obsolete), " are already declared distinct; nothing written\n");
        proof {
            reveal_strlit("");
            assert(m@ =~= survivor@ + " and "@ + obsolete@ + " are already declared distinct; nothing written\n"@);
        }
        return Ok(DistinctPlan::Already(string_of(&m)));
    }
    let null = Value::Null;
    let listed = match field(body, "distinct_from") {
        Some(v) => v,
        None => &null,
    };
    let ids = ids_value(listed);
    let mut parts: Vec<Vec<char>> = Vec::new();
    let mut i: usize = 0;
    while i < ids.len()
        invariant
            0 <= i <= ids.len(),
            parts@.len() == i,
            forall|q: int| 0 <= q < i ==> #[trigger] parts@[q]@ == ids@[q]@,
        decreases ids.len() - i,
    {
        parts.push(chars_of(ids[i].as_str()));
        i = i + 1;
    }
    parts.push(chars_of(obsolete));
    proof {
        assert(field_of(body@, "distinct_from"@) == listed@);
        assert(char_views(parts@) =~= listed_ids(listed@).push(obsolete@));
    }
    let value = join_with(&parts, &chars_of(", "));
    Ok(DistinctPlan::Write { why: string_of(&why), value: string_of(&value) })
}

/// The lines a written `distinct` reports.
pub open spec fn distinct_text(
    survivor: Seq<char>,
    obsolete: Seq<char>,
    why: Seq<char>,
    value: Seq<char>,
    hypothesis: Option<Seq<char>>,
) -> (Seq<char>, Seq<char>) {
    (
        "distinct "@ + survivor + " from "@ + obsolete + ": "@ + why + match hypothesis {
            Some(n) => " (in hypothesis "@ + n + ")"@,
            None => Seq::empty(),
        },
        "  the pair returns as no candidate; "@ + survivor + " carries distinct_from: "@ + value,
    )
}

pub fn distinct_lines(survivor: &str, obsolete: &str, why: &str, value: &str, hypothesis: Option<&str>) -> (r: (
    String,
    String,
))
    ensures
        (r.0@, r.1@) == distinct_text(
            survivor@,
            obsolete@,
            why@,
            value@,
            match hypothesis {
                Some(n) => Some(n@),
                None => None,
            },
        ),
{
    let mut first = joined5("distinct ", &chars_of(survivor), " from ", &chars_of(obsolete), ": ");
    append(&mut first, &chars_of(why));
    match hypothesis {
        Some(n) => append(&mut first, &joined3(" (in hypothesis ", &chars_of(n), ")")),
        None => {
            assert(first@ + Seq::<char>::empty() =~= first@);
        },
    }
    let mut second = joined3("  the pair returns as no candidate; ", &chars_of(survivor), " carries distinct_from: ");
    append(&mut second, &chars_of(value));
    (string_of(&first), string_of(&second))
}

} // verus!
