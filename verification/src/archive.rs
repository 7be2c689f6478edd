//! Retained-version identities: the alias graph of a record's values, kept
//! beside the values while a replaced judgment is archived.
use vstd::prelude::*;
use crate::text::chars_of;
use crate::value::{Error, Model, Value, entries, lemma_entries, lemma_models, model, models, same_value};

verus! {

broadcast use vstd::std_specs::vec::group_vec_axioms;

/// The deepest nesting a retained document may reach.
pub const MAX_DEPTH: usize = 128;

/// Half the number of values and keys a retained document may hold.
pub const MAX_VALUES: usize = 100_000;

/// The largest compact rendering a retained document may have, in bytes.
pub const MAX_DOCUMENT_BYTES: usize = 16_777_216;

/// The identity of each value in a document: an alias anchor, when the value is
/// shared, and the identities of its parts. A list's parts are its items; a
/// mapping's are, for each entry, its key and then its value.
#[derive(Debug)]
pub struct Identity {
    pub id: Option<usize>,
    pub children: Vec<Identity>,
}

pub struct IdModel {
    pub id: Option<usize>,
    pub children: Seq<IdModel>,
}

pub open spec fn idm(i: Identity) -> IdModel
    decreases i, 0nat,
{
    IdModel { id: i.id, children: idms(i.children@) }
}

pub open spec fn idms(s: Seq<Identity>) -> Seq<IdModel>
    decreases s, s.len(),
{
    if s.len() == 0 {
        Seq::empty()
    } else {
        proof {
            assert(decreases_to!(s => s[s.len() - 1]));
        }
        idms(s.drop_last()).push(idm(s.last()))
    }
}

impl View for Identity {
    type V = IdModel;

    open spec fn view(&self) -> IdModel {
        idm(*self)
    }
}

pub proof fn lemma_idms(s: Seq<Identity>)
    ensures
        idms(s).len() == s.len(),
        forall|i: int| 0 <= i < s.len() ==> #[trigger] idms(s)[i] == idm(s[i]),
    decreases s.len(),
{
    if s.len() > 0 {
        lemma_idms(s.drop_last());
        assert forall|i: int| 0 <= i < s.len() implies #[trigger] idms(s)[i] == idm(s[i]) by {
            if i < s.len() - 1 {
                assert(s.drop_last()[i] == s[i]);
            }
        }
    }
}

pub open spec fn leaf() -> IdModel {
    IdModel { id: None, children: Seq::empty() }
}

/// The identity of a value that shares nothing.
pub open spec fn empty_id(m: Model) -> IdModel
    decreases m, 1nat,
{
    match m {
        Model::List(xs) => IdModel { id: None, children: empty_items(xs) },
        Model::Mapping(es) => IdModel { id: None, children: empty_pairs(es) },
        _ => leaf(),
    }
}

pub open spec fn empty_items(xs: Seq<Model>) -> Seq<IdModel>
    decreases xs, xs.len(),
{
    if xs.len() == 0 {
        Seq::empty()
    } else {
        empty_items(xs.drop_last()).push(empty_id(xs.last()))
    }
}

pub open spec fn empty_pairs(es: Seq<(Seq<char>, Model)>) -> Seq<IdModel>
    decreases es, es.len(),
{
    if es.len() == 0 {
        Seq::empty()
    } else {
        proof {
            assert(decreases_to!(es => es[es.len() - 1]));
            assert(decreases_to!(es[es.len() - 1] => es[es.len() - 1].1));
        }
        empty_pairs(es.drop_last()).push(leaf()).push(empty_id(es.last().1))
    }
}

fn leaf_identity() -> (r: Identity)
    ensures
        r@ == leaf(),
{
    let r = Identity { id: None, children: Vec::new() };
    assert(idms(r.children@) =~= Seq::<IdModel>::empty());
    r
}

/// The identity of a value that shares nothing.
pub fn empty(value: &Value) -> (r: Identity)
    ensures
        r@ == empty_id(value@),
    decreases value,
{
    match value {
        Value::List(xs) => {
            let mut children: Vec<Identity> = Vec::new();
            let mut i: usize = 0;
            while i < xs.len()
                invariant
                    0 <= i <= xs.len(),
                    *value == Value::List(*xs),
                    idms(children@) == empty_items(models(xs@.take(i as int))),
                decreases xs.len() - i,
            {
                proof {
                    assert(decreases_to!(*value => (*value)->List_0));
                    assert(decreases_to!((*value)->List_0 => xs@[i as int]));
                    assert(xs@.take(i + 1).drop_last() =~= xs@.take(i as int));
                    lemma_models(xs@.take(i + 1));
                    lemma_models(xs@.take(i as int));
                    assert(models(xs@.take(i + 1)).drop_last() =~= models(xs@.take(i as int)));
                }
                let c = empty(&xs[i]);
                let ghost before = children@;
                children.push(c);
                proof {
                    assert(children@.drop_last() =~= before);
                }
                i = i + 1;
            }
            assert(xs@.take(xs.len() as int) =~= xs@);
            Identity { id: None, children }
        },
        Value::Mapping(es) => {
            let mut children: Vec<Identity> = Vec::new();
            let mut i: usize = 0;
            while i < es.len()
                invariant
                    0 <= i <= es.len(),
                    *value == Value::Mapping(*es),
                    idms(children@) == empty_pairs(entries(es@.take(i as int))),
                decreases es.len() - i,
            {
                proof {
                    assert(decreases_to!(*value => (*value)->Mapping_0));
                    assert(decreases_to!((*value)->Mapping_0 => es@[i as int]));
                    assert(decreases_to!(es@[i as int] => es@[i as int].1));
                    assert(es@.take(i + 1).drop_last() =~= es@.take(i as int));
                    lemma_entries(es@.take(i + 1));
                    lemma_entries(es@.take(i as int));
                    assert(entries(es@.take(i + 1)).drop_last() =~= entries(es@.take(i as int)));
                }
                let k = leaf_identity();
                let c = empty(&es[i].1);
                let ghost before = children@;
                children.push(k);
                let ghost mid = children@;
                children.push(c);
                proof {
                    assert(children@.drop_last() =~= mid);
                    assert(mid.drop_last() =~= before);
                    assert(idms(mid) == idms(before).push(idm(k)));
                    assert(idms(children@) == idms(mid).push(idm(c)));
                    let e1 = entries(es@.take(i + 1));
                    assert(e1.last() == (es@[i as int].0@, model(es@[i as int].1)));
                    assert(empty_pairs(e1) == empty_pairs(e1.drop_last()).push(leaf()).push(empty_id(e1.last().1)));
                }
                i = i + 1;
            }
            assert(es@.take(es.len() as int) =~= es@);
            Identity { id: None, children }
        },
        _ => leaf_identity(),
    }
}

} // verus!

verus! {

/// Bytes a character takes in compact JSON text (UTF-8, with JSON's escapes).
pub open spec fn json_char_size(c: char) -> nat {
    let n = c as u32;
    if c == '"' || c == '\\' || c == '\n' || c == '\r' || c == '\t' || n == 8 || n == 0xc {
        2
    } else if n < 0x20 {
        6
    } else if n < 0x80 {
        1
    } else if n < 0x800 {
        2
    } else if n < 0x10000 {
        3
    } else {
        4
    }
}

pub open spec fn text_json_size(t: Seq<char>) -> nat
    decreases t.len(),
{
    if t.len() == 0 {
        0
    } else {
        text_json_size(t.drop_last()) + json_char_size(t.last())
    }
}

/// Bytes a scalar takes in compact JSON (a non-finite number is written null).
pub open spec fn json_size(m: Model) -> nat {
    match m {
        Model::Null => 4,
        Model::Bool(b) => if b {
            4
        } else {
            5
        },
        Model::Integer(t) => t.len(),
        Model::NonFinite(_) => 4,
        Model::Text(t) => 2 + text_json_size(t),
        _ => 0,
    }
}

/// Brackets and separators of a container of `n` parts.
pub open spec fn frame(n: nat) -> nat {
    if n > 0 {
        n + 1
    } else {
        2
    }
}

pub open spec fn max(a: nat, b: nat) -> nat {
    if a < b {
        b
    } else {
        a
    }
}

/// The values counted, the compact bytes, and the nesting height of a value.
pub open spec fn stats(m: Model) -> (nat, nat, nat)
    decreases m, 0nat,
{
    match m {
        Model::List(xs) => {
            let s = item_stats(xs, xs.len());
            (1 + s.0, frame(xs.len()) + s.1, if xs.len() == 0 {
                0
            } else {
                1 + s.2
            })
        },
        Model::Mapping(es) => {
            let s = pair_stats(es, es.len());
            (1 + s.0, frame(es.len()) + s.1, if es.len() == 0 {
                0
            } else {
                1 + s.2
            })
        },
        _ => (1, json_size(m), 0),
    }
}

pub open spec fn item_stats(xs: Seq<Model>, n: nat) -> (nat, nat, nat)
    decreases xs, n,
{
    if n == 0 || n > xs.len() {
        (0, 0, 0)
    } else {
        let a = item_stats(xs, (n - 1) as nat);
        let b = stats(xs[n - 1]);
        (a.0 + b.0, a.1 + b.1, max(a.2, b.2))
    }
}

pub open spec fn pair_stats(es: Seq<(Seq<char>, Model)>, n: nat) -> (nat, nat, nat)
    decreases es, n,
{
    if n == 0 || n > es.len() {
        (0, 0, 0)
    } else {
        proof {
            assert(decreases_to!(es => es[n - 1]));
            assert(decreases_to!(es[n - 1] => es[n - 1].1));
        }
        let a = pair_stats(es, (n - 1) as nat);
        let b = stats(es[n - 1].1);
        (a.0 + 1 + b.0, a.1 + 2 + text_json_size(es[n - 1].0) + 1 + b.1, max(a.2, b.2))
    }
}

pub open spec fn child(id: Option<IdModel>, i: int) -> Option<IdModel> {
    match id {
        Some(m) => if 0 <= i < m.children.len() {
            Some(m.children[i])
        } else {
            None
        },
        None => None,
    }
}

pub open spec fn hits(id: Option<IdModel>, target: usize) -> bool {
    match id {
        Some(m) => m.id == Some(target),
        None => false,
    }
}

/// `stats` of the document read with every value whose identity is `target`
/// standing for `changed` (and sharing nothing below it).
pub open spec fn walk(m: Model, id: Option<IdModel>, target: usize, changed: Model) -> (nat, nat, nat)
    decreases m, 0nat,
{
    if hits(id, target) {
        stats(changed)
    } else {
        match m {
            Model::List(xs) => {
                let s = walk_items(xs, id, target, changed, xs.len());
                (1 + s.0, frame(xs.len()) + s.1, if xs.len() == 0 {
                    0
                } else {
                    1 + s.2
                })
            },
            Model::Mapping(es) => {
                let s = walk_pairs(es, id, target, changed, es.len());
                (1 + s.0, frame(es.len()) + s.1, if es.len() == 0 {
                    0
                } else {
                    1 + s.2
                })
            },
            _ => (1, json_size(m), 0),
        }
    }
}

pub open spec fn walk_items(
    xs: Seq<Model>,
    id: Option<IdModel>,
    target: usize,
    changed: Model,
    n: nat,
) -> (nat, nat, nat)
    decreases xs, n,
{
    if n == 0 || n > xs.len() {
        (0, 0, 0)
    } else {
        let a = walk_items(xs, id, target, changed, (n - 1) as nat);
        let b = walk(xs[n - 1], child(id, n - 1), target, changed);
        (a.0 + b.0, a.1 + b.1, max(a.2, b.2))
    }
}

pub open spec fn walk_pairs(
    es: Seq<(Seq<char>, Model)>,
    id: Option<IdModel>,
    target: usize,
    changed: Model,
    n: nat,
) -> (nat, nat, nat)
    decreases es, n,
{
    if n == 0 || n > es.len() {
        (0, 0, 0)
    } else {
        proof {
            assert(decreases_to!(es => es[n - 1]));
            assert(decreases_to!(es[n - 1] => es[n - 1].1));
        }
        let a = walk_pairs(es, id, target, changed, (n - 1) as nat);
        let b = walk(es[n - 1].1, child(id, 2 * (n - 1) + 1), target, changed);
        (a.0 + 1 + b.0, a.1 + 2 + text_json_size(es[n - 1].0) + 1 + b.1, max(a.2, b.2))
    }
}

/// Whether a measured document stays within the retained-document limits.
pub open spec fn within(depth: nat, counted: nat, bytes: nat, s: (nat, nat, nat)) -> bool {
    &&& counted + s.0 <= 2 * MAX_VALUES
    &&& bytes + s.1 <= MAX_DOCUMENT_BYTES
    &&& depth + s.2 <= MAX_DEPTH
}

pub open spec fn opt_idm(i: Option<&Identity>) -> Option<IdModel> {
    match i {
        Some(x) => Some(idm(*x)),
        None => None,
    }
}

/// The compact JSON size of a text, or `cap` when it is larger.
fn text_size_capped(t: &String, cap: usize) -> (r: usize)
    requires
        2 <= cap <= MAX_DOCUMENT_BYTES + 1,
    ensures
        r == if 2 + text_json_size(t@) < cap {
            2 + text_json_size(t@)
        } else {
            cap as nat
        },
{
    let cs = chars_of(t.as_str());
    let mut total: usize = 2;
    let mut i: usize = 0;
    assert(cs@.take(0) =~= Seq::<char>::empty());
    while i < cs.len()
        invariant
            0 <= i <= cs.len(),
            cs@ == t@,
            total == if 2 + text_json_size(cs@.take(i as int)) < cap {
                2 + text_json_size(cs@.take(i as int))
            } else {
                cap as nat
            },
            2 <= cap <= MAX_DOCUMENT_BYTES + 1,
            total <= cap,
        decreases cs.len() - i,
    {
        proof {
            assert(cs@.take(i + 1).drop_last() =~= cs@.take(i as int));
        }
        let c = cs[i];
        let n = c as u32;
        let size: usize = if c == '"' || c == '\\' || c == '\n' || c == '\r' || c == '\t' || n == 8
            || n == 0xc {
            2
        } else if n < 0x20 {
            6
        } else if n < 0x80 {
            1
        } else if n < 0x800 {
            2
        } else if n < 0x10000 {
            3
        } else {
            4
        };
        if total >= cap || total + size >= cap {
            total = cap;
        } else {
            total = total + size;
        }
        i = i + 1;
    }
    proof {
        assert(cs@.take(cs.len() as int) =~= cs@);
    }
    total
}

} // verus!

verus! {

proof fn lemma_walk_items_mono(
    xs: Seq<Model>,
    id: Option<IdModel>,
    target: usize,
    changed: Model,
    n: nat,
    m: nat,
)
    requires
        n <= m <= xs.len(),
    ensures
        walk_items(xs, id, target, changed, n).0 <= walk_items(xs, id, target, changed, m).0,
        walk_items(xs, id, target, changed, n).1 <= walk_items(xs, id, target, changed, m).1,
        walk_items(xs, id, target, changed, n).2 <= walk_items(xs, id, target, changed, m).2,
    decreases m,
{
    if n < m {
        lemma_walk_items_mono(xs, id, target, changed, n, (m - 1) as nat);
    }
}

proof fn lemma_walk_pairs_mono(
    es: Seq<(Seq<char>, Model)>,
    id: Option<IdModel>,
    target: usize,
    changed: Model,
    n: nat,
    m: nat,
)
    requires
        n <= m <= es.len(),
    ensures
        walk_pairs(es, id, target, changed, n).0 <= walk_pairs(es, id, target, changed, m).0,
        walk_pairs(es, id, target, changed, n).1 <= walk_pairs(es, id, target, changed, m).1,
        walk_pairs(es, id, target, changed, n).2 <= walk_pairs(es, id, target, changed, m).2,
    decreases m,
{
    if n < m {
        lemma_walk_pairs_mono(es, id, target, changed, n, (m - 1) as nat);
    }
}

/// Without an identity nothing stands for anything: the walk is the value's own.
proof fn lemma_walk_none(m: Model, target: usize, changed: Model)
    ensures
        walk(m, None, target, changed) == stats(m),
    decreases m, 0nat,
{
    match m {
        Model::List(xs) => {
            lemma_walk_items_none(xs, target, changed, xs.len());
        },
        Model::Mapping(es) => {
            lemma_walk_pairs_none(es, target, changed, es.len());
        },
        _ => {},
    }
}

proof fn lemma_walk_items_none(xs: Seq<Model>, target: usize, changed: Model, n: nat)
    ensures
        walk_items(xs, None, target, changed, n) == item_stats(xs, n),
    decreases xs, n,
{
    if n > 0 && n <= xs.len() {
        lemma_walk_items_none(xs, target, changed, (n - 1) as nat);
        lemma_walk_none(xs[n - 1], target, changed);
    }
}

proof fn lemma_walk_pairs_none(es: Seq<(Seq<char>, Model)>, target: usize, changed: Model, n: nat)
    ensures
        walk_pairs(es, None, target, changed, n) == pair_stats(es, n),
    decreases es, n,
{
    if n > 0 && n <= es.len() {
        assert(decreases_to!(es => es[n - 1]));
        assert(decreases_to!(es[n - 1] => es[n - 1].1));
        lemma_walk_pairs_none(es, target, changed, (n - 1) as nat);
        lemma_walk_none(es[n - 1].1, target, changed);
    }
}

fn history_limit() -> (e: Error)
    ensures
        e.0@ == "history_limit"@,
{
    Error(crate::text::string_of(&chars_of("history_limit")))
}

/// The compact JSON size of a scalar, or `cap` when it is larger.
fn scalar_size_capped(v: &Value, cap: usize) -> (r: usize)
    requires
        8 <= cap <= MAX_DOCUMENT_BYTES + 1,
    ensures
        r == if json_size(v@) < cap {
            json_size(v@)
        } else {
            cap as nat
        },
{
    match v {
        Value::Null => 4,
        Value::Bool(b) => if *b {
            4
        } else {
            5
        },
        Value::Integer(t) => {
            let n = chars_of(t.as_str()).len();
            if n < cap {
                n
            } else {
                cap
            }
        },
        Value::NonFinite(_) => 4,
        Value::Text(t) => text_size_capped(t, cap),
        _ => 0,
    }
}

fn child_ref<'a>(identity: Option<&'a Identity>, i: usize) -> (r: Option<&'a Identity>)
    ensures
        opt_idm(r) == child(opt_idm(identity), i as int),
        r is Some ==> identity is Some,
{
    match identity {
        Some(id) => {
            proof {
                lemma_idms(id.children@);
            }
            if i < id.children.len() {
                Some(&id.children[i])
            } else {
                None
            }
        },
        None => None,
    }
}

/// Walks a document as `bounded_expansion` measures it, adding to `total` the
/// values counted and the compact bytes, and failing at the first limit passed.
fn measure(
    value: &Value,
    identity: Option<&Identity>,
    target: usize,
    changed: &Value,
    depth: usize,
    total: &mut (usize, usize),
) -> (r: Result<(), Error>)
    requires
        old(total).0 <= 2 * MAX_VALUES + 1,
        old(total).1 <= MAX_DOCUMENT_BYTES,
        depth <= MAX_DEPTH + 1,
    ensures
        ({
            let w = walk(value@, opt_idm(identity), target, changed@);
            &&& r is Ok <==> within(depth as nat, old(total).0 as nat, old(total).1 as nat, w)
            &&& r is Ok ==> final(total).0 == old(total).0 + w.0 && final(total).1 == old(total).1 + w.1
            &&& r matches Err(e) ==> e.0@ == "history_limit"@
        }),
    decreases (if identity is Some {
        1nat
    } else {
        0nat
    }), value,
{
    if let Some(id) = identity {
        if id.id == Some(target) {
            proof {
                lemma_walk_none(changed@, target, changed@);
            }
            return measure(changed, None, target, changed, depth, total);
        }
    }
    let ghost id0 = opt_idm(identity);
    let ghost w = walk(value@, id0, target, changed@);
    let ghost t0 = total.0;
    let ghost t1 = total.1;
    total.0 = total.0 + 1;
    if !(depth <= MAX_DEPTH && total.0 <= 2 * MAX_VALUES) {
        return Err(history_limit());
    }
    match value {
        Value::List(xs) => {
            proof {
                lemma_models(xs@);
            }
            let n = xs.len();
            if n >= MAX_DOCUMENT_BYTES {
                return Err(history_limit());
            }
            let frame_bytes: usize = if n > 0 {
                n + 1
            } else {
                2
            };
            total.1 = total.1 + frame_bytes;
            if total.1 > MAX_DOCUMENT_BYTES {
                proof {
                    lemma_walk_items_mono(models(xs@), id0, target, changed@, 0, n as nat);
                }
                return Err(history_limit());
            }
            let mut i: usize = 0;
            while i < n
                invariant
                    0 <= i <= n,
                    n == xs.len(),
                    *value == Value::List(*xs),
                    models(xs@).len() == xs@.len(),
                    forall|j: int| 0 <= j < xs@.len() ==> #[trigger] models(xs@)[j] == model(xs@[j]),
                    id0 == opt_idm(identity),
                    w == walk(value@, id0, target, changed@),
                    t0 == old(total).0,
                    t1 == old(total).1,
                    !hits(id0, target),
                    depth <= MAX_DEPTH,
                    frame_bytes == frame(n as nat),
                    total.0 == t0 + 1 + walk_items(models(xs@), id0, target, changed@, i as nat).0,
                    total.1 == t1 + frame_bytes + walk_items(models(xs@), id0, target, changed@, i as nat).1,
                    total.0 <= 2 * MAX_VALUES,
                    total.1 <= MAX_DOCUMENT_BYTES,
                    i > 0 ==> depth + 1 + walk_items(models(xs@), id0, target, changed@, i as nat).2 <= MAX_DEPTH,
                decreases n - i,
            {
                proof {
                    assert(decreases_to!(*value => (*value)->List_0));
                    assert(decreases_to!((*value)->List_0 => xs@[i as int]));
                }
                let c = child_ref(identity, i);
                let ghost before = *total;
                let res = measure(&xs[i], c, target, changed, depth + 1, total);
                proof {
                    lemma_walk_items_mono(models(xs@), id0, target, changed@, (i + 1) as nat, n as nat);
                }
                match res {
                    Err(e) => {
                        proof {
                            let ws = walk_items(models(xs@), id0, target, changed@, n as nat);
                            assert(value@ == Model::List(models(xs@)));
                            assert(w == (1 + ws.0, frame(n as nat) + ws.1, 1 + ws.2));
                            let wc = walk(xs@[i as int]@, child(id0, i as int), target, changed@);
                            let wp = walk_items(models(xs@), id0, target, changed@, i as nat);
                            assert(walk_items(models(xs@), id0, target, changed@, (i + 1) as nat) == (wp.0 + wc.0, wp.1 + wc.1, max(wp.2, wc.2)));
                        }
                        return Err(e);
                    },
                    Ok(()) => {},
                }
                i = i + 1;
            }
            proof {
                assert(value@ == Model::List(models(xs@)));
            }
            Ok(())
        },
        Value::Mapping(es) => {
            proof {
                lemma_entries(es@);
            }
            let n = es.len();
            if n >= MAX_DOCUMENT_BYTES {
                return Err(history_limit());
            }
            let frame_bytes: usize = if n > 0 {
                n + 1
            } else {
                2
            };
            total.1 = total.1 + frame_bytes;
            if total.1 > MAX_DOCUMENT_BYTES {
                proof {
                    lemma_walk_pairs_mono(entries(es@), id0, target, changed@, 0, n as nat);
                }
                return Err(history_limit());
            }
            let mut i: usize = 0;
            while i < n
                invariant
                    0 <= i <= n,
                    n == es.len(),
                    *value == Value::Mapping(*es),
                    entries(es@).len() == es@.len(),
                    forall|j: int| 0 <= j < es@.len() ==> #[trigger] entries(es@)[j] == (es@[j].0@, model(es@[j].1)),
                    id0 == opt_idm(identity),
                    w == walk(value@, id0, target, changed@),
                    t0 == old(total).0,
                    t1 == old(total).1,
                    !hits(id0, target),
                    depth <= MAX_DEPTH,
                    frame_bytes == frame(n as nat),
                    total.0 == t0 + 1 + walk_pairs(entries(es@), id0, target, changed@, i as nat).0,
                    total.1 == t1 + frame_bytes + walk_pairs(entries(es@), id0, target, changed@, i as nat).1,
                    total.0 <= 2 * MAX_VALUES,
                    total.1 <= MAX_DOCUMENT_BYTES,
                    i > 0 ==> depth + 1 + walk_pairs(entries(es@), id0, target, changed@, i as nat).2 <= MAX_DEPTH,
                decreases n - i,
            {
                proof {
                    assert(decreases_to!(*value => (*value)->Mapping_0));
                    assert(decreases_to!((*value)->Mapping_0 => es@[i as int]));
                    assert(decreases_to!(es@[i as int] => es@[i as int].1));
                    lemma_walk_pairs_mono(entries(es@), id0, target, changed@, (i + 1) as nat, n as nat);
                }
                total.0 = total.0 + 1;
                let key = text_size_capped(&es[i].0, MAX_DOCUMENT_BYTES + 1);
                total.1 = total.1 + key + 1;
                proof {
                    let ws = walk_pairs(entries(es@), id0, target, changed@, n as nat);
                    assert(value@ == Model::Mapping(entries(es@)));
                    assert(w == (1 + ws.0, frame(n as nat) + ws.1, 1 + ws.2));
                    let wc = walk(es@[i as int].1@, child(id0, 2 * i + 1), target, changed@);
                    let wp = walk_pairs(entries(es@), id0, target, changed@, i as nat);
                    assert(entries(es@)[i as int] == (es@[i as int].0@, model(es@[i as int].1)));
                    assert(walk_pairs(entries(es@), id0, target, changed@, (i + 1) as nat) == (wp.0 + 1 + wc.0, wp.1 + 2 + text_json_size(es@[i as int].0@) + 1 + wc.1, max(wp.2, wc.2)));
                }
                if total.1 > MAX_DOCUMENT_BYTES {
                    return Err(history_limit());
                }
                let c = child_ref(identity, 2 * i + 1);
                let res = measure(&es[i].1, c, target, changed, depth + 1, total);
                match res {
                    Err(e) => {
                        return Err(e);
                    },
                    Ok(()) => {},
                }
                i = i + 1;
            }
            proof {
                assert(value@ == Model::Mapping(entries(es@)));
            }
            Ok(())
        },
        _ => {
            let size = scalar_size_capped(value, MAX_DOCUMENT_BYTES + 1);
            total.1 = total.1 + size;
            if total.1 > MAX_DOCUMENT_BYTES {
                return Err(history_limit());
            }
            Ok(())
        },
    }
}

/// Whether the document `value`, with every value whose identity is `target`
/// replaced by `changed`, stays within the retained-document limits: nesting,
/// the number of values and keys, and the compact size. The walk expands each
/// alias of the target, so growth through aliases is bounded before anything
/// is cloned.
pub fn bounded_expansion(value: &Value, identity: &Identity, target: usize, changed: &Value) -> (r:
    Result<(), Error>)
    ensures
        r is Ok <==> within(0, 0, 0, walk(value@, Some(identity@), target, changed@)),
        r matches Err(e) ==> e.0@ == "history_limit"@,
{
    let mut total: (usize, usize) = (0, 0);
    measure(value, Some(identity), target, changed, 0, &mut total)
}

} // verus!

verus! {

/// Every alias anchor doubled and offset by `origin`.
pub open spec fn rebased(m: IdModel, origin: nat) -> IdModel
    decreases m, 0nat,
{
    IdModel {
        id: match m.id {
            Some(x) => Some((2 * x + origin) as usize),
            None => None,
        },
        children: rebased_all(m.children, origin),
    }
}

pub open spec fn rebased_all(s: Seq<IdModel>, origin: nat) -> Seq<IdModel>
    decreases s, s.len(),
{
    if s.len() == 0 {
        Seq::empty()
    } else {
        rebased_all(s.drop_last(), origin).push(rebased(s.last(), origin))
    }
}

/// Whether every rebased anchor still fits a `usize`.
pub open spec fn fits(m: IdModel, origin: nat) -> bool
    decreases m, 0nat,
{
    &&& (match m.id {
        Some(x) => 2 * x + origin <= usize::MAX,
        None => true,
    })
    &&& fits_all(m.children, origin)
}

pub open spec fn fits_all(s: Seq<IdModel>, origin: nat) -> bool
    decreases s, s.len(),
{
    s.len() == 0 || (fits_all(s.drop_last(), origin) && fits(s.last(), origin))
}

/// The identity with each anchor `a` renamed `2a + origin`; the call fails
/// where a renamed anchor would not fit a `usize`.
pub fn rebase(identity: &Identity, origin: usize) -> (r: Result<Identity, Error>)
    ensures
        r is Ok <==> fits(identity@, origin as nat),
        r matches Ok(x) ==> x@ == rebased(identity@, origin as nat),
        r matches Err(e) ==> e.0@ == "history_limit"@,
    decreases identity,
{
    let id = match identity.id {
        Some(x) => {
            if x > (usize::MAX - origin) / 2 {
                return Err(history_limit());
            }
            Some(2 * x + origin)
        },
        None => None,
    };
    let mut children: Vec<Identity> = Vec::new();
    let mut i: usize = 0;
    while i < identity.children.len()
        invariant
            0 <= i <= identity.children.len(),
            match identity.id {
                Some(x) => 2 * x + origin <= usize::MAX,
                None => true,
            },
            idms(children@) == rebased_all(idms(identity.children@.take(i as int)), origin as nat),
            fits_all(idms(identity.children@.take(i as int)), origin as nat),
        decreases identity.children.len() - i,
    {
        proof {
            assert(decreases_to!(*identity => identity.children));
            assert(decreases_to!(identity.children => identity.children@[i as int]));
            let t = identity.children@.take(i + 1);
            assert(t.drop_last() =~= identity.children@.take(i as int));
            lemma_idms(t);
            lemma_idms(identity.children@.take(i as int));
            assert(idms(t).drop_last() =~= idms(identity.children@.take(i as int)));
        }
        match rebase(&identity.children[i], origin) {
            Ok(c) => {
                let ghost before = children@;
                children.push(c);
                proof {
                    assert(children@.drop_last() =~= before);
                }
            },
            Err(e) => {
                proof {
                    let all = idms(identity.children@);
                    lemma_idms(identity.children@);
                    if fits_all(all, origin as nat) {
                        lemma_fits_prefix(all, origin as nat, (i + 1) as nat);
                    }
                    assert(identity.children@.take(i + 1) =~= identity.children@.subrange(0, i + 1));
                    lemma_idms(identity.children@);
                    assert(idms(identity.children@.take(i + 1)) =~= all.take(i + 1));
                }
                return Err(e);
            },
        }
        i = i + 1;
    }
    assert(identity.children@.take(identity.children.len() as int) =~= identity.children@);
    Ok(Identity { id, children })
}

/// Every anchor of the identity leaves the remainder `r` when halved.
pub open spec fn anchors_mod(m: IdModel, r: nat) -> bool
    decreases m, 0nat,
{
    &&& (match m.id {
        Some(x) => x % 2 == r,
        None => true,
    })
    &&& anchors_mod_all(m.children, r)
}

pub open spec fn anchors_mod_all(s: Seq<IdModel>, r: nat) -> bool
    decreases s, s.len(),
{
    s.len() == 0 || (anchors_mod_all(s.drop_last(), r) && anchors_mod(s.last(), r))
}

/// Rebasing gives every anchor the parity of the origin: with origin 0 all
/// anchors are even, with origin 1 all are odd, so two identities rebased
/// with origins of different parity share no anchor.
pub proof fn lemma_rebased_parity(m: IdModel, origin: nat)
    requires
        fits(m, origin),
    ensures
        anchors_mod(rebased(m, origin), origin % 2),
    decreases m, 0nat,
{
    lemma_rebased_parity_all(m.children, origin);
}

proof fn lemma_rebased_parity_all(s: Seq<IdModel>, origin: nat)
    requires
        fits_all(s, origin),
    ensures
        anchors_mod_all(rebased_all(s, origin), origin % 2),
    decreases s, s.len(),
{
    if s.len() > 0 {
        assert(decreases_to!(s => s[s.len() - 1]));
        lemma_rebased_parity_all(s.drop_last(), origin);
        lemma_rebased_parity(s.last(), origin);
        let t = rebased_all(s, origin);
        assert(t.drop_last() =~= rebased_all(s.drop_last(), origin));
    }
}

proof fn lemma_fits_prefix(s: Seq<IdModel>, origin: nat, n: nat)
    requires
        n <= s.len(),
        fits_all(s, origin),
    ensures
        fits_all(s.take(n as int), origin),
    decreases s.len(),
{
    if n < s.len() {
        assert(s.drop_last().take(n as int) =~= s.take(n as int));
        lemma_fits_prefix(s.drop_last(), origin, n);
    } else {
        assert(s.take(n as int) =~= s);
    }
}

/// The first anchor not yet used: one past the largest anchor, or 0.
pub open spec fn next_id(m: IdModel) -> nat
    decreases m, 0nat,
{
    max(
        match m.id {
            Some(x) => if x < usize::MAX {
                (x + 1) as nat
            } else {
                x as nat
            },
            None => 0,
        },
        next_all(m.children),
    )
}

pub open spec fn next_all(s: Seq<IdModel>) -> nat
    decreases s, s.len(),
{
    if s.len() == 0 {
        0
    } else {
        max(next_all(s.drop_last()), next_id(s.last()))
    }
}

/// The first anchor not yet used (saturating at `usize::MAX`).
pub fn next_identity(identity: &Identity) -> (r: usize)
    ensures
        r == next_id(identity@),
    decreases identity,
{
    let own: usize = match identity.id {
        Some(x) => if x < usize::MAX {
            x + 1
        } else {
            x
        },
        None => 0,
    };
    let mut best: usize = 0;
    let mut i: usize = 0;
    while i < identity.children.len()
        invariant
            0 <= i <= identity.children.len(),
            best == next_all(idms(identity.children@.take(i as int))),
        decreases identity.children.len() - i,
    {
        proof {
            assert(decreases_to!(*identity => identity.children));
            assert(decreases_to!(identity.children => identity.children@[i as int]));
            let t = identity.children@.take(i + 1);
            assert(t.drop_last() =~= identity.children@.take(i as int));
            lemma_idms(t);
            lemma_idms(identity.children@.take(i as int));
            assert(idms(t).drop_last() =~= idms(identity.children@.take(i as int)));
        }
        let n = next_identity(&identity.children[i]);
        if n > best {
            best = n;
        }
        i = i + 1;
    }
    assert(identity.children@.take(identity.children.len() as int) =~= identity.children@);
    if own > best {
        own
    } else {
        best
    }
}

/// A deep copy of an identity.
pub fn copy_identity(identity: &Identity) -> (r: Identity)
    ensures
        r@ == identity@,
    decreases identity,
{
    let mut children: Vec<Identity> = Vec::new();
    let mut i: usize = 0;
    while i < identity.children.len()
        invariant
            0 <= i <= identity.children.len(),
            idms(children@) == idms(identity.children@.take(i as int)),
        decreases identity.children.len() - i,
    {
        proof {
            assert(decreases_to!(*identity => identity.children));
            assert(decreases_to!(identity.children => identity.children@[i as int]));
            let t = identity.children@.take(i + 1);
            assert(t.drop_last() =~= identity.children@.take(i as int));
        }
        let c = copy_identity(&identity.children[i]);
        let ghost before = children@;
        children.push(c);
        proof {
            assert(children@.drop_last() =~= before);
        }
        i = i + 1;
    }
    assert(identity.children@.take(identity.children.len() as int) =~= identity.children@);
    Identity { id: identity.id, children }
}

} // verus!

verus! {

/// Whether an identity has the parts that a value's shape calls for.
pub open spec fn shaped(m: Model, id: IdModel) -> bool
    decreases m, 0nat,
{
    match m {
        Model::List(xs) => id.children.len() >= xs.len() && shaped_items(xs, id.children, xs.len()),
        Model::Mapping(es) => id.children.len() >= 2 * es.len() && shaped_pairs(es, id.children, es.len()),
        _ => true,
    }
}

pub open spec fn shaped_items(xs: Seq<Model>, cs: Seq<IdModel>, n: nat) -> bool
    decreases xs, n,
{
    if n == 0 || n > xs.len() {
        true
    } else {
        shaped_items(xs, cs, (n - 1) as nat) && (n - 1 < cs.len() && shaped(xs[n - 1], cs[n - 1]))
    }
}

pub open spec fn shaped_pairs(es: Seq<(Seq<char>, Model)>, cs: Seq<IdModel>, n: nat) -> bool
    decreases es, n,
{
    if n == 0 || n > es.len() {
        true
    } else {
        proof {
            assert(decreases_to!(es => es[n - 1]));
            assert(decreases_to!(es[n - 1] => es[n - 1].1));
        }
        shaped_pairs(es, cs, (n - 1) as nat) && (2 * n - 1 < cs.len() && shaped(
            es[n - 1].1,
            cs[2 * n - 1],
        ))
    }
}

proof fn lemma_shaped_items(xs: Seq<Model>, cs: Seq<IdModel>, n: nat, k: int)
    requires
        shaped_items(xs, cs, n),
        n <= xs.len(),
        0 <= k < n,
    ensures
        k < cs.len() && shaped(xs[k], cs[k]),
    decreases n,
{
    if k < n - 1 {
        lemma_shaped_items(xs, cs, (n - 1) as nat, k);
    }
}

proof fn lemma_shaped_pairs(es: Seq<(Seq<char>, Model)>, cs: Seq<IdModel>, n: nat, k: int)
    requires
        shaped_pairs(es, cs, n),
        n <= es.len(),
        0 <= k < n,
    ensures
        2 * k + 1 < cs.len() && shaped(es[k].1, cs[2 * k + 1]),
    decreases n,
{
    if k < n - 1 {
        lemma_shaped_pairs(es, cs, (n - 1) as nat, k);
    }
}

/// The identity a value keeps across an edit from `before` to `after`: an
/// entry kept under the same key keeps its key's identity and, recursively, its
/// value's; an item kept at the same place keeps its own; a value left as it was
/// keeps its identity whole; anything new shares nothing.
pub open spec fn retained_spec(before: Model, id: IdModel, after: Model) -> IdModel
    decreases after, 0nat,
{
    match (before, after) {
        (Model::Mapping(was), Model::Mapping(now)) => IdModel {
            id: id.id,
            children: retained_pairs(was, id, now, now.len()),
        },
        (Model::List(was), Model::List(now)) => IdModel {
            id: id.id,
            children: retained_items(was, id, now, now.len()),
        },
        _ => if before == after {
            id
        } else {
            empty_id(after)
        },
    }
}

pub open spec fn retained_items(was: Seq<Model>, id: IdModel, now: Seq<Model>, n: nat) -> Seq<
    IdModel,
>
    decreases now, n,
{
    if n == 0 || n > now.len() {
        Seq::empty()
    } else {
        retained_items(was, id, now, (n - 1) as nat).push(
            if n - 1 < was.len() {
                retained_spec(was[n - 1], id.children[n - 1], now[n - 1])
            } else {
                empty_id(now[n - 1])
            },
        )
    }
}

pub open spec fn retained_pairs(
    was: Seq<(Seq<char>, Model)>,
    id: IdModel,
    now: Seq<(Seq<char>, Model)>,
    n: nat,
) -> Seq<IdModel>
    decreases now, n,
{
    if n == 0 || n > now.len() {
        Seq::empty()
    } else {
        proof {
            assert(decreases_to!(now => now[n - 1]));
            assert(decreases_to!(now[n - 1] => now[n - 1].1));
        }
        let prev = retained_pairs(was, id, now, (n - 1) as nat);
        let key = now[n - 1].0;
        if crate::value::has_key(was, key) {
            let k = crate::value::key_index(was, key);
            prev.push(id.children[2 * k]).push(
                retained_spec(was[k].1, id.children[2 * k + 1], now[n - 1].1),
            )
        } else {
            prev.push(leaf()).push(empty_id(now[n - 1].1))
        }
    }
}

/// The identity a value keeps across an edit from `before` to `after`.
pub fn retained(before: &Value, identity: &Identity, after: &Value) -> (r: Identity)
    requires
        shaped(before@, identity@),
    ensures
        r@ == retained_spec(before@, identity@, after@),
    decreases after,
{
    proof {
        lemma_idms(identity.children@);
    }
    match (before, after) {
        (Value::Mapping(was), Value::Mapping(now)) => {
            proof {
                lemma_entries(was@);
                lemma_entries(now@);
            }
            let ghost wm = entries(was@);
            let ghost nm = entries(now@);
            let mut children: Vec<Identity> = Vec::new();
            let mut i: usize = 0;
            while i < now.len()
                invariant
                    0 <= i <= now.len(),
                    *after == Value::Mapping(*now),
                    *before == Value::Mapping(*was),
                    shaped(before@, identity@),
                    wm == entries(was@),
                    nm == entries(now@),
                    wm.len() == was@.len(),
                    nm.len() == now@.len(),
                    forall|j: int| 0 <= j < was@.len() ==> #[trigger] wm[j] == (was@[j].0@, model(was@[j].1)),
                    forall|j: int| 0 <= j < now@.len() ==> #[trigger] nm[j] == (now@[j].0@, model(now@[j].1)),
                    idms(identity.children@).len() == identity.children@.len(),
                    forall|j: int| 0 <= j < identity.children@.len() ==> #[trigger] idms(identity.children@)[j] == idm(identity.children@[j]),
                    idms(children@) == retained_pairs(wm, identity@, nm, i as nat),
                decreases now.len() - i,
            {
                proof {
                    assert(decreases_to!(*after => (*after)->Mapping_0));
                    assert(decreases_to!((*after)->Mapping_0 => now@[i as int]));
                    assert(decreases_to!(now@[i as int] => now@[i as int].1));
                }
                let ghost before_children = children@;
                match crate::value::find(was, now[i].0.as_str()) {
                    Some(k) => {
                        proof {
                            crate::value::lemma_key_index(wm, now@[i as int].0@, k as int);
                            lemma_shaped_pairs(wm, identity@.children, wm.len(), k as int);
                            assert(identity@.children == idms(identity.children@));
                            assert(2 * k + 1 < identity.children.len());
                            assert(retained_pairs(wm, identity@, nm, (i + 1) as nat) == retained_pairs(wm, identity@, nm, i as nat).push(identity@.children[2 * k]).push(
                                retained_spec(wm[k as int].1, identity@.children[2 * k + 1], nm[i as int].1)));
                        }
                        assert(2 * k + 1 < identity.children.len());
                        let key_id = copy_identity(&identity.children[2 * k]);
                        let value_id = retained(&was[k].1, &identity.children[2 * k + 1], &now[i].1);
                        let ghost kid = key_id@;
                        let ghost vid = value_id@;
                        children.push(key_id);
                        let ghost mid = children@;
                        children.push(value_id);
                        proof {
                            assert(children@.drop_last() =~= mid);
                            assert(mid.drop_last() =~= before_children);
                            assert(idms(mid) == idms(before_children).push(kid));
                            assert(idms(children@) == idms(mid).push(vid));
                            assert(idms(identity.children@)[2 * k as int] == idm(identity.children@[2 * k as int]));
                            assert(idms(identity.children@)[2 * k + 1] == idm(identity.children@[2 * k + 1]));
                        }
                    },
                    None => {
                        proof {
                            assert(retained_pairs(wm, identity@, nm, (i + 1) as nat) == retained_pairs(wm, identity@, nm, i as nat).push(leaf()).push(empty_id(nm[i as int].1)));
                        }
                        let key_id = leaf_identity();
                        let value_id = empty(&now[i].1);
                        let ghost kid = key_id@;
                        let ghost vid = value_id@;
                        children.push(key_id);
                        let ghost mid = children@;
                        children.push(value_id);
                        proof {
                            assert(children@.drop_last() =~= mid);
                            assert(mid.drop_last() =~= before_children);
                            assert(idms(mid) == idms(before_children).push(kid));
                            assert(idms(children@) == idms(mid).push(vid));
                        }
                    },
                }
                i = i + 1;
            }
            Identity { id: identity.id, children }
        },
        (Value::List(was), Value::List(now)) => {
            proof {
                lemma_models(was@);
                lemma_models(now@);
            }
            let ghost wm = models(was@);
            let ghost nm = models(now@);
            let mut children: Vec<Identity> = Vec::new();
            let mut i: usize = 0;
            while i < now.len()
                invariant
                    0 <= i <= now.len(),
                    *after == Value::List(*now),
                    *before == Value::List(*was),
                    shaped(before@, identity@),
                    wm == models(was@),
                    nm == models(now@),
                    wm.len() == was@.len(),
                    nm.len() == now@.len(),
                    forall|j: int| 0 <= j < was@.len() ==> #[trigger] wm[j] == model(was@[j]),
                    forall|j: int| 0 <= j < now@.len() ==> #[trigger] nm[j] == model(now@[j]),
                    idms(identity.children@).len() == identity.children@.len(),
                    forall|j: int| 0 <= j < identity.children@.len() ==> #[trigger] idms(identity.children@)[j] == idm(identity.children@[j]),
                    idms(children@) == retained_items(wm, identity@, nm, i as nat),
                decreases now.len() - i,
            {
                proof {
                    assert(decreases_to!(*after => (*after)->List_0));
                    assert(decreases_to!((*after)->List_0 => now@[i as int]));
                }
                let ghost before_children = children@;
                if i < was.len() {
                    proof {
                        lemma_shaped_items(wm, identity@.children, wm.len(), i as int);
                    }
                    let c = retained(&was[i], &identity.children[i], &now[i]);
                    children.push(c);
                } else {
                    let c = empty(&now[i]);
                    children.push(c);
                }
                proof {
                    assert(children@.drop_last() =~= before_children);
                }
                i = i + 1;
            }
            Identity { id: identity.id, children }
        },
        _ => {
            if same_value(before, after) {
                copy_identity(identity)
            } else {
                empty(after)
            }
        },
    }
}

} // verus!

verus! {

/// Whether a collection value holds an entry under `k`.
pub open spec fn holds(m: Model, k: Seq<char>) -> bool {
    m is Mapping && crate::value::has_key(crate::value::map_entries(m), k)
}

/// The identity of the collection that holds entry `id` (the first one that
/// does), and where `id` stands in it.
pub fn body_identity<'a>(value: &Value, identity: &'a Identity, id: &str) -> (r: Option<(&'a Identity, usize)>)
    requires
        forall|g: int|
            0 <= g < crate::value::map_entries(value@).len() && #[trigger] holds(
                crate::value::map_entries(value@)[g].1,
                id@,
            ) && (forall|j: int|
                0 <= j < g ==> !holds(#[trigger] crate::value::map_entries(value@)[j].1, id@))
                ==> 2 * g + 1 < identity@.children.len(),
    ensures
        ({
            let gs = crate::value::map_entries(value@);
            match r {
                Some((x, index)) => exists|g: int|
                    0 <= g < gs.len() && #[trigger] holds(gs[g].1, id@) && (forall|j: int|
                        0 <= j < g ==> !holds(#[trigger] gs[j].1, id@)) && x@ == identity@.children[2
                        * g + 1] && index == crate::value::key_index(
                        crate::value::map_entries(gs[g].1),
                        id@,
                    ),
                None => forall|g: int| 0 <= g < gs.len() ==> !holds(#[trigger] gs[g].1, id@),
            }
        }),
{
    proof {
        lemma_idms(identity.children@);
    }
    match value {
        Value::Mapping(groups) => {
            proof {
                lemma_entries(groups@);
            }
            let ghost gs = entries(groups@);
            let mut g: usize = 0;
            while g < groups.len()
                invariant
                    0 <= g <= groups.len(),
                    gs == entries(groups@),
                    *value == Value::Mapping(*groups),
                    gs.len() == groups@.len(),
                    forall|j: int| 0 <= j < groups@.len() ==> #[trigger] gs[j] == (groups@[j].0@, model(groups@[j].1)),
                    forall|h: int|
                        0 <= h < gs.len() && #[trigger] holds(gs[h].1, id@) && (forall|j: int|
                            0 <= j < h ==> !holds(#[trigger] gs[j].1, id@)) ==> 2 * h + 1 < identity@.children.len(),
                    idms(identity.children@).len() == identity.children@.len(),
                    forall|j: int| 0 <= j < identity.children@.len() ==> #[trigger] idms(identity.children@)[j] == idm(identity.children@[j]),
                    forall|j: int| 0 <= j < g ==> !holds(#[trigger] gs[j].1, id@),
                decreases groups.len() - g,
            {
                if let Value::Mapping(fields) = &groups[g].1 {
                    proof {
                        lemma_entries(fields@);
                    }
                    if let Some(index) = crate::value::find(fields, id) {
                        proof {
                            crate::value::lemma_key_index(entries(fields@), id@, index as int);
                            assert(gs[g as int].1 == Model::Mapping(entries(fields@)));
                            assert(holds(gs[g as int].1, id@));
                            assert(identity@.children == idms(identity.children@));
                            assert(idms(identity.children@)[2 * g + 1] == idm(identity.children@[2 * g + 1]));
                            assert(crate::value::key_index(crate::value::map_entries(gs[g as int].1), id@) == index);
                            assert(value@ == Model::Mapping(gs));
                            assert(crate::value::map_entries(value@) == gs);
                        }
                        assert(2 * g + 1 < identity.children.len());
                        return Some((&identity.children[2 * g + 1], index));
                    }
                }
                g = g + 1;
            }
            assert(value@ == Model::Mapping(gs));
            None
        },
        _ => None,
    }
}


proof fn lemma_items_from(xs: Seq<Model>, cs: Seq<IdModel>, n: nat)
    requires
        n <= xs.len(),
        n <= cs.len(),
        forall|k: int| 0 <= k < n ==> #[trigger] shaped(xs[k], cs[k]),
    ensures
        shaped_items(xs, cs, n),
    decreases n,
{
    if n > 0 {
        lemma_items_from(xs, cs, (n - 1) as nat);
        assert(shaped(xs[n - 1], cs[n - 1]));
    }
}

proof fn lemma_pairs_from(es: Seq<(Seq<char>, Model)>, cs: Seq<IdModel>, n: nat)
    requires
        n <= es.len(),
        2 * n <= cs.len(),
        forall|k: int| 0 <= k < n ==> #[trigger] shaped(es[k].1, cs[2 * k + 1]),
    ensures
        shaped_pairs(es, cs, n),
    decreases n,
{
    if n > 0 {
        lemma_pairs_from(es, cs, (n - 1) as nat);
        assert(shaped(es[n - 1].1, cs[2 * (n - 1) + 1]));
    }
}

proof fn lemma_empty_items(xs: Seq<Model>)
    ensures
        empty_items(xs).len() == xs.len(),
        forall|k: int| 0 <= k < xs.len() ==> #[trigger] empty_items(xs)[k] == empty_id(xs[k]),
    decreases xs.len(),
{
    if xs.len() > 0 {
        lemma_empty_items(xs.drop_last());
        assert forall|k: int| 0 <= k < xs.len() implies #[trigger] empty_items(xs)[k] == empty_id(xs[k]) by {
            if k < xs.len() - 1 {
                assert(xs.drop_last()[k] == xs[k]);
            }
        }
    }
}

proof fn lemma_empty_pairs(es: Seq<(Seq<char>, Model)>)
    ensures
        empty_pairs(es).len() == 2 * es.len(),
        forall|k: int| 0 <= k < es.len() ==> #[trigger] empty_pairs(es)[2 * k + 1] == empty_id(es[k].1),
    decreases es.len(),
{
    if es.len() > 0 {
        lemma_empty_pairs(es.drop_last());
        assert forall|k: int| 0 <= k < es.len() implies #[trigger] empty_pairs(es)[2 * k + 1] == empty_id(es[k].1) by {
            if k < es.len() - 1 {
                assert(es.drop_last()[k] == es[k]);
            }
        }
    }
}

/// The identity of a value that shares nothing has the parts the value's
/// shape calls for.
pub proof fn lemma_empty_shaped(m: Model)
    ensures
        shaped(m, empty_id(m)),
    decreases m,
{
    match m {
        Model::List(xs) => {
            lemma_empty_items(xs);
            assert forall|k: int| 0 <= k < xs.len() implies #[trigger] shaped(xs[k], empty_items(xs)[k]) by {
                assert(decreases_to!(m => xs[k]));
                lemma_empty_shaped(xs[k]);
            }
            lemma_items_from(xs, empty_items(xs), xs.len());
        },
        Model::Mapping(es) => {
            lemma_empty_pairs(es);
            assert forall|k: int| 0 <= k < es.len() implies #[trigger] shaped(es[k].1, empty_pairs(es)[2 * k + 1]) by {
                assert(decreases_to!(m => es[k].1));
                lemma_empty_shaped(es[k].1);
            }
            lemma_pairs_from(es, empty_pairs(es), es.len());
        },
        _ => {},
    }
}

proof fn lemma_retained_items(was: Seq<Model>, id: IdModel, now: Seq<Model>, n: nat)
    requires
        n <= now.len(),
    ensures
        retained_items(was, id, now, n).len() == n,
        forall|k: int|
            0 <= k < n ==> #[trigger] retained_items(was, id, now, n)[k] == if k < was.len() {
                retained_spec(was[k], id.children[k], now[k])
            } else {
                empty_id(now[k])
            },
    decreases n,
{
    if n > 0 {
        lemma_retained_items(was, id, now, (n - 1) as nat);
    }
}

proof fn lemma_retained_pairs(was: Seq<(Seq<char>, Model)>, id: IdModel, now: Seq<(Seq<char>, Model)>, n: nat)
    requires
        n <= now.len(),
    ensures
        retained_pairs(was, id, now, n).len() == 2 * n,
        forall|k: int|
            0 <= k < n ==> #[trigger] retained_pairs(was, id, now, n)[2 * k + 1] == if crate::value::has_key(
                was,
                now[k].0,
            ) {
                retained_spec(
                    was[crate::value::key_index(was, now[k].0)].1,
                    id.children[2 * crate::value::key_index(was, now[k].0) + 1],
                    now[k].1,
                )
            } else {
                empty_id(now[k].1)
            },
    decreases n,
{
    if n > 0 {
        lemma_retained_pairs(was, id, now, (n - 1) as nat);
    }
}

/// Retaining keeps an identity fit for its value: where the identity had
/// the parts the value before the edit called for, the identity retained has
/// those the value after the edit calls for.
pub proof fn lemma_retained_shaped(before: Model, id: IdModel, after: Model)
    requires
        shaped(before, id),
    ensures
        shaped(after, retained_spec(before, id, after)),
    decreases after,
{
    match (before, after) {
        (Model::Mapping(was), Model::Mapping(now)) => {
            let cs = retained_pairs(was, id, now, now.len());
            lemma_retained_pairs(was, id, now, now.len());
            assert forall|k: int| 0 <= k < now.len() implies #[trigger] shaped(now[k].1, cs[2 * k + 1]) by {
                assert(decreases_to!(after => now[k].1));
                if crate::value::has_key(was, now[k].0) {
                    crate::value::lemma_first_key_exists(was, now[k].0);
                    let kk = crate::value::key_index(was, now[k].0);
                    lemma_shaped_pairs(was, id.children, was.len(), kk);
                    lemma_retained_shaped(was[kk].1, id.children[2 * kk + 1], now[k].1);
                } else {
                    lemma_empty_shaped(now[k].1);
                }
            }
            lemma_pairs_from(now, cs, now.len());
        },
        (Model::List(was), Model::List(now)) => {
            let cs = retained_items(was, id, now, now.len());
            lemma_retained_items(was, id, now, now.len());
            assert forall|k: int| 0 <= k < now.len() implies #[trigger] shaped(now[k], cs[k]) by {
                assert(decreases_to!(after => now[k]));
                if k < was.len() {
                    lemma_shaped_items(was, id.children, was.len(), k);
                    lemma_retained_shaped(was[k], id.children[k], now[k]);
                } else {
                    lemma_empty_shaped(now[k]);
                }
            }
            lemma_items_from(now, cs, now.len());
        },
        _ => {
            if before != after {
                lemma_empty_shaped(after);
            }
        },
    }
}
} // verus!
