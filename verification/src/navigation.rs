//! The routes a session's navigation gives a node: from the root `/`, one
//! step per part of its topic path, each part percent-encoded.
use vstd::prelude::*;
use crate::page::{decimal, decimal_succ, hex_digit_upper, hex_upper, lemma_utf8_all_push, strings, utf8, utf8_all, utf8_of};
use crate::text::{chars_of, spec_is_ascii_alphanumeric, string_of};
use crate::value::{Error, Model, Value, lemma_models, models};

verus! {

broadcast use vstd::std_specs::vec::group_vec_axioms;

/// A byte a route keeps as it is: an ASCII letter or digit, or one of
/// `-._~`.
pub open spec fn route_safe(b: u8) -> bool {
    (b < 128 && spec_is_ascii_alphanumeric(b as char)) || b == 45 || b == 46 || b == 95 || b == 126
}

pub open spec fn route_byte(b: u8) -> Seq<char> {
    if route_safe(b) {
        seq![b as char]
    } else {
        seq!['%', hex_upper(b / 16), hex_upper(b % 16)]
    }
}

pub open spec fn route_bytes(bs: Seq<u8>) -> Seq<char>
    decreases bs.len(),
{
    if bs.len() == 0 {
        Seq::empty()
    } else {
        route_bytes(bs.drop_last()) + route_byte(bs.last())
    }
}

/// A topic part as a route step: its UTF-8 bytes, percent-encoded.
pub open spec fn route_part(p: Seq<char>) -> Seq<char> {
    route_bytes(utf8_all(p))
}

/// A path without its trailing slashes.
pub open spec fn trim_slashes(p: Seq<char>) -> Seq<char>
    decreases p.len(),
{
    if p.len() > 0 && p.last() == '/' {
        trim_slashes(p.drop_last())
    } else {
        p
    }
}

/// The routes through the topic path `parts`: the root, then one per part,
/// each the one before with the encoded part after a slash; refused where
/// a part is not a non-empty text.
pub open spec fn routes_from(parts: Seq<Model>) -> Result<Seq<Seq<char>>, Seq<char>>
    decreases parts.len(),
{
    if parts.len() == 0 {
        Ok(seq!["/"@])
    } else {
        match routes_from(parts.drop_last()) {
            Err(e) => Err(e),
            Ok(rs) => match parts.last() {
                Model::Text(t) => if t.len() > 0 {
                    Ok(rs.push(trim_slashes(rs.last()) + seq!['/'] + route_part(t)))
                } else {
                    Err("invalid topic path"@)
                },
                _ => Err("invalid topic path"@),
            },
        }
    }
}

/// The routes of a node whose topic path is `topic` (a list of parts).
pub open spec fn routes_spec(topic: Model) -> Result<Seq<Seq<char>>, Seq<char>> {
    match topic {
        Model::List(ps) => routes_from(ps),
        _ => Err("invalid topic path"@),
    }
}

proof fn lemma_route_bytes_append(a: Seq<u8>, b: Seq<u8>)
    ensures
        route_bytes(a + b) == route_bytes(a) + route_bytes(b),
    decreases b.len(),
{
    if b.len() == 0 {
        assert(a + b =~= a);
    } else {
        lemma_route_bytes_append(a, b.drop_last());
        assert((a + b).drop_last() =~= a + b.drop_last());
        assert((a + b).last() == b.last());
    }
}

fn is_route_safe(b: u8) -> (r: bool)
    ensures
        r == route_safe(b),
{
    (b < 128 && crate::text::is_ascii_alphanumeric(b as char)) || b == 45 || b == 46 || b == 95 || b == 126
}

/// A topic part percent-encoded as a route step.
pub fn route_step(part: &str) -> (r: Vec<char>)
    ensures
        r@ == route_part(part@),
{
    let cs = chars_of(part);
    let mut out: Vec<char> = Vec::new();
    let mut i: usize = 0;
    while i < cs.len()
        invariant
            0 <= i <= cs.len(),
            cs@ == part@,
            out@ == route_bytes(utf8_all(cs@.take(i as int))),
        decreases cs.len() - i,
    {
        let bytes = utf8_of(cs[i]);
        let ghost before = out@;
        let mut k: usize = 0;
        while k < bytes.len()
            invariant
                0 <= k <= bytes.len(),
                out@ == before + route_bytes(bytes@.take(k as int)),
            decreases bytes.len() - k,
        {
            let b = bytes[k];
            proof {
                assert(bytes@.take(k + 1).drop_last() =~= bytes@.take(k as int));
            }
            if is_route_safe(b) {
                out.push(b as char);
            } else {
                out.push('%');
                out.push(hex_digit_upper(b / 16));
                out.push(hex_digit_upper(b % 16));
            }
            k = k + 1;
        }
        proof {
            assert(bytes@.take(bytes.len() as int) =~= bytes@);
            assert(cs@.take(i + 1) =~= cs@.take(i as int).push(cs@[i as int]));
            lemma_utf8_all_push(cs@.take(i as int), cs@[i as int]);
            lemma_route_bytes_append(utf8_all(cs@.take(i as int)), utf8(cs@[i as int]));
        }
        i = i + 1;
    }
    proof {
        assert(cs@.take(cs.len() as int) =~= cs@);
    }
    out
}

fn trimmed_slashes(p: &Vec<char>) -> (r: Vec<char>)
    ensures
        r@ == trim_slashes(p@),
{
    let mut n = p.len();
    assert(p@.take(n as int) =~= p@);
    while n > 0 && p[n - 1] == '/'
        invariant
            n <= p.len(),
            trim_slashes(p@) == trim_slashes(p@.take(n as int)),
        decreases n,
    {
        assert(p@.take(n as int).drop_last() =~= p@.take(n - 1));
        n = n - 1;
    }
    let mut out: Vec<char> = Vec::new();
    let mut j: usize = 0;
    while j < n
        invariant
            j <= n <= p.len(),
            out@ == p@.take(j as int),
        decreases n - j,
    {
        out.push(p[j]);
        assert(p@.take(j + 1) =~= p@.take(j as int).push(p@[j as int]));
        j = j + 1;
    }
    out
}

/// The routes of a node whose topic path is `topic`: the root `/`, then one
/// route per part, or `invalid topic path` where the topic is not a list
/// of non-empty texts. The last route is the node's leaf.
pub fn topic_routes(topic: &Value) -> (r: Result<Vec<String>, Error>)
    ensures
        match r {
            Ok(rs) => routes_spec(topic@) == Ok::<Seq<Seq<char>>, Seq<char>>(strings(rs@)),
            Err(e) => routes_spec(topic@) == Err::<Seq<Seq<char>>, Seq<char>>(e.0@),
        },
{
    let parts = match topic {
        Value::List(ps) => ps,
        _ => return Err(Error(string_of(&chars_of("invalid topic path")))),
    };
    let ghost ms = models(parts@);
    proof {
        lemma_models(parts@);
    }
    assert(topic@ == Model::List(ms));
    let mut out: Vec<String> = Vec::new();
    out.push(string_of(&chars_of("/")));
    assert(ms.take(0) =~= Seq::<Model>::empty());
    assert(strings(out@) =~= seq!["/"@]);
    let mut last = chars_of("/");
    let mut i: usize = 0;
    while i < parts.len()
        invariant
            0 <= i <= parts.len(),
            ms == models(parts@),
            ms.len() == parts@.len(),
            forall|q: int| 0 <= q < parts@.len() ==> #[trigger] ms[q] == crate::value::model(parts@[q]),
            routes_from(ms.take(i as int)) == Ok::<Seq<Seq<char>>, Seq<char>>(strings(out@)),
            topic@ == Model::List(ms),
            strings(out@).len() > 0,
            last@ == strings(out@).last(),
        decreases parts.len() - i,
    {
        assert(ms.take(i + 1).drop_last() =~= ms.take(i as int));
        assert(ms.take(i + 1).last() == ms[i as int]);
        let t = match &parts[i] {
            Value::Text(t) => t,
            _ => {
                proof {
                    lemma_routes_err(ms, (i + 1) as int);
                }
                return Err(Error(string_of(&chars_of("invalid topic path"))));
            },
        };
        assert(ms[i as int] == Model::Text(t@));
        if chars_of(t.as_str()).len() == 0 {
            proof {
                lemma_routes_err(ms, (i + 1) as int);
            }
            return Err(Error(string_of(&chars_of("invalid topic path"))));
        }
        let mut next = trimmed_slashes(&last);
        let ghost trimmed = next@;
        next.push('/');
        let step = route_step(t.as_str());
        crate::text::append(&mut next, &step);
        assert(next@ =~= trimmed + seq!['/'] + route_part(t@));
        assert(t@.len() > 0);
        assert(routes_from(ms.take(i + 1)) == Ok::<Seq<Seq<char>>, Seq<char>>(strings(out@).push(next@)));
        let ghost before = out@;
        out.push(string_of(&next));
        assert(strings(out@) =~= strings(before).push(next@));
        last = next;
        i = i + 1;
    }
    assert(ms.take(parts.len() as int) =~= ms);
    Ok(out)
}

/// Once the routes of a prefix of the parts are refused, so are the
/// routes of all of them.
proof fn lemma_routes_err(ms: Seq<Model>, n: int)
    requires
        0 <= n <= ms.len(),
        routes_from(ms.take(n)) is Err,
    ensures
        routes_from(ms) == routes_from(ms.take(n)),
    decreases ms.len() - n,
{
    if n < ms.len() {
        assert(ms.take(n + 1).drop_last() =~= ms.take(n));
        lemma_routes_err(ms, n + 1);
    } else {
        assert(ms.take(n) =~= ms);
    }
}

/// How many entries a bucket holds when a route has `n` successors: at
/// least 16, and enough that sixteen buckets hold them all.
pub open spec fn bucket_width(n: nat) -> nat {
    let w = (n + 15) / 16;
    if w > 16 {
        w
    } else {
        16
    }
}

/// A route's successors split into buckets where there are more than 64:
/// each bucket named after the route, `@ids` and its number from 1, holding
/// the next `bucket_width` successors in order.
pub open spec fn buckets_spec(path: Seq<char>, entries: Seq<Seq<char>>) -> Seq<(Seq<char>, Seq<Seq<char>>)> {
    let n = entries.len();
    if n <= 64 {
        Seq::empty()
    } else {
        let w = bucket_width(n);
        Seq::new(
            (((n + w - 1) as nat) / w) as nat,
            |k: int|
                (
                    trim_slashes(path) + "/@ids"@ + decimal((k + 1) as nat),
                    entries.subrange(k * w, if (k + 1) * w < n {
                        (k + 1) * w
                    } else {
                        n as int
                    }),
                ),
        )
    }
}

/// The buckets a route's successors (`entries`, groups then nodes, in
/// order) are split into, where there are more than 64 of them.
pub fn buckets(path: &str, entries: &Vec<String>) -> (r: Vec<(String, Vec<String>)>)
    requires
        entries.len() < usize::MAX / 2,
    ensures
        crate::projection::record_view(r@) == buckets_spec(path@, strings(entries@)),
{
    let n = entries.len();
    let mut out: Vec<(String, Vec<String>)> = Vec::new();
    if n <= 64 {
        assert(crate::projection::record_view(out@) =~= Seq::<(Seq<char>, Seq<Seq<char>>)>::empty());
        return out;
    }
    let w0 = (n + 15) / 16;
    let w = if w0 > 16 {
        w0
    } else {
        16
    };
    assert(w <= n) by (nonlinear_arith)
        requires
            n > 64,
            w == (if (n + 15) / 16 > 16 {
                (n + 15) / 16
            } else {
                16
            }),
    ;
    let count = (n + w - 1) / w;
    let ghost es = strings(entries@);
    let base = trimmed_slashes(&chars_of(path));
    let mut k: usize = 0;
    let mut start: usize = 0;
    while k < count
        invariant
            k <= count,
            n == entries.len(),
            n > 64,
            n < usize::MAX / 2,
            w <= n,
            w == bucket_width(n as nat),
            w >= 16,
            count as int == (n + w - 1) as int / (w as int),
            start == k * w,
            es == strings(entries@),
            base@ == trim_slashes(path@),
            out@.len() == k,
            forall|q: int| 0 <= q < k ==> #[trigger] crate::projection::record_view(out@)[q] == buckets_spec(path@, es)[q],
        decreases count - k,
    {
        assert(start < n) by (nonlinear_arith)
            requires
                k < count,
                count as int == (n + w - 1) as int / (w as int),
                start == k * w,
                w >= 16,
        ;
        let end = if start + w < n {
            start + w
        } else {
            n
        };
        let mut members: Vec<String> = Vec::new();
        let mut j = start;
        while j < end
            invariant
                start <= j <= end <= n,
                n == entries.len(),
                members@.len() == j - start,
                forall|q: int| 0 <= q < j - start ==> #[trigger] members@[q]@ == entries@[start + q]@,
            decreases end - j,
        {
            members.push(string_of(&chars_of(entries[j].as_str())));
            j = j + 1;
        }
        let mut name = base.clone();
        crate::text::append(&mut name, &chars_of("/@ids"));
        crate::text::append(&mut name, &decimal_succ(k));
        let ghost before = out@;
        out.push((string_of(&name), members));
        proof {
            assert((k + 1) * w == k * w + w) by (nonlinear_arith);
            assert(strings(members@) =~= es.subrange(start as int, end as int));
            assert(crate::projection::record_view(out@)[k as int] == buckets_spec(path@, es)[k as int]);
            assert forall|q: int| 0 <= q < k + 1 implies #[trigger] crate::projection::record_view(out@)[q] == buckets_spec(path@, es)[q] by {
                if q < k {
                    assert(out@[q] == before[q]);
                    assert(crate::projection::record_view(out@)[q] == crate::projection::record_view(before)[q]);
                }
            }
        }
        start = start + w;
        k = k + 1;
    }
    assert(crate::projection::record_view(out@) =~= buckets_spec(path@, es));
    out
}

/// Each node's leaf route, in the topics' order: the last of its routes;
/// the first node whose topic path is refused refuses them all.
pub open spec fn leaves_spec(topics: Seq<(Seq<char>, Model)>) -> Result<Seq<(Seq<char>, Seq<char>)>, Seq<char>>
    decreases topics.len(),
{
    if topics.len() == 0 {
        Ok(Seq::empty())
    } else {
        match leaves_spec(topics.drop_last()) {
            Err(e) => Err(e),
            Ok(ls) => match routes_spec(topics.last().1) {
                Err(e) => Err(e),
                Ok(rs) => Ok(ls.push((topics.last().0, rs.last()))),
            },
        }
    }
}

pub open spec fn pair_views(ps: Seq<(String, String)>) -> Seq<(Seq<char>, Seq<char>)> {
    ps.map_values(|p: (String, String)| (p.0@, p.1@))
}

/// The leaf route of each node of `topics` (each node id with its topic
/// path), in order.
pub fn leaf_routes(topics: &Vec<(String, Value)>) -> (r: Result<Vec<(String, String)>, Error>)
    ensures
        match r {
            Ok(ls) => leaves_spec(crate::value::entries(topics@)) == Ok::<Seq<(Seq<char>, Seq<char>)>, Seq<char>>(pair_views(ls@)),
            Err(e) => leaves_spec(crate::value::entries(topics@)) == Err::<Seq<(Seq<char>, Seq<char>)>, Seq<char>>(e.0@),
        },
{
    let ghost ts = crate::value::entries(topics@);
    proof {
        crate::value::lemma_entries(topics@);
    }
    let mut out: Vec<(String, String)> = Vec::new();
    let mut i: usize = 0;
    assert(ts.take(0) =~= Seq::<(Seq<char>, Model)>::empty());
    assert(pair_views(out@) =~= Seq::<(Seq<char>, Seq<char>)>::empty());
    while i < topics.len()
        invariant
            0 <= i <= topics.len(),
            ts == crate::value::entries(topics@),
            ts.len() == topics@.len(),
            forall|q: int| 0 <= q < topics@.len() ==> #[trigger] ts[q] == (topics@[q].0@, crate::value::model(topics@[q].1)),
            leaves_spec(ts.take(i as int)) == Ok::<Seq<(Seq<char>, Seq<char>)>, Seq<char>>(pair_views(out@)),
        decreases topics.len() - i,
    {
        assert(ts.take(i + 1).drop_last() =~= ts.take(i as int));
        assert(ts.take(i + 1).last() == ts[i as int]);
        match topic_routes(&topics[i].1) {
            Err(e) => {
                proof {
                    lemma_leaves_err(ts, (i + 1) as int);
                }
                return Err(e);
            },
            Ok(rs) => {
                let last = string_of(&chars_of(rs[rs.len() - 1].as_str()));
                let ghost before = out@;
                out.push((string_of(&chars_of(topics[i].0.as_str())), last));
                assert(pair_views(out@) =~= pair_views(before).push((ts[i as int].0, strings(rs@).last())));
            },
        }
        i = i + 1;
    }
    assert(ts.take(topics.len() as int) =~= ts);
    Ok(out)
}

proof fn lemma_leaves_err(ts: Seq<(Seq<char>, Model)>, n: int)
    requires
        0 <= n <= ts.len(),
        leaves_spec(ts.take(n)) is Err,
    ensures
        leaves_spec(ts) == leaves_spec(ts.take(n)),
    decreases ts.len() - n,
{
    if n < ts.len() {
        assert(ts.take(n + 1).drop_last() =~= ts.take(n));
        lemma_leaves_err(ts, n + 1);
    } else {
        assert(ts.take(n) =~= ts);
    }
}

} // verus!
