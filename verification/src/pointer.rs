//! Field selectors into a session's values: JSON pointers such as
//! `/nodes/p.a/body`, read one part at a time.
use vstd::prelude::*;
use crate::text::{chars_of, split, split_on, string_of};
use crate::value::{Error, Model, Value, entries, get, lookup, lemma_models, models};

verus! {

broadcast use vstd::std_specs::vec::group_vec_axioms;

/// `s` with every `a b` (left to right, not overlapping) written as `c`.
pub open spec fn replace_pair(s: Seq<char>, a: char, b: char, c: char) -> Seq<char>
    decreases s.len(),
{
    if s.len() < 2 {
        s
    } else if s[0] == a && s[1] == b {
        seq![c] + replace_pair(s.skip(2), a, b, c)
    } else {
        seq![s[0]] + replace_pair(s.skip(1), a, b, c)
    }
}

/// A pointer part as a key: `~1` read as `/`, then `~0` as `~`.
pub open spec fn unescape(part: Seq<char>) -> Seq<char> {
    replace_pair(replace_pair(part, '~', '1', '/'), '~', '0', '~')
}

pub open spec fn is_digit(c: char) -> bool {
    '0' <= c <= '9'
}

/// The number decimal digits write.
pub open spec fn digits_value(s: Seq<char>) -> nat
    decreases s.len(),
{
    if s.len() == 0 {
        0
    } else {
        10 * digits_value(s.drop_last()) + (s.last() as nat - '0' as nat) as nat
    }
}

/// The digits of an index: the key without a leading `+`.
pub open spec fn index_digits(key: Seq<char>) -> Seq<char> {
    if key.len() > 0 && key[0] == '+' {
        key.skip(1)
    } else {
        key
    }
}

/// `str::parse::<usize>` read as a number: an optional `+`, then one or
/// more decimal digits.
pub open spec fn index_of(key: Seq<char>) -> Option<nat> {
    let ds = index_digits(key);
    if ds.len() > 0 && forall|i: int| 0 <= i < ds.len() ==> is_digit(#[trigger] ds[i]) {
        Some(digits_value(ds))
    } else {
        None
    }
}

/// One step of a pointer: a mapping's value under the key, or a list's item
/// at the index.
pub open spec fn step(v: Model, key: Seq<char>) -> Option<Model> {
    match v {
        Model::Mapping(es) => lookup(es, key),
        Model::List(xs) => match index_of(key) {
            Some(i) => if i < xs.len() {
                Some(xs[i as int])
            } else {
                None
            },
            None => None,
        },
        _ => None,
    }
}

/// The value the parts lead to from `v`, one after the other.
pub open spec fn walk(v: Model, parts: Seq<Seq<char>>) -> Option<Model>
    decreases parts.len(),
{
    if parts.len() == 0 {
        Some(v)
    } else {
        match step(v, unescape(parts[0])) {
            Some(w) => walk(w, parts.skip(1)),
            None => None,
        }
    }
}

/// What the selector `path` reads of `v`.
pub open spec fn pointer_spec(v: Model, path: Seq<char>) -> Result<Model, Seq<char>> {
    if !(path.len() > 0 && path[0] == '/') {
        Err("field selector must be a JSON pointer"@)
    } else {
        match walk(v, split(path.skip(1), '/')) {
            Some(w) => Ok(w),
            None => Err("unknown field"@),
        }
    }
}

fn replaced_pair(s: &Vec<char>, a: char, b: char, c: char) -> (r: Vec<char>)
    ensures
        r@ == replace_pair(s@, a, b, c),
{
    let mut out: Vec<char> = Vec::new();
    let mut i: usize = 0;
    assert(s@.skip(0) =~= s@);
    assert(out@ + replace_pair(s@, a, b, c) =~= replace_pair(s@, a, b, c));
    while i < s.len()
        invariant
            0 <= i <= s.len(),
            replace_pair(s@, a, b, c) == out@ + replace_pair(s@.skip(i as int), a, b, c),
        decreases s.len() - i,
    {
        let ghost rest = s@.skip(i as int);
        if i + 1 < s.len() && s[i] == a && s[i + 1] == b {
            assert(rest[0] == a && rest[1] == b);
            assert(rest.skip(2) =~= s@.skip(i + 2));
            out.push(c);
            assert(replace_pair(s@, a, b, c) == out@ + replace_pair(s@.skip(i + 2), a, b, c)) by {
                assert(replace_pair(rest, a, b, c) == seq![c] + replace_pair(rest.skip(2), a, b, c));
                assert(out@ =~= out@.drop_last() + seq![c]);
            }
            i = i + 2;
        } else {
            assert(rest.skip(1) =~= s@.skip(i + 1));
            out.push(s[i]);
            assert(replace_pair(s@, a, b, c) == out@ + replace_pair(s@.skip(i + 1), a, b, c)) by {
                if rest.len() >= 2 {
                    assert(replace_pair(rest, a, b, c) == seq![rest[0]] + replace_pair(rest.skip(1), a, b, c));
                } else {
                    assert(rest.len() == 1);
                    assert(rest.skip(1) =~= Seq::<char>::empty());
                    assert(rest =~= seq![rest[0]]);
                }
                assert(out@ =~= out@.drop_last() + seq![rest[0]]);
            }
            i = i + 1;
        }
    }
    assert(s@.skip(s.len() as int) =~= Seq::<char>::empty());
    assert(out@ + Seq::<char>::empty() =~= out@);
    out
}

proof fn lemma_digits_grow(s: Seq<char>, n: int)
    requires
        0 <= n <= s.len(),
    ensures
        digits_value(s.take(n)) <= digits_value(s),
    decreases s.len() - n,
{
    if n < s.len() {
        lemma_digits_grow(s, n + 1);
        assert(s.take(n + 1).drop_last() =~= s.take(n));
    } else {
        assert(s.take(n) =~= s);
    }
}

/// The item of `xs` that `key` indexes, where it is an index below the
/// list's length.
fn indexed<'a>(xs: &'a Vec<Value>, key: &Vec<char>) -> (r: Option<&'a Value>)
    ensures
        match r {
            Some(v) => index_of(key@) is Some && index_of(key@)->Some_0 < xs@.len() && v@ == models(xs@)[index_of(key@)->Some_0 as int],
            None => !(index_of(key@) is Some && index_of(key@)->Some_0 < xs@.len()),
        },
{
    proof {
        lemma_models(xs@);
    }
    let start: usize = if key.len() > 0 && key[0] == '+' {
        1
    } else {
        0
    };
    let ghost ds = key@.skip(start as int);
    assert(ds =~= index_digits(key@));
    if start >= key.len() || xs.len() == 0 {
        return None;
    }
    assert(ds.take(0) =~= Seq::<char>::empty());
    let len = xs.len() as u128;
    let mut acc: u128 = 0;
    let mut big = false;
    let mut i: usize = start;
    while i < key.len()
        invariant
            start <= i <= key.len(),
            start < key.len(),
            ds == key@.skip(start as int),
            ds == index_digits(key@),
            len == xs@.len(),
            len <= usize::MAX,
            forall|q: int| 0 <= q < i - start ==> is_digit(#[trigger] ds[q]),
            !big ==> acc == digits_value(ds.take(i - start)) && acc < len,
            big ==> digits_value(ds.take(i - start)) >= len,
        decreases key.len() - i,
    {
        let ch = key[i];
        if !('0' <= ch && ch <= '9') {
            assert(!is_digit(index_digits(key@)[i - start]));
            return None;
        }
        assert(ds.take(i - start + 1).drop_last() =~= ds.take(i - start));
        assert(ds.take(i - start + 1).last() == ch);
        let d = (ch as u32 - '0' as u32) as u128;
        if !big {
            let next = acc * 10 + d;
            if next >= len {
                big = true;
            } else {
                acc = next;
            }
        }
        i = i + 1;
    }
    assert(ds.take(ds.len() as int) =~= ds);
    if big {
        return None;
    }
    assert(index_of(key@) == Some(digits_value(ds)));
    Some(&xs[acc as usize])
}

fn step_exec<'a>(cur: &'a Value, key: &Vec<char>) -> (r: Option<&'a Value>)
    ensures
        match r {
            Some(w) => step(cur@, key@) == Some(w@),
            None => step(cur@, key@) is None,
        },
{
    match cur {
        Value::Mapping(es) => {
            assert(cur@ == Model::Mapping(entries(es@)));
            let k = string_of(key);
            assert(k@ == key@);
            let ks = k.as_str();
            assert(ks@ == key@);
            get(es, ks)
        },
        Value::List(xs) => {
            assert(cur@ == Model::List(models(xs@)));
            proof {
                lemma_models(xs@);
            }
            indexed(xs, key)
        },
        _ => {
            assert(!(cur@ is Mapping) && !(cur@ is List));
            None
        },
    }
}

/// Reads the field the selector `path` names in `value`: each part after
/// the leading `/` is a mapping's key (with `~1` read as `/` and `~0` as
/// `~`) or a list's index.
pub fn pointer<'a>(value: &'a Value, path: &str) -> (r: Result<&'a Value, Error>)
    ensures
        match r {
            Ok(v) => pointer_spec(value@, path@) == Ok::<Model, Seq<char>>(v@),
            Err(e) => pointer_spec(value@, path@) == Err::<Model, Seq<char>>(e.0@),
        },
{
    let cs = chars_of(path);
    if !(cs.len() > 0 && cs[0] == '/') {
        return Err(Error(string_of(&chars_of("field selector must be a JSON pointer"))));
    }
    let mut tail: Vec<char> = Vec::new();
    let mut k: usize = 1;
    while k < cs.len()
        invariant
            1 <= k <= cs.len(),
            tail@ == cs@.subrange(1, k as int),
        decreases cs.len() - k,
    {
        tail.push(cs[k]);
        k = k + 1;
    }
    assert(tail@ =~= path@.skip(1));
    let parts = split_on(&tail, '/');
    let ghost ps = split(path@.skip(1), '/');
    let mut cur: &Value = value;
    let mut i: usize = 0;
    assert(ps.skip(0) =~= ps);
    while i < parts.len()
        invariant
            0 <= i <= parts.len(),
            parts@.len() == ps.len(),
            ps == split(path@.skip(1), '/'),
            path@.len() > 0 && path@[0] == '/',
            forall|q: int| 0 <= q < parts@.len() ==> #[trigger] parts@[q]@ == ps[q],
            walk(value@, ps) == walk(cur@, ps.skip(i as int)),
        decreases parts.len() - i,
    {
        let key = replaced_pair(&replaced_pair(&parts[i], '~', '1', '/'), '~', '0', '~');
        assert(ps.skip(i as int)[0] == ps[i as int]);
        assert(ps.skip(i as int).skip(1) =~= ps.skip(i + 1));
            assert(key@ == unescape(ps[i as int]));
        match step_exec(cur, &key) {
            Some(w) => {
                cur = w;
            },
            None => {
                return Err(Error(string_of(&chars_of("unknown field"))));
            },
        }
        i = i + 1;
    }
    assert(ps.skip(parts.len() as int) =~= Seq::<Seq<char>>::empty());
    Ok(cur)
}

} // verus!
