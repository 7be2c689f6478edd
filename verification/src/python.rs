//! Python's `str()` and `repr()` of ordinary values, and its equality.
use vstd::prelude::*;
use crate::text::{append, chars_of};
use crate::value::{Model, Value, entries, lemma_entries, lemma_models, models};

verus! {

broadcast use vstd::std_specs::vec::group_vec_axioms;

pub open spec fn hex_digit(n: u32) -> char {
    if n < 10 {
        ((n + 48) as u8) as char
    } else {
        ((n + 87) as u8) as char
    }
}

/// Characters that `repr` writes as a `\xNN` escape: the C0 and C1 controls,
/// delete, the no-break space and the soft hyphen.
pub open spec fn needs_hex(c: char) -> bool {
    let n = c as u32;
    n < 0x20 || (0x7f <= n && n <= 0xa0) || n == 0xad
}

pub open spec fn esc_char(c: char, q: char) -> Seq<char> {
    if c == '\\' {
        seq!['\\', '\\']
    } else if c == q {
        seq!['\\', q]
    } else if c == '\n' {
        seq!['\\', 'n']
    } else if c == '\r' {
        seq!['\\', 'r']
    } else if c == '\t' {
        seq!['\\', 't']
    } else if needs_hex(c) {
        seq!['\\', 'x', hex_digit((c as u32) / 16), hex_digit((c as u32) % 16)]
    } else {
        seq![c]
    }
}

pub open spec fn esc_all(s: Seq<char>, q: char) -> Seq<char>
    decreases s.len(),
{
    if s.len() == 0 {
        Seq::empty()
    } else {
        esc_all(s.drop_last(), q) + esc_char(s.last(), q)
    }
}

/// The quote `repr` chooses: a double quote only for text holding a single
/// quote and no double quote.
pub open spec fn quote_of(s: Seq<char>) -> char {
    if s.contains('\'') && !s.contains('"') {
        '"'
    } else {
        '\''
    }
}

pub open spec fn repr_text(s: Seq<char>) -> Seq<char> {
    seq![quote_of(s)] + esc_all(s, quote_of(s)) + seq![quote_of(s)]
}

/// Python's `str()` of a value.
pub open spec fn py_str(m: Model) -> Seq<char>
    decreases m, 1nat,
{
    match m {
        Model::Null => "None"@,
        Model::Bool(b) => if b {
            "True"@
        } else {
            "False"@
        },
        Model::Integer(t) => t,
        Model::NonFinite(n) => match n {
            crate::value::NonFinite::NaN => "nan"@,
            crate::value::NonFinite::Infinity => "inf"@,
            crate::value::NonFinite::NegInfinity => "-inf"@,
        },
        Model::Text(t) => t,
        Model::List(xs) => seq!['['] + py_items(xs) + seq![']'],
        Model::Mapping(es) => seq!['{'] + py_pairs(es) + seq!['}'],
    }
}

/// Python's `repr()` of a value.
pub open spec fn py_repr(m: Model) -> Seq<char>
    decreases m, 2nat,
{
    match m {
        Model::Text(t) => repr_text(t),
        _ => py_str(m),
    }
}

pub open spec fn py_items(xs: Seq<Model>) -> Seq<char>
    decreases xs, xs.len(),
{
    if xs.len() == 0 {
        Seq::empty()
    } else if xs.len() == 1 {
        py_repr(xs[0])
    } else {
        py_items(xs.drop_last()) + ", "@ + py_repr(xs.last())
    }
}

pub open spec fn py_pairs(es: Seq<(Seq<char>, Model)>) -> Seq<char>
    decreases es, es.len(),
{
    if es.len() == 0 {
        Seq::empty()
    } else {
        proof {
            assert(decreases_to!(es => es[es.len() - 1]));
            assert(decreases_to!(es[es.len() - 1] => es[es.len() - 1].1));
        }
        let one = repr_text(es.last().0) + ": "@ + py_repr(es.last().1);
        if es.len() == 1 {
            one
        } else {
            py_pairs(es.drop_last()) + ", "@ + one
        }
    }
}

proof fn lemma_contains_push(s: Seq<char>, x: char, c: char)
    ensures
        s.push(x).contains(c) == (s.contains(c) || x == c),
{
    if s.contains(c) {
        let i = choose|i: int| 0 <= i < s.len() && s[i] == c;
        assert(s.push(x)[i] == c);
    }
    if x == c {
        assert(s.push(x)[s.len() as int] == c);
    }
    if s.push(x).contains(c) {
        let i = choose|i: int| 0 <= i < s.push(x).len() && s.push(x)[i] == c;
        if i < s.len() {
            assert(s[i] == c);
        }
    }
}

fn hex(n: u32) -> (c: char)
    requires
        n < 16,
    ensures
        c == hex_digit(n),
{
    if n < 10 {
        ((n + 48) as u8) as char
    } else {
        ((n + 87) as u8) as char
    }
}

fn push_escaped(out: &mut Vec<char>, c: char, q: char)
    ensures
        final(out)@ == old(out)@ + esc_char(c, q),
{
    let n = c as u32;
    if c == '\\' {
        out.push('\\');
        out.push('\\');
    } else if c == q {
        out.push('\\');
        out.push(q);
    } else if c == '\n' {
        out.push('\\');
        out.push('n');
    } else if c == '\r' {
        out.push('\\');
        out.push('r');
    } else if c == '\t' {
        out.push('\\');
        out.push('t');
    } else if n < 0x20 || (0x7f <= n && n <= 0xa0) || n == 0xad {
        out.push('\\');
        out.push('x');
        out.push(hex(n / 16));
        out.push(hex(n % 16));
    } else {
        out.push(c);
    }
    assert(final(out)@ =~= old(out)@ + esc_char(c, q));
}

/// Appends the `repr` of a text.
pub fn push_repr_text(out: &mut Vec<char>, t: &[char])
    ensures
        final(out)@ == old(out)@ + repr_text(t@),
{
    let mut single = false;
    let mut double = false;
    let mut i: usize = 0;
    while i < t.len()
        invariant
            0 <= i <= t.len(),
            single == t@.take(i as int).contains('\''),
            double == t@.take(i as int).contains('"'),
        decreases t.len() - i,
    {
        proof {
            assert(t@.take(i + 1) =~= t@.take(i as int).push(t@[i as int]));
            lemma_contains_push(t@.take(i as int), t@[i as int], '\'');
            lemma_contains_push(t@.take(i as int), t@[i as int], '"');
        }
        if t[i] == '\'' {
            single = true;
        }
        if t[i] == '"' {
            double = true;
        }
        i = i + 1;
    }
    assert(t@.take(t.len() as int) =~= t@);
    let q = if single && !double {
        '"'
    } else {
        '\''
    };
    out.push(q);
    let ghost start = out@;
    let mut k: usize = 0;
    while k < t.len()
        invariant
            0 <= k <= t.len(),
            out@ == start + esc_all(t@.take(k as int), q),
        decreases t.len() - k,
    {
        push_escaped(out, t[k], q);
        proof {
            assert(t@.take(k + 1).drop_last() =~= t@.take(k as int));
        }
        k = k + 1;
    }
    out.push(q);
    assert(final(out)@ =~= old(out)@ + repr_text(t@));
}

fn push_str(out: &mut Vec<char>, t: &str)
    ensures
        final(out)@ == old(out)@ + t@,
{
    let cs = chars_of(t);
    append(out, &cs);
}

/// Appends Python's `str()` (or, with `quoted`, `repr()`) of a value.
pub fn push_py(out: &mut Vec<char>, v: &Value, quoted: bool)
    ensures
        final(out)@ == old(out)@ + (if quoted {
            py_repr(v@)
        } else {
            py_str(v@)
        }),
    decreases v,
{
    match v {
        Value::Null => push_str(out, "None"),
        Value::Bool(b) => if *b {
            push_str(out, "True")
        } else {
            push_str(out, "False")
        },
        Value::Integer(t) => push_str(out, t.as_str()),
        Value::NonFinite(n) => match n {
            crate::value::NonFinite::NaN => push_str(out, "nan"),
            crate::value::NonFinite::Infinity => push_str(out, "inf"),
            crate::value::NonFinite::NegInfinity => push_str(out, "-inf"),
        },
        Value::Text(t) => {
            if quoted {
                push_repr_text(out, &chars_of(t.as_str()));
            } else {
                push_str(out, t.as_str());
            }
        },
        Value::List(xs) => {
            out.push('[');
            let ghost start = out@;
            let mut i: usize = 0;
            while i < xs.len()
                invariant
                    0 <= i <= xs.len(),
                    *v == Value::List(*xs),
                    out@ == start + py_items(models(xs@.take(i as int))),
                decreases xs.len() - i,
            {
                proof {
                    assert(decreases_to!(*v => (*v)->List_0));
                    assert(decreases_to!((*v)->List_0 => xs@[i as int]));
                    assert(xs@.take(i + 1).drop_last() =~= xs@.take(i as int));
                    lemma_models(xs@.take(i + 1));
                    lemma_models(xs@.take(i as int));
                    assert(models(xs@.take(i + 1)).drop_last() =~= models(xs@.take(i as int)));
                }
                if i > 0 {
                    push_str(out, ", ");
                }
                push_py(out, &xs[i], true);
                i = i + 1;
            }
            assert(xs@.take(xs.len() as int) =~= xs@);
            out.push(']');
            assert(final(out)@ =~= old(out)@ + py_str(v@));
        },
        Value::Mapping(es) => {
            out.push('{');
            let ghost start = out@;
            let mut i: usize = 0;
            while i < es.len()
                invariant
                    0 <= i <= es.len(),
                    *v == Value::Mapping(*es),
                    out@ == start + py_pairs(entries(es@.take(i as int))),
                decreases es.len() - i,
            {
                proof {
                    assert(decreases_to!(*v => (*v)->Mapping_0));
                    assert(decreases_to!((*v)->Mapping_0 => es@[i as int]));
                    assert(decreases_to!(es@[i as int] => es@[i as int].1));
                    assert(es@.take(i + 1).drop_last() =~= es@.take(i as int));
                    lemma_entries(es@.take(i + 1));
                    lemma_entries(es@.take(i as int));
                    assert(entries(es@.take(i + 1)).drop_last() =~= entries(es@.take(i as int)));
                }
                if i > 0 {
                    push_str(out, ", ");
                }
                push_repr_text(out, &chars_of(es[i].0.as_str()));
                push_str(out, ": ");
                push_py(out, &es[i].1, true);
                i = i + 1;
            }
            assert(es@.take(es.len() as int) =~= es@);
            out.push('}');
            assert(final(out)@ =~= old(out)@ + py_str(v@));
        },
    }
}

/// Python's `str()` of a value, as the readers print one.
pub fn py(v: &Value) -> (r: Vec<char>)
    ensures
        r@ == py_str(v@),
{
    let mut out: Vec<char> = Vec::new();
    push_py(&mut out, v, false);
    assert(out@ =~= py_str(v@));
    out
}

} // verus!
