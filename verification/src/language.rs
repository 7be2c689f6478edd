//! The syntax a legacy expression is read in: an explicit `{expr: text}`
//! mapping, or a value every part of which has a typed reading. A
//! non-finite number has none, so it never widens what an expression may be.
use vstd::prelude::*;
use crate::fields::error;
use crate::value::{Error, Model, Value, copy, entries, lemma_entries, lemma_models, model, models};

verus! {

broadcast use vstd::std_specs::vec::group_vec_axioms;

/// Whether no part of a value is a non-finite number.
pub open spec fn finite(m: Model) -> bool
    decreases m, 0nat,
{
    match m {
        Model::NonFinite(_) => false,
        Model::Mapping(es) => finite_entries(es),
        Model::List(xs) => finite_items(xs),
        _ => true,
    }
}

pub open spec fn finite_entries(es: Seq<(Seq<char>, Model)>) -> bool
    decreases es, es.len(),
{
    if es.len() == 0 {
        true
    } else {
        proof {
            assert(decreases_to!(es => es[es.len() - 1]));
            assert(decreases_to!(es[es.len() - 1] => es[es.len() - 1].1));
        }
        finite_entries(es.drop_last()) && finite(es.last().1)
    }
}

pub open spec fn finite_items(xs: Seq<Model>) -> bool
    decreases xs, xs.len(),
{
    if xs.len() == 0 {
        true
    } else {
        proof {
            assert(decreases_to!(xs => xs[xs.len() - 1]));
        }
        finite_items(xs.drop_last()) && finite(xs.last())
    }
}

/// Whether a value has a typed reading: no part of it is non-finite.
pub fn is_finite(value: &Value) -> (r: bool)
    ensures
        r == finite(value@),
    decreases value,
{
    match value {
        Value::NonFinite(_) => false,
        Value::Mapping(fields) => {
            proof {
                lemma_entries(fields@);
            }
            let ghost es = entries(fields@);
            let mut i: usize = 0;
            while i < fields.len()
                invariant
                    0 <= i <= fields.len(),
                    *value == Value::Mapping(*fields),
                    es == entries(fields@),
                    es.len() == fields@.len(),
                    forall|q: int| 0 <= q < fields@.len() ==> #[trigger] es[q] == (fields@[q].0@, model(fields@[q].1)),
                    finite_entries(es.take(i as int)),
                decreases fields.len() - i,
            {
                proof {
                    assert(decreases_to!(*value => (*value)->Mapping_0));
                    assert(decreases_to!((*value)->Mapping_0 => fields@[i as int]));
                    assert(decreases_to!(fields@[i as int] => fields@[i as int].1));
                }
                let ok = is_finite(&fields[i].1);
                proof {
                    let q = i as int;
                    assert(es[q] == (fields@[q].0@, model(fields@[q].1)));
                    assert(es.take(q + 1).drop_last() =~= es.take(q));
                    assert(es.take(q + 1).last() == es[q]);
                }
                if !ok {
                    proof {
                        lemma_finite_prefix(es, i as int + 1);
                    }
                    return false;
                }
                i = i + 1;
            }
            proof {
                assert(es.take(i as int) =~= es);
            }
            true
        },
        Value::List(xs) => {
            proof {
                lemma_models(xs@);
            }
            let ghost ms = models(xs@);
            let mut i: usize = 0;
            while i < xs.len()
                invariant
                    0 <= i <= xs.len(),
                    *value == Value::List(*xs),
                    ms == models(xs@),
                    ms.len() == xs@.len(),
                    forall|q: int| 0 <= q < xs@.len() ==> #[trigger] ms[q] == model(xs@[q]),
                    finite_items(ms.take(i as int)),
                decreases xs.len() - i,
            {
                proof {
                    assert(decreases_to!(*value => (*value)->List_0));
                    assert(decreases_to!((*value)->List_0 => xs@[i as int]));
                }
                let ok = is_finite(&xs[i]);
                proof {
                    let q = i as int;
                    assert(ms.take(q + 1).drop_last() =~= ms.take(q));
                    assert(ms.take(q + 1).last() == ms[q]);
                }
                if !ok {
                    proof {
                        lemma_finite_items_prefix(ms, i as int + 1);
                    }
                    return false;
                }
                i = i + 1;
            }
            proof {
                assert(ms.take(i as int) =~= ms);
            }
            true
        },
        _ => true,
    }
}

/// A non-finite part among the first entries is one of all of them.
proof fn lemma_finite_prefix(es: Seq<(Seq<char>, Model)>, n: int)
    requires
        0 <= n <= es.len(),
        !finite_entries(es.take(n)),
    ensures
        !finite_entries(es),
    decreases es.len() - n,
{
    if n < es.len() {
        assert(es.take(n + 1).drop_last() =~= es.take(n));
        lemma_finite_prefix(es, n + 1);
    } else {
        assert(es.take(n) =~= es);
    }
}

proof fn lemma_finite_items_prefix(xs: Seq<Model>, n: int)
    requires
        0 <= n <= xs.len(),
        !finite_items(xs.take(n)),
    ensures
        !finite_items(xs),
    decreases xs.len() - n,
{
    if n < xs.len() {
        assert(xs.take(n + 1).drop_last() =~= xs.take(n));
        lemma_finite_items_prefix(xs, n + 1);
    } else {
        assert(xs.take(n) =~= xs);
    }
}

/// The syntax a legacy expression is read in: `{expr: text}` as it stands,
/// and any other value by its typed reading, which a value with a
/// non-finite part lacks; such a value is refused as an invalid legacy
/// expression.
pub fn legacy_syntax(value: &Value) -> (r: Result<Value, Error>)
    ensures
        match r {
            Ok(v) => finite(value@) && v@ == value@,
            Err(e) => !finite(value@) && e.0@ == "invalid_legacy_expression"@,
        },
{
    if let Value::Mapping(m) = value {
        if m.len() == 1 && crate::value::text_is(&m[0].0, "expr") {
            if let Value::Text(_) = &m[0].1 {
                proof {
                    lemma_entries(m@);
                    let es = entries(m@);
                    assert(es.drop_last() =~= Seq::<(Seq<char>, Model)>::empty());
                    assert(finite_entries(es.drop_last()));
                    assert(es.last().1 == model(m@[0].1));
                    assert(finite(es.last().1));
                    assert(finite_entries(es));
                }
                return Ok(copy(value));
            }
        }
    }
    if is_finite(value) {
        Ok(copy(value))
    } else {
        Err(error("invalid_legacy_expression"))
    }
}

} // verus!
