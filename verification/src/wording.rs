//! How reports word values: the words of a text, a value's text cut to a
//! width, quoted for a shell, or read as a list of ids.
use vstd::prelude::*;
use crate::python::{py, py_str};
use crate::text::{chars_of, join, join_with, spec_is_separator, spec_is_whitespace, string_of, char_views};
use crate::value::{Model, Value, truth, truthy};

verus! {

broadcast use vstd::std_specs::vec::group_vec_axioms;

/// What separates words: whitespace (`Spaces`), also the information
/// separators (`Separators`), or those and commas (`Ids`).
#[derive(Clone, Copy, PartialEq, Eq, Structural)]
pub enum Breaks {
    Spaces,
    Separators,
    Ids,
}

pub open spec fn breaks(c: char, mode: Breaks) -> bool {
    match mode {
        Breaks::Spaces => spec_is_whitespace(c),
        Breaks::Separators => spec_is_separator(c),
        Breaks::Ids => c == ',' || spec_is_separator(c),
    }
}

fn is_break(c: char, mode: Breaks) -> (r: bool)
    ensures
        r == breaks(c, mode),
{
    match mode {
        Breaks::Spaces => crate::text::is_whitespace(c),
        Breaks::Separators => crate::text::is_separator(c),
        Breaks::Ids => c == ',' || crate::text::is_separator(c),
    }
}

/// The words of a text: its longest runs of characters that do not break.
pub open spec fn words(s: Seq<char>, mode: Breaks) -> Seq<Seq<char>>
    decreases s.len(),
{
    if s.len() == 0 {
        Seq::empty()
    } else {
        let p = words(s.drop_last(), mode);
        let c = s.last();
        if breaks(c, mode) {
            p
        } else if s.len() >= 2 && !breaks(s[s.len() - 2], mode) {
            p.update(p.len() - 1, p.last().push(c))
        } else {
            p.push(seq![c])
        }
    }
}

proof fn lemma_words_nonempty(s: Seq<char>, mode: Breaks)
    requires
        s.len() > 0,
        !breaks(s.last(), mode),
    ensures
        words(s, mode).len() > 0,
    decreases s.len(),
{
    if s.len() >= 2 && !breaks(s[s.len() - 2], mode) {
        assert(s.drop_last().last() == s[s.len() - 2]);
        lemma_words_nonempty(s.drop_last(), mode);
    }
}

/// Every word is non-empty and holds no break.
pub open spec fn plain_words(ws: Seq<Seq<char>>, mode: Breaks) -> bool {
    forall|i: int|
        0 <= i < ws.len() ==> (#[trigger] ws[i]).len() > 0 && forall|j: int|
            0 <= j < ws[i].len() ==> !breaks(#[trigger] ws[i][j], mode)
}

proof fn lemma_words_plain(s: Seq<char>, mode: Breaks)
    ensures
        plain_words(words(s, mode), mode),
    decreases s.len(),
{
    if s.len() > 0 {
        lemma_words_plain(s.drop_last(), mode);
        let p = words(s.drop_last(), mode);
        let c = s.last();
        let w = words(s, mode);
        if !breaks(c, mode) {
            if s.len() >= 2 && !breaks(s[s.len() - 2], mode) {
                assert(s.drop_last().last() == s[s.len() - 2]);
                lemma_words_nonempty(s.drop_last(), mode);
                assert forall|i: int| 0 <= i < w.len() implies (#[trigger] w[i]).len() > 0 && forall|j: int|
                    0 <= j < w[i].len() ==> !breaks(#[trigger] w[i][j], mode) by {
                    if i == w.len() - 1 {
                        assert(w[i] == p[i].push(c));
                        assert forall|j: int| 0 <= j < w[i].len() implies !breaks(#[trigger] w[i][j], mode) by {
                            if j < p[i].len() {
                                assert(w[i][j] == p[i][j]);
                            }
                        }
                    } else {
                        assert(w[i] == p[i]);
                    }
                }
            } else {
                assert forall|i: int| 0 <= i < w.len() implies (#[trigger] w[i]).len() > 0 && forall|j: int|
                    0 <= j < w[i].len() ==> !breaks(#[trigger] w[i][j], mode) by {
                    if i < p.len() {
                        assert(w[i] == p[i]);
                    } else {
                        assert(w[i] == seq![c]);
                    }
                }
            }
        }
    }
}

/// The words of a text that follows a break are its own words after the
/// words before it.
proof fn lemma_words_append(x: Seq<char>, y: Seq<char>, mode: Breaks)
    requires
        x.len() == 0 || breaks(x.last(), mode),
    ensures
        words(x + y, mode) == words(x, mode) + words(y, mode),
    decreases y.len(),
{
    if y.len() == 0 {
        assert(x + y =~= x);
    } else {
        let yd = y.drop_last();
        lemma_words_append(x, yd, mode);
        let xy = x + y;
        assert(xy.drop_last() =~= x + yd);
        assert(xy.last() == y.last());
        let c = y.last();
        if !breaks(c, mode) {
            if yd.len() > 0 {
                assert(xy[xy.len() - 2] == yd.last());
                assert(y[y.len() - 2] == yd.last());
                if !breaks(yd.last(), mode) {
                    lemma_words_nonempty(yd, mode);
                    let a = words(x, mode);
                    let b = words(yd, mode);
                    assert((a + b).update((a + b).len() - 1, (a + b).last().push(c)) =~= a + b.update(b.len() - 1, b.last().push(c)));
                }
            } else {
                if x.len() > 0 {
                    assert(xy[xy.len() - 2] == x.last());
                }
                assert(y.len() < 2);
                assert(words(y, mode) =~= seq![seq![c]]);
            }
        }
    }
}

/// A word with no break is one word.
proof fn lemma_one_word(w: Seq<char>, mode: Breaks)
    requires
        w.len() > 0,
        forall|j: int| 0 <= j < w.len() ==> !breaks(#[trigger] w[j], mode),
    ensures
        words(w, mode) == seq![w],
    decreases w.len(),
{
    let d = w.drop_last();
    if d.len() == 0 {
        assert(words(d, mode) =~= Seq::<Seq<char>>::empty());
        assert(seq![w.last()] =~= w);
    } else {
        assert forall|j: int| 0 <= j < d.len() implies !breaks(#[trigger] d[j], mode) by {
            assert(d[j] == w[j]);
        }
        lemma_one_word(d, mode);
        assert(w[w.len() - 2] == d.last());
        assert(!breaks(w[w.len() - 1], mode));
        assert(d.push(w.last()) =~= w);
        assert(seq![d].update(0, d.push(w.last())) =~= seq![w]);
    }
}

/// Words joined by a space read back as the same words.
proof fn lemma_join_words(ws: Seq<Seq<char>>, mode: Breaks)
    requires
        plain_words(ws, mode),
        breaks(' ', mode),
    ensures
        words(join(ws, " "@), mode) == ws,
    decreases ws.len(),
{
    if ws.len() == 1 {
        assert(ws[0].len() > 0);
        lemma_one_word(ws[0], mode);
        assert(seq![ws[0]] =~= ws);
    } else if ws.len() >= 2 {
        let d = ws.drop_last();
        assert(plain_words(d, mode)) by {
            assert forall|i: int| 0 <= i < d.len() implies (#[trigger] d[i]).len() > 0 && forall|j: int|
                0 <= j < d[i].len() ==> !breaks(#[trigger] d[i][j], mode) by {
                assert(d[i] == ws[i]);
            }
        }
        lemma_join_words(d, mode);
        let x = join(d, " "@) + " "@;
        reveal_strlit(" ");
        assert(x.last() == ' ');
        let l = ws.last();
        assert(l == ws[ws.len() - 1]);
        lemma_one_word(l, mode);
        lemma_words_append(x, l, mode);
        assert(join(ws, " "@) == x + l);
        assert(words(x, mode) == words(join(d, " "@), mode)) by {
            assert(x.drop_last() =~= join(d, " "@));
        }
        assert(d.push(l) =~= ws);
    }
}

/// Normalising twice is normalising once: the words of a value, joined by
/// spaces, read back as the same words.
pub proof fn lemma_closed_up_idempotent(m: Model, mode: Breaks)
    ensures
        closed_up(Model::Text(closed_up(m, mode)), mode) == closed_up(m, mode),
{
    reveal_strlit(" ");
    assert(breaks(' ', mode));
    lemma_words_plain(py_str(m), mode);
    lemma_join_words(words(py_str(m), mode), mode);
}

/// The words of a text.
pub fn words_of(s: &[char], mode: Breaks) -> (r: Vec<Vec<char>>)
    ensures
        char_views(r@) == words(s@, mode),
{
    let mut out: Vec<Vec<char>> = Vec::new();
    let mut i: usize = 0;
    while i < s.len()
        invariant
            0 <= i <= s.len(),
            char_views(out@) == words(s@.take(i as int), mode),
        decreases s.len() - i,
    {
        let c = s[i];
        let ghost t = s@.take(i + 1);
        proof {
            assert(t.drop_last() =~= s@.take(i as int));
            assert(t.last() == c);
        }
        if !is_break(c, mode) {
            if i >= 1 && !is_break(s[i - 1], mode) {
                proof {
                    assert(t[t.len() - 2] == s@[i - 1]);
                    assert(s@.take(i as int).last() == s@[i - 1]);
                    lemma_words_nonempty(s@.take(i as int), mode);
                }
                let last = out.len() - 1;
                let ghost before = out@;
                let mut w = crate::text::slice_range(&out[last], 0, out[last].len());
                w.push(c);
                out.set(last, w);
                proof {
                    assert(before[last as int]@.subrange(0, before[last as int]@.len() as int) =~= before[last as int]@);
                    assert(char_views(out@) =~= char_views(before).update(last as int, char_views(before).last().push(c)));
                }
            } else {
                let mut w: Vec<char> = Vec::new();
                w.push(c);
                let ghost before = out@;
                out.push(w);
                proof {
                    if i >= 1 {
                        assert(t[t.len() - 2] == s@[i - 1]);
                    }
                    assert(char_views(out@) =~= char_views(before).push(seq![c]));
                }
            }
        }
        i = i + 1;
    }
    proof {
        assert(s@.take(s.len() as int) =~= s@);
    }
    out
}

/// A value's text with its runs of whitespace closed up to single spaces.
pub open spec fn closed_up(m: Model, mode: Breaks) -> Seq<char> {
    join(words(py_str(m), mode), " "@)
}

/// A value's text cut to sixty characters, for a report line.
pub open spec fn short_predicate(m: Model) -> Seq<char> {
    let v = closed_up(m, Breaks::Spaces);
    if v.len() > 60 {
        v.take(57) + "..."@
    } else {
        v
    }
}

/// A value's text, closed up, cut to sixty characters.
pub fn predicate_short(value: &Value) -> (r: String)
    ensures
        r@ == short_predicate(value@),
{
    let ws = words_of(&py(value), Breaks::Spaces);
    let v = join_with(&ws, &chars_of(" "));
    if v.len() > 60 {
        let mut out = crate::text::slice_range(&v, 0, 57);
        crate::text::append(&mut out, &chars_of("..."));
        string_of(&out)
    } else {
        string_of(&v)
    }
}

/// A value's words, separators included among the breaks, joined by spaces.
pub fn norm(value: &Value) -> (r: String)
    ensures
        r@ == closed_up(value@, Breaks::Separators),
{
    let ws = words_of(&py(value), Breaks::Separators);
    string_of(&join_with(&ws, &chars_of(" ")))
}

/// The ids a text lists, separated by commas and whitespace.
pub fn distinct_ids(value: &str) -> (r: Vec<String>)
    ensures
        r@.len() == words(value@, Breaks::Ids).len(),
        forall|i: int| 0 <= i < r@.len() ==> #[trigger] r@[i]@ == words(value@, Breaks::Ids)[i],
{
    let ws = words_of(&chars_of(value), Breaks::Ids);
    let mut out: Vec<String> = Vec::new();
    let mut i: usize = 0;
    while i < ws.len()
        invariant
            0 <= i <= ws.len(),
            char_views(ws@) == words(value@, Breaks::Ids),
            out@.len() == i,
            forall|q: int| 0 <= q < i ==> #[trigger] out@[q]@ == ws@[q]@,
        decreases ws.len() - i,
    {
        out.push(string_of(&ws[i]));
        i = i + 1;
    }
    proof {
        assert forall|q: int| 0 <= q < out@.len() implies #[trigger] out@[q]@ == words(value@, Breaks::Ids)[q] by {
            assert(char_views(ws@)[q] == ws@[q]@);
        }
    }
    out
}

/// The ids a value lists: the words of its text where it is truthy.
pub open spec fn listed_ids(m: Model) -> Seq<Seq<char>> {
    words(
        if truthy(m) {
            py_str(m)
        } else {
            Seq::empty()
        },
        Breaks::Ids,
    )
}

/// The ids a value lists.
pub fn ids_value(value: &Value) -> (r: Vec<String>)
    ensures
        r@.len() == listed_ids(value@).len(),
        forall|i: int| 0 <= i < r@.len() ==> #[trigger] r@[i]@ == listed_ids(value@)[i],
{
    let t = if truth(value) {
        string_of(&py(value))
    } else {
        string_of(&Vec::new())
    };
    distinct_ids(t.as_str())
}

/// A text cut to fewer than `width` characters, or to `width` and an
/// ellipsis.
pub open spec fn cut_spec(value: Seq<char>, width: nat) -> Seq<char> {
    if value.len() < width {
        value
    } else {
        value.take(width as int) + " ..."@
    }
}

/// A text cut to a width.
pub fn cut(value: &str, width: usize) -> (r: String)
    ensures
        r@ == cut_spec(value@, width as nat),
{
    let cs = chars_of(value);
    if cs.len() < width {
        string_of(&cs)
    } else {
        let mut out = crate::text::slice_range(&cs, 0, width);
        crate::text::append(&mut out, &chars_of(" ..."));
        string_of(&out)
    }
}

/// A character a shell word may hold unquoted.
pub open spec fn shell_safe(c: char) -> bool {
    crate::text::spec_is_ascii_alphanumeric(c) || c == '_' || c == '@' || c == '%' || c == '+' || c == '='
        || c == ':' || c == ',' || c == '.' || c == '/' || c == '-'
}

/// A quote in single quotes: closed, quoted in double quotes, and reopened.
pub open spec fn single_quoted(s: Seq<char>) -> Seq<char>
    decreases s.len(),
{
    if s.len() == 0 {
        Seq::empty()
    } else {
        single_quoted(s.drop_last()) + if s.last() == '\'' {
            "'\"'\"'"@
        } else {
            seq![s.last()]
        }
    }
}

/// A text as one shell word: as it is where every character is safe,
/// else in single quotes.
pub open spec fn quote_spec(v: Seq<char>) -> Seq<char> {
    if v.len() > 0 && forall|i: int| 0 <= i < v.len() ==> shell_safe(#[trigger] v[i]) {
        v
    } else {
        seq!['\''] + single_quoted(v) + seq!['\'']
    }
}

/// A text as one shell word.
pub fn quote(v: &str) -> (r: String)
    ensures
        r@ == quote_spec(v@),
{
    let cs = chars_of(v);
    let mut safe = cs.len() > 0;
    let mut i: usize = 0;
    while i < cs.len()
        invariant
            0 <= i <= cs.len(),
            cs@ == v@,
            safe == (cs@.len() > 0 && forall|q: int| 0 <= q < i ==> shell_safe(#[trigger] cs@[q])),
        decreases cs.len() - i,
    {
        let c = cs[i];
        let ok = crate::text::is_ascii_alphanumeric(c) || c == '_' || c == '@' || c == '%' || c == '+' || c
            == '=' || c == ':' || c == ',' || c == '.' || c == '/' || c == '-';
        if !ok {
            safe = false;
        }
        i = i + 1;
    }
    if safe {
        return string_of(&cs);
    }
    let mut out: Vec<char> = Vec::new();
    out.push('\'');
    let mut j: usize = 0;
    while j < cs.len()
        invariant
            0 <= j <= cs.len(),
            out@ == seq!['\''] + single_quoted(cs@.take(j as int)),
        decreases cs.len() - j,
    {
        proof {
            assert(cs@.take(j + 1).drop_last() =~= cs@.take(j as int));
        }
        if cs[j] == '\'' {
            crate::text::append(&mut out, &chars_of("'\"'\"'"));
        } else {
            out.push(cs[j]);
        }
        j = j + 1;
    }
    out.push('\'');
    proof {
        assert(cs@.take(cs.len() as int) =~= cs@);
    }
    string_of(&out)
}

} // verus!
