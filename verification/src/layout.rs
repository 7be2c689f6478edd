//! The line layout of a record file: top-level collection headers, their
//! members' headers at one indentation, and the block of lines each member
//! owns. Edits insert whole blocks and leave every other line as it was.
use vstd::prelude::*;
use crate::text::{
    chars_of, count_lead_spaces, has_prefix, slice_range, lead_spaces, spec_is_ascii_alpha, spec_is_ascii_alphanumeric,
    starts_with, string_of, trim, trim_start, trimmed, trimmed_start,
};

verus! {

broadcast use vstd::std_specs::vec::group_vec_axioms;

/// The characters of each line.
pub open spec fn line_view(ls: Seq<String>) -> Seq<Seq<char>> {
    ls.map_values(|l: String| l@)
}

/// A character of a name: an ASCII letter or digit, or `_`.
pub open spec fn word_char(c: char) -> bool {
    spec_is_ascii_alphanumeric(c) || c == '_'
}

/// A character that may begin a name: an ASCII letter or `_`.
pub open spec fn word_start(c: char) -> bool {
    spec_is_ascii_alpha(c) || c == '_'
}

/// The length of the run of name characters (and dots, when `dotted`) that
/// starts at `from`.
pub open spec fn run(s: Seq<char>, from: int, dotted: bool) -> nat
    decreases s.len() - from,
{
    if from < 0 || from >= s.len() || !(word_char(s[from]) || (dotted && s[from] == '.')) {
        0
    } else {
        1 + run(s, from + 1, dotted)
    }
}

/// A name at `at` followed by `:` and then a space or the end of the line.
pub open spec fn named_colon(l: Seq<char>, at: int, dotted: bool) -> bool {
    let n = run(l, at, dotted);
    &&& n > 0
    &&& word_start(l[at])
    &&& at + n < l.len()
    &&& l[at + n] == ':'
    &&& (at + n + 1 == l.len() || l[at + n + 1] == ' ')
}

/// A collection header: `^([A-Za-z_][A-Za-z0-9_]*):(?: |$)`.
pub open spec fn collection_header(l: Seq<char>) -> bool {
    named_colon(l, 0, false)
}

pub open spec fn header_name(l: Seq<char>) -> Seq<char> {
    l.take(run(l, 0, false) as int)
}

/// A member header: `^( +)([A-Za-z_][A-Za-z0-9_.]*):(?: |$)`.
pub open spec fn member_header(l: Seq<char>) -> bool {
    lead_spaces(l) > 0 && named_colon(l, lead_spaces(l) as int, true)
}

pub open spec fn member_name(l: Seq<char>) -> Seq<char> {
    let k = lead_spaces(l) as int;
    l.subrange(k, k + run(l, k, true))
}

/// A line with nothing on it, or only a comment.
pub open spec fn blank(l: Seq<char>) -> bool {
    trim(l).len() == 0 || starts_with(trim_start(l), "#"@)
}

/// The collection headers, with their line numbers, in order.
pub open spec fn header_lines(ls: Seq<Seq<char>>) -> Seq<(Seq<char>, int)>
    decreases ls.len(),
{
    if ls.len() == 0 {
        Seq::empty()
    } else {
        let p = header_lines(ls.drop_last());
        if collection_header(ls.last()) {
            p.push((header_name(ls.last()), ls.len() - 1))
        } else {
            p
        }
    }
}

/// Each collection: its name, its header's line, and where the next
/// collection's header (or the end of the file) stands.
pub open spec fn sections(ls: Seq<Seq<char>>) -> Seq<(Seq<char>, int, int)> {
    let h = header_lines(ls);
    Seq::new(
        h.len(),
        |i: int|
            (h[i].0, h[i].1, if i + 1 < h.len() {
                h[i + 1].1
            } else {
                ls.len() as int
            }),
    )
}

pub proof fn lemma_header_lines(ls: Seq<Seq<char>>)
    ensures
        forall|i: int| 0 <= i < header_lines(ls).len() ==> 0 <= #[trigger] header_lines(ls)[i].1 < ls.len(),
        forall|i: int, j: int|
            0 <= i < j < header_lines(ls).len() ==> #[trigger] header_lines(ls)[i].1 < #[trigger] header_lines(ls)[j].1,
        forall|i: int|
            0 <= i < header_lines(ls).len() ==> collection_header(ls[#[trigger] header_lines(ls)[i].1]) && header_lines(
                ls,
            )[i].0 == header_name(ls[header_lines(ls)[i].1]),
        forall|p: int|
            0 <= p < ls.len() && collection_header(#[trigger] ls[p]) ==> exists|i: int|
                0 <= i < header_lines(ls).len() && header_lines(ls)[i].1 == p,
    decreases ls.len(),
{
    if ls.len() > 0 {
        let d = ls.drop_last();
        lemma_header_lines(d);
        assert forall|i: int| 0 <= i < d.len() implies #[trigger] d[i] == ls[i] by {}
        let h = header_lines(ls);
        let hd = header_lines(d);
        assert forall|p: int| 0 <= p < ls.len() && collection_header(#[trigger] ls[p]) implies exists|i: int|
            0 <= i < h.len() && h[i].1 == p by {
            if p < ls.len() - 1 {
                assert(d[p] == ls[p]);
                let i = choose|i: int| 0 <= i < hd.len() && hd[i].1 == p;
                assert(h[i] == hd[i]);
            } else {
                assert(h[h.len() - 1].1 == p);
            }
        }
    }
}

/// The first indentation among the lines `from..to` that are not blank.
pub open spec fn first_indent(ls: Seq<Seq<char>>, from: int, to: int) -> Option<nat>
    decreases to - from,
{
    if to <= from {
        None
    } else {
        match first_indent(ls, from, to - 1) {
            Some(n) => Some(n),
            None => if blank(ls[to - 1]) {
                None
            } else {
                Some(lead_spaces(ls[to - 1]))
            },
        }
    }
}

/// A member's header at indentation `ind`.
pub open spec fn member_at(l: Seq<char>, ind: nat) -> bool {
    !blank(l) && member_header(l) && lead_spaces(l) == ind
}

/// The member headers at indentation `ind` among the lines `from..to`.
pub open spec fn member_lines(ls: Seq<Seq<char>>, from: int, to: int, ind: nat) -> Seq<(Seq<char>, int)>
    decreases to - from,
{
    if to <= from {
        Seq::empty()
    } else {
        let p = member_lines(ls, from, to - 1, ind);
        if member_at(ls[to - 1], ind) {
            p.push((member_name(ls[to - 1]), to - 1))
        } else {
            p
        }
    }
}

pub proof fn lemma_member_lines(ls: Seq<Seq<char>>, from: int, to: int, n: nat)
    ensures
        forall|q: int|
            0 <= q < member_lines(ls, from, to, n).len() ==> from <= #[trigger] member_lines(ls, from, to, n)[q].1 < to,
    decreases to - from,
{
    if to > from {
        lemma_member_lines(ls, from, to - 1, n);
        let p = member_lines(ls, from, to - 1, n);
        let ml = member_lines(ls, from, to, n);
        assert forall|q: int| 0 <= q < ml.len() implies from <= #[trigger] ml[q].1 < to by {
            if q < p.len() {
                assert(ml[q] == p[q]);
            }
        }
    }
}

/// The members of the collection whose header is line `start` and which
/// ends at `end`: the indentation of its first line that is not blank, and
/// the headers at that indentation.
pub open spec fn members_of(ls: Seq<Seq<char>>, start: int, end: int) -> (Option<nat>, Seq<(Seq<char>, int)>) {
    let to = if end < ls.len() {
        end
    } else {
        ls.len() as int
    };
    let ind = first_indent(ls, start + 1, to);
    (
        ind,
        match ind {
            Some(n) => member_lines(ls, start + 1, to, n),
            None => Seq::empty(),
        },
    )
}

/// Line `p` still belongs to a block indented beyond `ind` that ends by
/// `end`: it is indented beyond `ind`, or it is empty and the next line
/// with something on it is.
pub open spec fn within(ls: Seq<Seq<char>>, p: int, ind: nat, end: int) -> bool {
    &&& p < end
    &&& if trim(ls[p]).len() > 0 {
        lead_spaces(ls[p]) > ind
    } else {
        exists|k: int|
            p < k < end && (forall|q: int| p < q < k ==> trim(#[trigger] ls[q]).len() == 0) && trim(
                #[trigger] ls[k],
            ).len() > 0 && lead_spaces(ls[k]) > ind
    }
}

/// Whether a line's characters hold a collection header.
fn is_collection_header(l: &[char]) -> (r: bool)
    ensures
        r == collection_header(l@),
{
    named_colon_at(l, 0, false)
}

fn run_at(l: &[char], from: usize, dotted: bool) -> (n: usize)
    requires
        from <= l.len(),
    ensures
        n == run(l@, from as int, dotted),
        from + n <= l.len(),
{
    let mut j = from;
    while j < l.len() && ((spec_word(l[j])) || (dotted && l[j] == '.'))
        invariant
            from <= j <= l.len(),
            forall|q: int| from <= q < j ==> word_char(#[trigger] l@[q]) || (dotted && l@[q] == '.'),
        decreases l.len() - j,
    {
        j = j + 1;
    }
    proof {
        lemma_run(l@, from as int, j as int, dotted);
    }
    j - from
}

fn spec_word(c: char) -> (r: bool)
    ensures
        r == word_char(c),
{
    crate::text::is_ascii_alphanumeric(c) || c == '_'
}

proof fn lemma_run(s: Seq<char>, from: int, j: int, dotted: bool)
    requires
        0 <= from <= j <= s.len(),
        forall|q: int| from <= q < j ==> word_char(#[trigger] s[q]) || (dotted && s[q] == '.'),
        j == s.len() || !(word_char(s[j]) || (dotted && s[j] == '.')),
    ensures
        run(s, from, dotted) == j - from,
    decreases j - from,
{
    if from < j {
        lemma_run(s, from + 1, j, dotted);
    }
}

fn named_colon_at(l: &[char], at: usize, dotted: bool) -> (r: bool)
    requires
        at <= l.len(),
    ensures
        r == named_colon(l@, at as int, dotted),
{
    let n = run_at(l, at, dotted);
    if n == 0 {
        return false;
    }
    let c = l[at];
    let starts = ('a' <= c && c <= 'z') || ('A' <= c && c <= 'Z') || c == '_';
    starts && at + n < l.len() && l[at + n] == ':' && (at + n + 1 == l.len() || l[at + n + 1] == ' ')
}

/// Whether a line's characters hold a member header.
fn is_member_header(l: &[char]) -> (r: bool)
    ensures
        r == member_header(l@),
{
    let k = count_lead_spaces(l);
    k > 0 && named_colon_at(l, k, true)
}

/// A line with nothing on it, or only a comment.
pub fn is_blank(l: &[char]) -> (r: bool)
    ensures
        r == blank(l@),
{
    let t = trimmed(l);
    if t.len() == 0 {
        return true;
    }
    let s = trimmed_start(l);
    proof {
        reveal_strlit("#");
        assert("#"@ =~= seq!['#']);
        if s@.len() > 0 {
            if s@[0] == '#' {
                assert(s@.take(1) =~= "#"@);
            }
            if starts_with(s@, "#"@) {
                assert(s@.take(1)[0] == "#"@[0]);
            }
        } else {
            assert(!starts_with(s@, "#"@));
        }
        assert(blank(l@) == (s@.len() > 0 && s@[0] == '#'));
    }
    s.len() > 0 && s[0] == '#'
}

/// The characters of each of the lines.
pub fn line_chars(lines: &Vec<String>) -> (r: Vec<Vec<char>>)
    ensures
        r@.len() == lines@.len(),
        forall|i: int| 0 <= i < lines@.len() ==> #[trigger] r@[i]@ == lines@[i]@,
{
    let mut out: Vec<Vec<char>> = Vec::new();
    let mut i: usize = 0;
    while i < lines.len()
        invariant
            0 <= i <= lines.len(),
            out@.len() == i,
            forall|q: int| 0 <= q < i ==> #[trigger] out@[q]@ == lines@[q]@,
        decreases lines.len() - i,
    {
        out.push(chars_of(lines[i].as_str()));
        i = i + 1;
    }
    out
}


/// The collections of a file's lines: each header's name, its line, and
/// the line where the next header (or the end of the file) stands.
pub fn collections(lines: &Vec<String>) -> (r: Vec<(String, usize, usize)>)
    ensures
        r@.len() == sections(line_view(lines@)).len(),
        forall|i: int|
            0 <= i < r@.len() ==> ({
                let (n, s, e) = #[trigger] sections(line_view(lines@))[i];
                r@[i].0@ == n && r@[i].1 == s && r@[i].2 == e
            }),
{
    let ghost ls = line_view(lines@);
    let cs = line_chars(lines);
    let mut found: Vec<(String, usize)> = Vec::new();
    let mut i: usize = 0;
    while i < lines.len()
        invariant
            0 <= i <= lines.len(),
            ls == line_view(lines@),
            ls.len() == lines@.len(),
            cs@.len() == lines@.len(),
            forall|q: int| 0 <= q < lines@.len() ==> #[trigger] cs@[q]@ == lines@[q]@,
            found@.len() == header_lines(ls.take(i as int)).len(),
            forall|q: int|
                0 <= q < found@.len() ==> (#[trigger] found@[q]).0@ == header_lines(ls.take(i as int))[q].0
                    && found@[q].1 == header_lines(ls.take(i as int))[q].1,
        decreases lines.len() - i,
    {
        proof {
            assert(ls.take(i + 1).drop_last() =~= ls.take(i as int));
            assert(ls.take(i + 1).last() == cs@[i as int]@);
        }
        let ghost before = found@;
        let ghost h0 = header_lines(ls.take(i as int));
        let ghost h1 = header_lines(ls.take(i + 1));
        if is_collection_header(&cs[i]) {
            let n = run_at(&cs[i], 0, false);
            let name = crate::text::slice_range(&cs[i], 0, n);
            found.push((string_of(&name), i));
            proof {
                assert(name@ =~= header_name(cs@[i as int]@));
                assert(h1 == h0.push((header_name(ls[i as int]), i as int)));
                assert forall|q: int| 0 <= q < found@.len() implies (#[trigger] found@[q]).0@ == h1[q].0
                    && found@[q].1 == h1[q].1 by {
                    if q < before.len() {
                        assert(found@[q] == before[q]);
                        assert(h1[q] == h0[q]);
                    }
                }
            }
        } else {
            proof {
                assert(h1 == h0);
            }
        }
        i = i + 1;
    }
    proof {
        assert(ls.take(lines.len() as int) =~= ls);
        lemma_header_lines(ls);
    }
    let mut out: Vec<(String, usize, usize)> = Vec::new();
    let mut k: usize = 0;
    while k < found.len()
        invariant
            0 <= k <= found.len(),
            ls == line_view(lines@),
            ls.len() == lines@.len(),
            found@.len() == header_lines(ls).len(),
            forall|q: int|
                0 <= q < found@.len() ==> (#[trigger] found@[q]).0@ == header_lines(ls)[q].0 && found@[q].1
                    == header_lines(ls)[q].1,
            out@.len() == k,
            forall|q: int|
                0 <= q < k ==> ({
                    let (n, s, e) = #[trigger] sections(ls)[q];
                    out@[q].0@ == n && out@[q].1 == s && out@[q].2 == e
                }),
        decreases found.len() - k,
    {
        let end = if k + 1 < found.len() {
            found[k + 1].1
        } else {
            lines.len()
        };
        let name = string_of(&chars_of(found[k].0.as_str()));
        let ghost before = out@;
        out.push((name, found[k].1, end));
        proof {
            let h = header_lines(ls);
            assert(forall|q: int| 0 <= q < k ==> out@[q] == before[q]);
            assert(out@[k as int].0@ == h[k as int].0);
            assert(out@[k as int].1 == h[k as int].1);
            assert(out@[k as int].2 == (if k + 1 < h.len() {
                h[k + 1].1
            } else {
                ls.len() as int
            }));
            assert(sections(ls)[k as int] == (h[k as int].0, h[k as int].1, if k + 1 < h.len() {
                h[k + 1].1
            } else {
                ls.len() as int
            }));
        }
        k = k + 1;
    }
    out
}

/// The members of the collection whose header is line `start` and which ends
/// at `end`: the indentation of its first line that is not blank, and the
/// name and line of each member header at that indentation.
pub fn members(lines: &Vec<String>, start: usize, end: usize) -> (r: (Option<usize>, Vec<(String, usize)>))
    ensures
        ({
            let (ind, ms) = members_of(line_view(lines@), start as int, end as int);
            &&& match r.0 {
                Some(n) => ind == Some(n as nat),
                None => ind is None,
            }
            &&& r.1@.len() == ms.len()
            &&& forall|i: int| 0 <= i < ms.len() ==> #[trigger] r.1@[i].0@ == ms[i].0 && r.1@[i].1 == ms[i].1
        }),
{
    let ghost ls = line_view(lines@);
    let to = if end < lines.len() {
        end
    } else {
        lines.len()
    };
    let mut ind: Option<usize> = None;
    let mut out: Vec<(String, usize)> = Vec::new();
    if start >= to {
        return (ind, out);
    }
    let mut i: usize = start + 1;
    while i < to
        invariant
            start < to <= lines.len(),
            start + 1 <= i <= to,
            ls == line_view(lines@),
            ls.len() == lines@.len(),
            match ind {
                Some(n) => first_indent(ls, start + 1, i as int) == Some(n as nat),
                None => first_indent(ls, start + 1, i as int) is None,
            },
            ind is None ==> out@.len() == 0,
            ind matches Some(n) ==> out@.len() == member_lines(ls, start + 1, i as int, n as nat).len()
                && forall|q: int|
                0 <= q < out@.len() ==> #[trigger] out@[q].0@ == member_lines(ls, start + 1, i as int, n as nat)[q].0
                    && out@[q].1 == member_lines(ls, start + 1, i as int, n as nat)[q].1,
            ind is None ==> forall|n: nat| #[trigger] member_lines(ls, start + 1, i as int, n).len() == 0,
        decreases to - i,
    {
        let l = chars_of(lines[i].as_str());
        assert(ls[i as int] == l@);
        let ghost old_out = out@;
        let ghost old_ind = ind;
        let mut pushed = false;
        if !is_blank(&l) {
            let n = count_lead_spaces(&l);
            if ind.is_none() {
                ind = Some(n);
            }
            let expected = ind.unwrap();
            if is_member_header(&l) && n == expected {
                let k = run_at(&l, n, true);
                let name = crate::text::slice_range(&l, n, n + k);
                proof {
                    assert(name@ =~= member_name(l@));
                }
                out.push((string_of(&name), i));
                pushed = true;
            }
        }
        proof {
            let ii = i as int;
            assert forall|n: nat| #[trigger] member_lines(ls, start + 1, ii + 1, n) == if member_at(ls[ii], n) {
                member_lines(ls, start + 1, ii, n).push((member_name(ls[ii]), ii))
            } else {
                member_lines(ls, start + 1, ii, n)
            } by {}
            if let Some(n) = ind {
                let m0 = member_lines(ls, start + 1, ii, n as nat);
                let m1 = member_lines(ls, start + 1, ii + 1, n as nat);
                assert(old_ind is None ==> m0.len() == 0);
                assert(pushed == member_at(ls[ii], n as nat));
                if pushed {
                    assert(m1 == m0.push((member_name(ls[ii]), ii)));
                    assert(out@ == old_out.push(out@[old_out.len() as int]));
                } else {
                    assert(m1 == m0);
                    assert(out@ == old_out);
                }
                assert(out@.len() == m1.len());
            } else {
                assert(blank(ls[ii]));
            }
        }
        i = i + 1;
    }
    proof {
        assert(i == to);
        let (mi, ms) = members_of(ls, start as int, end as int);
        assert(mi == first_indent(ls, start + 1, to as int));
        if let Some(n) = ind {
            assert(ms == member_lines(ls, start + 1, to as int, n as nat));
        } else {
            assert(ms.len() == 0);
        }
    }
    (ind, out)
}

/// Where the block of the member whose header is line `i`, at indentation
/// `ind`, ends: at the first line from `i + 1` on that no longer belongs to
/// it, or at `end`.
pub fn block_end(lines: &Vec<String>, i: usize, ind: usize, end: usize) -> (j: usize)
    requires
        end <= lines.len(),
        i < usize::MAX,
    ensures
        i + 1 <= j,
        j <= end || j == i + 1,
        forall|p: int| i + 1 <= p < j ==> within(line_view(lines@), p, ind as nat, end as int),
        !within(line_view(lines@), j as int, ind as nat, end as int),
{
    let ghost ls = line_view(lines@);
    let mut j = i + 1;
    while j < end
        invariant
            end <= lines.len(),
            i + 1 <= j,
            j <= end || j == i + 1,
            ls == line_view(lines@),
            ls.len() == lines@.len(),
            forall|p: int| i + 1 <= p < j ==> within(ls, p, ind as nat, end as int),
        decreases end - j,
    {
        let l = chars_of(lines[j].as_str());
        assert(ls[j as int] == l@);
        if trimmed(&l).len() == 0 {
            let mut k = j;
            while k < end && trimmed(&chars_of(lines[k].as_str())).len() == 0
                invariant
                    j <= k <= end,
                    end <= lines.len(),
                    ls == line_view(lines@),
                    ls.len() == lines@.len(),
                    forall|q: int| j <= q < k ==> trim(#[trigger] ls[q]).len() == 0,
                decreases end - k,
            {
                assert(ls[k as int] == lines@[k as int]@);
                k = k + 1;
            }
            if k < end {
                assert(ls[k as int] == lines@[k as int]@);
            }
            if k < end && count_lead_spaces(&chars_of(lines[k].as_str())) > ind {
                proof {
                    assert forall|p: int| j <= p < k implies within(ls, p, ind as nat, end as int) by {
                        assert(forall|q: int| p < q < k ==> trim(#[trigger] ls[q]).len() == 0);
                        assert(trim(ls[k as int]).len() > 0);
                    }
                }
                j = k;
                continue;
            }
            proof {
                if within(ls, j as int, ind as nat, end as int) {
                    let w = choose|w: int|
                        j < w < end && (forall|q: int| j < q < w ==> trim(#[trigger] ls[q]).len() == 0) && trim(
                            #[trigger] ls[w],
                        ).len() > 0 && lead_spaces(ls[w]) > ind;
                    if w < k {
                        assert(trim(ls[w]).len() == 0);
                    } else if w > k {
                        assert(trim(ls[k as int]).len() == 0);
                    }
                }
            }
            return j;
        }
        if count_lead_spaces(&l) > ind {
            j = j + 1;
        } else {
            return j;
        }
    }
    j
}


/// `j` is where the block of the member at line `i` ends.
pub open spec fn ends_block(ls: Seq<Seq<char>>, i: int, ind: nat, end: int, j: int) -> bool {
    &&& i + 1 <= j
    &&& forall|p: int| i + 1 <= p < j ==> within(ls, p, ind, end)
    &&& !within(ls, j, ind, end)
}

/// Where the block of the member at line `i` ends.
pub open spec fn block_end_at(ls: Seq<Seq<char>>, i: int, ind: nat, end: int) -> int {
    choose|j: int| ends_block(ls, i, ind, end, j)
}

pub proof fn lemma_block_end_unique(ls: Seq<Seq<char>>, i: int, ind: nat, end: int, j: int)
    requires
        ends_block(ls, i, ind, end, j),
    ensures
        block_end_at(ls, i, ind, end) == j,
{
    let k = block_end_at(ls, i, ind, end);
    assert(ends_block(ls, i, ind, end, k));
    if k < j {
        assert(within(ls, k, ind, end));
    }
    if j < k {
        assert(within(ls, j, ind, end));
    }
}

/// Every section ends after its header and no later than the file.
pub proof fn lemma_sections(ls: Seq<Seq<char>>)
    ensures
        forall|i: int|
            0 <= i < sections(ls).len() ==> 0 <= (#[trigger] sections(ls)[i]).1 < sections(ls)[i].2 <= ls.len(),
{
    lemma_header_lines(ls);
    let h = header_lines(ls);
    assert forall|i: int| 0 <= i < sections(ls).len() implies 0 <= (#[trigger] sections(ls)[i]).1
        < sections(ls)[i].2 <= ls.len() by {
        if i + 1 < h.len() {
            assert(h[i].1 < h[i + 1].1);
        }
    }
}

/// The first member named `id` in the first collection that has one: the
/// collection, its members' indentation, the member's header line, and
/// where its block ends.
pub open spec fn locate_in(ls: Seq<Seq<char>>, cs: Seq<(Seq<char>, int, int)>, id: Seq<char>) -> Option<
    (Seq<char>, nat, int, int),
>
    decreases cs.len(),
{
    if cs.len() == 0 {
        None
    } else {
        let (n, s, e) = cs[0];
        let (ind, ms) = members_of(ls, s, e);
        match ind {
            Some(k) => if crate::value::has_key(ms, id) {
                let i = ms[crate::value::key_index(ms, id)].1;
                Some((n, k, i, block_end_at(ls, i, k, e)))
            } else {
                locate_in(ls, cs.drop_first(), id)
            },
            None => locate_in(ls, cs.drop_first(), id),
        }
    }
}

pub open spec fn located(ls: Seq<Seq<char>>, id: Seq<char>) -> Option<(Seq<char>, nat, int, int)> {
    locate_in(ls, sections(ls), id)
}

/// Where the member `id` stands: the first collection holding it, its
/// members' indentation, its header line and the end of its block.
pub fn locate(lines: &Vec<String>, id: &str) -> (r: Option<(String, usize, usize, usize)>)
    ensures
        match r {
            Some((n, ind, i, e)) => located(line_view(lines@), id@) == Some((n@, ind as nat, i as int, e as int)),
            None => located(line_view(lines@), id@) is None,
        },
{
    let ghost ls = line_view(lines@);
    let ghost sv = sections(ls);
    proof {
        lemma_sections(ls);
    }
    let cs = collections(lines);
    proof {
        assert(sv.skip(0) =~= sv);
    }
    let mut k: usize = 0;
    while k < cs.len()
        invariant
            0 <= k <= cs.len(),
            ls == line_view(lines@),
            ls.len() == lines@.len(),
            sv == sections(ls),
            cs@.len() == sv.len(),
            forall|i: int|
                0 <= i < cs@.len() ==> ({
                    let (n, s, e) = #[trigger] sv[i];
                    cs@[i].0@ == n && cs@[i].1 == s && cs@[i].2 == e
                }),
            forall|i: int| 0 <= i < sv.len() ==> 0 <= (#[trigger] sv[i]).1 < sv[i].2 <= ls.len(),
            locate_in(ls, sv, id@) == locate_in(ls, sv.skip(k as int), id@),
        decreases cs.len() - k,
    {
        let ghost c = sv[k as int];
        assert(cs@[k as int].1 == c.1 && cs@[k as int].2 == c.2);
        let (ind, ms) = members(lines, cs[k].1, cs[k].2);
        let ghost mv = members_of(ls, c.1, c.2).1;
        proof {
            assert(sv.skip(k as int)[0] == c);
            assert(sv.skip(k as int).drop_first() =~= sv.skip(k + 1));
            assert(0 <= c.1 < c.2 <= ls.len());
            let to = if c.2 < ls.len() { c.2 } else { ls.len() as int };
            if let Some(n) = members_of(ls, c.1, c.2).0 {
                lemma_member_lines(ls, c.1 + 1, to, n);
            }
        }
        let mut m: usize = 0;
        while m < ms.len()
            invariant
                0 <= m <= ms.len(),
                0 <= k < cs@.len(),
                cs@.len() == sv.len(),
                ls == line_view(lines@),
                ls.len() == lines@.len(),
                c == sv[k as int],
                sv == sections(ls),
                cs@[k as int].0@ == c.0 && cs@[k as int].1 == c.1 && cs@[k as int].2 == c.2,
                c.2 <= ls.len(),
                sv.skip(k as int)[0] == c,
                locate_in(ls, sv, id@) == locate_in(ls, sv.skip(k as int), id@),
                mv == members_of(ls, c.1, c.2).1,
                match ind {
                    Some(n) => members_of(ls, c.1, c.2).0 == Some(n as nat),
                    None => members_of(ls, c.1, c.2).0 is None,
                },
                ms@.len() == mv.len(),
                forall|i: int| 0 <= i < mv.len() ==> 0 <= #[trigger] mv[i].1 < ls.len(),
                forall|i: int| 0 <= i < mv.len() ==> #[trigger] ms@[i].0@ == mv[i].0 && ms@[i].1 == mv[i].1,
                forall|i: int| 0 <= i < m ==> #[trigger] mv[i].0 != id@,
            decreases ms.len() - m,
        {
            if crate::value::text_is(&ms[m].0, id) {
                proof {
                    crate::value::lemma_key_index(mv, id@, m as int);
                }
                let n = ind.unwrap();
                let start = ms[m].1;
                assert(start < lines.len());
                let e = block_end(lines, start, n, cs[k].2);
                proof {
                    lemma_block_end_unique(ls, start as int, n as nat, cs@[k as int].2 as int, e as int);
                    let sk = sv.skip(k as int);
                    assert(sk.len() > 0);
                    assert(sk[0] == c);
                    let mo = members_of(ls, c.1, c.2);
                    assert(mo.0 == Some(n as nat));
                    assert(mo.1 == mv);
                    assert(crate::value::has_key(mv, id@));
                    assert(crate::value::key_index(mv, id@) == m);
                    assert(mv[m as int].1 == start);
                    assert(locate_in(ls, sk, id@) == Some((c.0, n as nat, start as int, e as int)));
                }
                let name = string_of(&chars_of(cs[k].0.as_str()));
                return Some((name, n, start, e));
            }
            m = m + 1;
        }
        proof {
            crate::value::lemma_no_key(mv, id@);
        }
        k = k + 1;
    }
    proof {
        assert(sv.skip(k as int).len() == 0);
    }
    None
}

/// How many leading dot-separated parts two names share.
pub open spec fn common_parts(a: Seq<Seq<char>>, b: Seq<Seq<char>>) -> nat
    decreases a.len(),
{
    if a.len() == 0 || b.len() == 0 || a[0] != b[0] {
        0
    } else {
        1 + common_parts(a.drop_first(), b.drop_first())
    }
}

pub open spec fn common(a: Seq<char>, b: Seq<char>) -> nat {
    common_parts(crate::text::split(a, '.'), crate::text::split(b, '.'))
}

proof fn lemma_common_parts(a: Seq<Seq<char>>, b: Seq<Seq<char>>, k: int)
    requires
        0 <= k <= a.len(),
        k <= b.len(),
        forall|q: int| 0 <= q < k ==> #[trigger] a[q] == b[q],
        k == a.len() || k == b.len() || a[k] != b[k],
    ensures
        common_parts(a, b) == k,
    decreases k,
{
    if k > 0 {
        assert forall|q: int| 0 <= q < k - 1 implies #[trigger] a.drop_first()[q] == b.drop_first()[q] by {
            assert(a[q + 1] == b[q + 1]);
        }
        lemma_common_parts(a.drop_first(), b.drop_first(), k - 1);
    }
}

/// How many leading dot-separated parts two names share.
pub fn common_prefix(a: &str, b: &str) -> (n: usize)
    ensures
        n == common(a@, b@),
{
    let pa = crate::text::split_on(&chars_of(a), '.');
    let pb = crate::text::split_on(&chars_of(b), '.');
    let ghost sa = crate::text::split(a@, '.');
    let ghost sb = crate::text::split(b@, '.');
    let mut k: usize = 0;
    while k < pa.len() && k < pb.len() && crate::text::same(&pa[k], &pb[k])
        invariant
            0 <= k <= pa.len(),
            k <= pb.len(),
            pa@.len() == sa.len(),
            pb@.len() == sb.len(),
            forall|q: int| 0 <= q < pa@.len() ==> #[trigger] pa@[q]@ == sa[q],
            forall|q: int| 0 <= q < pb@.len() ==> #[trigger] pb@[q]@ == sb[q],
            forall|q: int| 0 <= q < k ==> #[trigger] sa[q] == sb[q],
        decreases pa.len() - k,
    {
        assert(pa@[k as int]@ == sa[k as int] && pb@[k as int]@ == sb[k as int]);
        k = k + 1;
    }
    proof {
        if k < pa.len() && k < pb.len() {
            assert(pa@[k as int]@ == sa[k as int] && pb@[k as int]@ == sb[k as int]);
        }
        lemma_common_parts(sa, sb, k as int);
    }
    k
}

/// The most parts any of the names shares with `id`.
pub open spec fn most_common(ns: Seq<Seq<char>>, id: Seq<char>) -> nat
    decreases ns.len(),
{
    if ns.len() == 0 {
        0
    } else {
        let m = most_common(ns.drop_last(), id);
        let c = common(ns.last(), id);
        if c > m {
            c
        } else {
            m
        }
    }
}

/// A name among the nearest relatives of `id`.
pub open spec fn sibling(n: Seq<char>, id: Seq<char>, best: nat) -> bool {
    best == 0 || common(n, id) == best
}

/// The first sibling from `from` on that sorts after `id`.
pub open spec fn first_above(ns: Seq<Seq<char>>, id: Seq<char>, best: nat, from: int) -> Option<int>
    decreases ns.len() - from,
{
    if from < 0 || from >= ns.len() {
        None
    } else if sibling(ns[from], id, best) && crate::text::seq_lt(id, ns[from]) {
        Some(from)
    } else {
        first_above(ns, id, best, from + 1)
    }
}

/// The last sibling before `to`, or -1.
pub open spec fn last_sibling(ns: Seq<Seq<char>>, id: Seq<char>, best: nat, to: int) -> int
    decreases to,
{
    if to <= 0 {
        -1
    } else if sibling(ns[to - 1], id, best) {
        to - 1
    } else {
        last_sibling(ns, id, best, to - 1)
    }
}

/// Where a new member `id` goes among members named `ns`: before the first
/// of its nearest relatives that sorts after it, else after the last of them.
pub open spec fn placed(ns: Seq<Seq<char>>, id: Seq<char>) -> (int, bool) {
    let best = most_common(ns, id);
    match first_above(ns, id, best, 0) {
        Some(j) => (j, true),
        None => (last_sibling(ns, id, best, ns.len() as int), false),
    }
}

pub open spec fn exec_names(ms: Seq<(String, usize)>) -> Seq<Seq<char>> {
    ms.map_values(|m: (String, usize)| m.0@)
}

pub open spec fn member_names(ms: Seq<(Seq<char>, int)>) -> Seq<Seq<char>> {
    ms.map_values(|m: (Seq<char>, int)| m.0)
}

proof fn lemma_most_common_attained(ns: Seq<Seq<char>>, id: Seq<char>)
    requires
        ns.len() > 0,
    ensures
        exists|j: int| 0 <= j < ns.len() && common(#[trigger] ns[j], id) == most_common(ns, id),
        forall|j: int| 0 <= j < ns.len() ==> common(#[trigger] ns[j], id) <= most_common(ns, id),
    decreases ns.len(),
{
    let d = ns.drop_last();
    let last = ns.len() - 1;
    assert(ns[last] == ns.last());
    if ns.len() > 1 {
        lemma_most_common_attained(d, id);
        assert forall|j: int| 0 <= j < d.len() implies #[trigger] d[j] == ns[j] by {}
        if common(ns.last(), id) <= most_common(d, id) {
            let j = choose|j: int| 0 <= j < d.len() && common(#[trigger] d[j], id) == most_common(d, id);
            assert(ns[j] == d[j]);
            assert(most_common(ns, id) == most_common(d, id));
        } else {
            assert(most_common(ns, id) == common(ns[last], id));
        }
        assert forall|j: int| 0 <= j < ns.len() implies common(#[trigger] ns[j], id) <= most_common(ns, id) by {
            if j < last {
                assert(d[j] == ns[j]);
            }
        }
    } else {
        assert(d.len() == 0);
        assert(most_common(d, id) == 0);
        assert(most_common(ns, id) == common(ns[last], id));
        assert forall|j: int| 0 <= j < ns.len() implies common(#[trigger] ns[j], id) <= most_common(ns, id) by {
            assert(j == last);
        }
    }
}

/// Where a new member `id` goes among the members `ms`: the index of its
/// anchor, and whether it goes before the anchor (else after its block).
pub fn place(ms: &Vec<(String, usize)>, id: &str) -> (r: (usize, bool))
    requires
        ms@.len() > 0,
    ensures
        ({
            let ns = exec_names(ms@);
            r.0 as int == placed(ns, id@).0 && r.1 == placed(ns, id@).1
        }),
        r.0 < ms@.len(),
{
    let ghost ns = exec_names(ms@);
    let mut best: usize = 0;
    let mut i: usize = 0;
    while i < ms.len()
        invariant
            0 <= i <= ms.len(),
            ns == exec_names(ms@),
            ns.len() == ms@.len(),
            best == most_common(ns.take(i as int), id@),
        decreases ms.len() - i,
    {
        let c = common_prefix(ms[i].0.as_str(), id);
        proof {
            assert(ns.take(i + 1).drop_last() =~= ns.take(i as int));
            assert(ns.take(i + 1).last() == ms@[i as int].0@);
        }
        if c > best {
            best = c;
        }
        i = i + 1;
    }
    proof {
        assert(ns.take(ms.len() as int) =~= ns);
        lemma_most_common_attained(ns, id@);
    }
    let idc = chars_of(id);
    let mut j: usize = 0;
    while j < ms.len()
        invariant
            0 <= j <= ms.len(),
            ns == exec_names(ms@),
            ns.len() == ms@.len(),
            best == most_common(ns, id@),
            idc@ == id@,
            first_above(ns, id@, best as nat, 0) == first_above(ns, id@, best as nat, j as int),
        decreases ms.len() - j,
    {
        let name = chars_of(ms[j].0.as_str());
        assert(ns[j as int] == name@);
        let sib = best == 0 || common_prefix(ms[j].0.as_str(), id) == best;
        if sib && crate::text::chars_lt(&idc, &name) {
            return (j, true);
        }
        j = j + 1;
    }
    let mut last: usize = 0;
    let mut found = false;
    let mut k: usize = 0;
    while k < ms.len()
        invariant
            0 <= k <= ms.len(),
            ns == exec_names(ms@),
            ns.len() == ms@.len(),
            best == most_common(ns, id@),
            found ==> last < k && last_sibling(ns, id@, best as nat, k as int) == last,
            !found ==> last_sibling(ns, id@, best as nat, k as int) == -1,
        decreases ms.len() - k,
    {
        assert(ns[k as int] == ms@[k as int].0@);
        if best == 0 || common_prefix(ms[k].0.as_str(), id) == best {
            last = k;
            found = true;
        }
        k = k + 1;
    }
    proof {
        if !found {
            let w = choose|w: int| 0 <= w < ns.len() && common(#[trigger] ns[w], id@) == most_common(ns, id@);
            lemma_last_sibling_found(ns, id@, best as nat, ns.len() as int, w);
        }
    }
    (last, false)
}

proof fn lemma_last_sibling_found(ns: Seq<Seq<char>>, id: Seq<char>, best: nat, to: int, w: int)
    requires
        0 <= w < to <= ns.len(),
        sibling(ns[w], id, best),
    ensures
        last_sibling(ns, id, best, to) >= w,
    decreases to,
{
    if !sibling(ns[to - 1], id, best) {
        lemma_last_sibling_found(ns, id, best, to - 1, w);
    }
}


/// Whether the file has a collection named `name`.
pub open spec fn has_collection(ls: Seq<Seq<char>>, name: Seq<char>) -> bool {
    exists|i: int| 0 <= i < sections(ls).len() && (#[trigger] sections(ls)[i]).0 == name
}

/// The number of lines at the end with nothing on them.
pub open spec fn blank_tail(ls: Seq<Seq<char>>) -> nat
    decreases ls.len(),
{
    if ls.len() == 0 || trim(ls.last()).len() > 0 {
        0
    } else {
        1 + blank_tail(ls.drop_last())
    }
}

/// The header line of a collection named `name`.
pub open spec fn header_line(name: Seq<char>) -> Seq<char> {
    name + ":"@
}

/// The file with a collection named `name`: as it was where it has one,
/// else with the empty lines at its end replaced by one empty line, the
/// header, and one empty line after it.
pub open spec fn ensured(ls: Seq<Seq<char>>, name: Seq<char>) -> Seq<Seq<char>> {
    if has_collection(ls, name) {
        ls
    } else {
        let kept = ls.take(ls.len() - blank_tail(ls));
        let gap: Seq<Seq<char>> = if kept.len() > 0 {
            seq![Seq::empty()]
        } else {
            Seq::empty()
        };
        kept + gap + seq![header_line(name), Seq::empty()]
    }
}

proof fn lemma_blank_tail(ls: Seq<Seq<char>>, k: int)
    requires
        0 <= k <= ls.len(),
        forall|q: int| ls.len() - k <= q < ls.len() ==> trim(#[trigger] ls[q]).len() == 0,
        k == ls.len() || trim(ls[ls.len() - k - 1]).len() > 0,
    ensures
        blank_tail(ls) == k,
    decreases k,
{
    if k > 0 {
        assert(trim(ls[ls.len() - 1]).len() == 0);
        assert forall|q: int| ls.drop_last().len() - (k - 1) <= q < ls.drop_last().len() implies trim(
            #[trigger] ls.drop_last()[q],
        ).len() == 0 by {
            assert(ls.drop_last()[q] == ls[q]);
        }
        if k - 1 < ls.drop_last().len() {
            assert(ls.drop_last()[ls.drop_last().len() - (k - 1) - 1] == ls[ls.len() - k - 1]);
        }
        lemma_blank_tail(ls.drop_last(), k - 1);
    } else if ls.len() > 0 {
        assert(ls.last() == ls[ls.len() - 1]);
    }
}

/// Gives the file a collection named `collection` where it has none.
pub fn ensure(lines: &mut Vec<String>, collection: &str)
    ensures
        line_view(final(lines)@) == ensured(line_view(old(lines)@), collection@),
{
    let ghost ls = line_view(lines@);
    let cs = collections(lines);
    let mut k: usize = 0;
    while k < cs.len()
        invariant
            0 <= k <= cs.len(),
            ls == line_view(lines@),
            lines@ == old(lines)@,
            cs@.len() == sections(ls).len(),
            forall|i: int|
                0 <= i < cs@.len() ==> ({
                    let (n, s, e) = #[trigger] sections(ls)[i];
                    cs@[i].0@ == n && cs@[i].1 == s && cs@[i].2 == e
                }),
            forall|i: int| 0 <= i < k ==> (#[trigger] sections(ls)[i]).0 != collection@,
        decreases cs.len() - k,
    {
        if crate::value::text_is(&cs[k].0, collection) {
            assert(sections(ls)[k as int].0 == collection@);
            assert(has_collection(ls, collection@));
            return;
        }
        k = k + 1;
    }
    let mut n: usize = lines.len();
    while n > 0 && trimmed(&chars_of(lines[n - 1].as_str())).len() == 0
        invariant
            0 <= n <= lines@.len(),
            ls == line_view(lines@),
            lines@ == old(lines)@,
            forall|q: int| n <= q < ls.len() ==> trim(#[trigger] ls[q]).len() == 0,
        decreases n,
    {
        assert(ls[n - 1] == lines@[n - 1]@);
        n = n - 1;
    }
    proof {
        if n > 0 {
            assert(ls[n - 1] == lines@[n - 1]@);
        }
        lemma_blank_tail(ls, ls.len() - n);
    }
    let mut out: Vec<String> = Vec::new();
    let mut i: usize = 0;
    while i < n
        invariant
            0 <= i <= n <= lines@.len(),
            ls == line_view(lines@),
            out@.len() == i,
            forall|q: int| 0 <= q < i ==> #[trigger] out@[q]@ == ls[q],
        decreases n - i,
    {
        out.push(string_of(&chars_of(lines[i].as_str())));
        i = i + 1;
    }
    if n > 0 {
        out.push(string_of(&Vec::new()));
    }
    let mut header = chars_of(collection);
    header.push(':');
    out.push(string_of(&header));
    out.push(string_of(&Vec::new()));
    proof {
        reveal_strlit(":");
        assert(header@ =~= header_line(collection@));
        let kept = ls.take(ls.len() - blank_tail(ls));
        let gap: Seq<Seq<char>> = if kept.len() > 0 {
            seq![Seq::empty()]
        } else {
            Seq::empty()
        };
        assert(line_view(out@) =~= kept + gap + seq![header_line(collection@), Seq::<char>::empty()]);
    }
    *lines = out;
}

/// A line of a block moved from indentation `old` to `ind`: lines with
/// nothing on them stay as they are; others keep their depth relative to
/// the block's first line.
pub open spec fn shift_line(l: Seq<char>, ind: nat, old: nat) -> Seq<char> {
    if trim(l).len() == 0 {
        l
    } else {
        let n = lead_spaces(l) + ind - old;
        Seq::new(
            if n > 0 {
                n as nat
            } else {
                0
            },
            |i: int| ' ',
        ) + l.skip(lead_spaces(l) as int)
    }
}

pub open spec fn shifted_block(b: Seq<Seq<char>>, ind: nat) -> Seq<Seq<char>> {
    Seq::new(b.len(), |i: int| shift_line(b[i], ind, lead_spaces(b[0])))
}

/// A block moved so that its first line is indented by `ind`.
pub fn shifted(block: &[String], ind: usize) -> (r: Vec<String>)
    requires
        block@.len() > 0,
        ind <= isize::MAX,
        forall|i: int| 0 <= i < block@.len() ==> (#[trigger] block@[i])@.len() <= isize::MAX,
    ensures
        line_view(r@) == shifted_block(line_view(block@), ind as nat),
{
    let ghost b = line_view(block@);
    let first = chars_of(block[0].as_str());
    let old = count_lead_spaces(&first);
    assert(b[0] == first@);
    let mut out: Vec<String> = Vec::new();
    let mut i: usize = 0;
    while i < block.len()
        invariant
            0 <= i <= block@.len(),
            block@.len() > 0,
            b == line_view(block@),
            old == lead_spaces(b[0]),
            ind <= isize::MAX,
            forall|q: int| 0 <= q < block@.len() ==> (#[trigger] block@[q])@.len() <= isize::MAX,
            out@.len() == i,
            forall|q: int| 0 <= q < i ==> #[trigger] out@[q]@ == shift_line(b[q], ind as nat, old as nat),
        decreases block.len() - i,
    {
        let l = chars_of(block[i].as_str());
        assert(b[i as int] == l@);
        if trimmed(&l).len() == 0 {
            out.push(string_of(&l));
        } else {
            let lead = count_lead_spaces(&l);
            let n: usize = if lead + ind >= old {
                lead + ind - old
            } else {
                0
            };
            let mut line = crate::text::spaces(n);
            let rest = crate::text::slice_range(&l, lead, l.len());
            crate::text::append(&mut line, &rest);
            proof {
                assert(rest@ =~= l@.skip(lead as int));
                assert(line@ =~= shift_line(l@, ind as nat, old as nat));
            }
            out.push(string_of(&line));
        }
        i = i + 1;
    }
    proof {
        assert(line_view(out@) =~= shifted_block(b, ind as nat));
    }
    out
}


/// A name a collection header can carry.
pub open spec fn identifier(n: Seq<char>) -> bool {
    n.len() > 0 && word_start(n[0]) && forall|i: int| 0 <= i < n.len() ==> word_char(#[trigger] n[i])
}

/// The header line of an identifier is a collection header with that name.
pub proof fn lemma_header_line(name: Seq<char>)
    requires
        identifier(name),
    ensures
        collection_header(header_line(name)),
        header_name(header_line(name)) == name,
{
    let l = header_line(name);
    assert(":"@ =~= seq![':']) by {
        reveal_strlit(":");
    }
    assert(l.len() == name.len() + 1);
    assert(l[name.len() as int] == ':');
    assert forall|q: int| 0 <= q < name.len() implies word_char(#[trigger] l[q]) || (false && l[q] == '.') by {
        assert(l[q] == name[q]);
    }
    assert(!word_char(':'));
    lemma_run(l, 0, name.len() as int, false);
    assert(l[0] == name[0]);
    assert(l.take(name.len() as int) =~= name);
}

/// A file given a collection named by an identifier has one.
pub proof fn lemma_ensured(ls: Seq<Seq<char>>, name: Seq<char>)
    requires
        identifier(name),
    ensures
        has_collection(ensured(ls, name), name),
{
    if !has_collection(ls, name) {
        let e = ensured(ls, name);
        let p = e.len() - 2;
        assert(e[p] == header_line(name));
        lemma_header_line(name);
        lemma_header_lines(e);
        let i = choose|i: int| 0 <= i < header_lines(e).len() && header_lines(e)[i].1 == p;
        assert(header_lines(e)[i].0 == header_name(e[p]));
        assert(sections(e)[i].0 == name);
    }
}

/// Where the first collection named `name` stands among the collections.
pub open spec fn first_named(cs: Seq<(Seq<char>, int, int)>, name: Seq<char>) -> int
    decreases cs.len(),
{
    if cs.len() == 0 || cs[0].0 == name {
        0
    } else {
        1 + first_named(cs.drop_first(), name)
    }
}

pub open spec fn section_named(ls: Seq<Seq<char>>, name: Seq<char>) -> (Seq<char>, int, int) {
    sections(ls)[first_named(sections(ls), name)]
}

/// The lines with a block inserted before line `pos`.
pub open spec fn spliced_at(ls: Seq<Seq<char>>, pos: int, b: Seq<Seq<char>>) -> Seq<Seq<char>> {
    ls.take(pos) + b + ls.skip(pos)
}

/// A file after `insert_block`, and what it says of where the block went.
pub open spec fn inserted(ls0: Seq<Seq<char>>, col: Seq<char>, id: Seq<char>, block: Seq<Seq<char>>) -> (
    Seq<Seq<char>>,
    Seq<char>,
) {
    let ls = ensured(ls0, col);
    let c = section_named(ls, col);
    let (ind, ms) = members_of(ls, c.1, c.2);
    let b = shifted_block(
        block,
        match ind {
            Some(n) => n,
            None => 2,
        },
    );
    if ms.len() == 0 {
        (spliced_at(ls, c.1 + 1, b), id + " into "@ + col + ", its first entry"@)
    } else {
        let (ai, before) = placed(member_names(ms), id);
        let start = ms[ai].1;
        let pos = if before {
            start
        } else {
            block_end_at(ls, start, ind->Some_0, c.2)
        };
        (
            spliced_at(ls, pos, b),
            id + " into "@ + col + ", "@ + (if before {
                "before "@
            } else {
                "after "@
            }) + ms[ai].0,
        )
    }
}

fn spliced(lines: &Vec<String>, pos: usize, b: Vec<String>) -> (r: Vec<String>)
    requires
        pos <= lines@.len(),
    ensures
        line_view(r@) == spliced_at(line_view(lines@), pos as int, line_view(b@)),
{
    let mut out: Vec<String> = Vec::new();
    let mut i: usize = 0;
    while i < pos
        invariant
            0 <= i <= pos <= lines@.len(),
            out@.len() == i,
            forall|q: int| 0 <= q < i ==> #[trigger] out@[q]@ == lines@[q]@,
        decreases pos - i,
    {
        out.push(string_of(&chars_of(lines[i].as_str())));
        i = i + 1;
    }
    let mut j: usize = 0;
    while j < b.len()
        invariant
            0 <= j <= b@.len(),
            pos <= lines@.len(),
            out@.len() == pos + j,
            forall|q: int| 0 <= q < pos ==> #[trigger] out@[q]@ == lines@[q]@,
            forall|q: int| 0 <= q < j ==> #[trigger] out@[pos + q]@ == b@[q]@,
        decreases b.len() - j,
    {
        out.push(string_of(&chars_of(b[j].as_str())));
        j = j + 1;
    }
    let mut k: usize = pos;
    while k < lines.len()
        invariant
            pos <= k <= lines@.len(),
            out@.len() == b@.len() + k,
            forall|q: int| 0 <= q < pos ==> #[trigger] out@[q]@ == lines@[q]@,
            forall|q: int| 0 <= q < b@.len() ==> #[trigger] out@[pos + q]@ == b@[q]@,
            forall|q: int| pos <= q < k ==> #[trigger] out@[b@.len() + q]@ == lines@[q]@,
        decreases lines.len() - k,
    {
        out.push(string_of(&chars_of(lines[k].as_str())));
        k = k + 1;
    }
    proof {
        let want = spliced_at(line_view(lines@), pos as int, line_view(b@));
        assert forall|q: int| 0 <= q < out@.len() implies #[trigger] line_view(out@)[q] == want[q] by {
            if q < pos {
            } else if q < pos + b@.len() {
                assert(out@[pos + (q - pos)]@ == b@[q - pos]@);
            } else {
                assert(out@[b@.len() + (q - b@.len())]@ == lines@[q - b@.len()]@);
            }
        }
        assert(line_view(out@) =~= want);
    }
    out
}

/// Puts a block of lines for member `id` into collection `col`, which it
/// first creates where the file has none: after the members' header line
/// when the collection has no members, else before the first of its nearest
/// relatives that sorts after it, or after the block of the last of them.
/// The block keeps its inner indentation and takes the members'. Says where
/// the block went.
pub fn insert_block(lines: &mut Vec<String>, col: &str, id: &str, block: &[String]) -> (note: String)
    requires
        identifier(col@),
        block@.len() > 0,
        forall|i: int| 0 <= i < old(lines)@.len() ==> (#[trigger] old(lines)@[i])@.len() <= isize::MAX,
        forall|i: int| 0 <= i < block@.len() ==> (#[trigger] block@[i])@.len() <= isize::MAX,
    ensures
        line_view(final(lines)@) == inserted(line_view(old(lines)@), col@, id@, line_view(block@)).0,
        note@ == inserted(line_view(old(lines)@), col@, id@, line_view(block@)).1,
{
    let ghost ls0 = line_view(lines@);
    ensure(lines, col);
    let ghost ls = line_view(lines@);
    proof {
        lemma_ensured(ls0, col@);
        lemma_sections(ls);
        assert forall|i: int| 0 <= i < ls.len() implies lead_spaces(#[trigger] ls[i]) <= isize::MAX by {
            if !has_collection(ls0, col@) {
                lemma_blank_tail_le(ls0);
                let kept = ls0.take(ls0.len() - blank_tail(ls0));
                if i < kept.len() {
                    assert(ls[i] == ls0[i]);
                    assert(ls0[i] == old(lines)@[i]@);
                    crate::text::lemma_lead_spaces_le(ls0[i]);
                } else if ls[i] == header_line(col@) {
                    assert(ls[i][0] == col@[0]);
                    assert(lead_spaces(ls[i]) == 0);
                } else {
                    assert(ls[i].len() == 0);
                }
            } else {
                assert(ls[i] == old(lines)@[i]@);
                crate::text::lemma_lead_spaces_le(ls[i]);
            }
        }
    }
    let cs = collections(lines);
    let ghost sv = sections(ls);
    proof {
        assert(sv.skip(0) =~= sv);
    }
    let mut k: usize = 0;
    while k < cs.len() && !crate::value::text_is(&cs[k].0, col)
        invariant
            0 <= k <= cs@.len(),
            ls == line_view(lines@),
            sv == sections(ls),
            cs@.len() == sv.len(),
            has_collection(ls, col@),
            forall|i: int|
                0 <= i < cs@.len() ==> ({
                    let (n, s, e) = #[trigger] sv[i];
                    cs@[i].0@ == n && cs@[i].1 == s && cs@[i].2 == e
                }),
            forall|i: int| 0 <= i < k ==> (#[trigger] sv[i]).0 != col@,
            first_named(sv, col@) == k + first_named(sv.skip(k as int), col@),
        decreases cs.len() - k,
    {
        proof {
            assert(sv.skip(k as int)[0] == sv[k as int]);
            assert(sv.skip(k as int).drop_first() =~= sv.skip(k + 1));
        }
        k = k + 1;
    }
    if k == cs.len() {
        proof {
            let w = choose|i: int| 0 <= i < sv.len() && (#[trigger] sv[i]).0 == col@;
            assert(sv[w].0 != col@);
        }
        return string_of(&Vec::new());
    }
    proof {
        assert(sv.skip(k as int)[0] == sv[k as int]);
        assert(first_named(sv, col@) == k);
    }
    let s = cs[k].1;
    let e = cs[k].2;
    let ghost c = sv[k as int];
    let (ind, ms) = members(lines, s, e);
    let ghost mo = members_of(ls, s as int, e as int);
    let target: usize = match ind {
        Some(n) => n,
        None => 2,
    };
    proof {
        let to = if e < ls.len() { e as int } else { ls.len() as int };
        if let Some(n) = mo.0 {
            lemma_first_indent_bound(ls, s + 1, to);
            lemma_member_lines(ls, s + 1, to, n);
            let p = choose|p: int| s + 1 <= p < to && n == lead_spaces(#[trigger] ls[p]);
            assert(lead_spaces(ls[p]) <= isize::MAX);
        }
    }
    let b = shifted(block, target);
    let mut note = chars_of(id);
    crate::text::append(&mut note, &chars_of(" into "));
    crate::text::append(&mut note, &chars_of(col));
    if ms.len() == 0 {
        let out = spliced(lines, s + 1, b);
        crate::text::append(&mut note, &chars_of(", its first entry"));
        *lines = out;
        return string_of(&note);
    }
    let (ai, before) = place(&ms, id);
    proof {
        assert(exec_names(ms@) =~= member_names(mo.1));
    }
    let start = ms[ai].1;
    proof {
        assert(ms@[ai as int].0@ == mo.1[ai as int].0);
        assert(ms@[ai as int].1 == mo.1[ai as int].1);
        assert(mo.1.len() > 0);
        assert(mo.0 is Some);
        assert(mo.1[ai as int].1 < ls.len());
    }
    let pos = if before {
        start
    } else {
        let n = ind.unwrap();
        assert(start < lines.len());
        let j = block_end(lines, start, n, e);
        proof {
            lemma_block_end_unique(ls, start as int, n as nat, e as int, j as int);
        }
        j
    };
    let out = spliced(lines, pos, b);
    crate::text::append(&mut note, &chars_of(", "));
    if before {
        crate::text::append(&mut note, &chars_of("before "));
    } else {
        crate::text::append(&mut note, &chars_of("after "));
    }
    crate::text::append(&mut note, &chars_of(ms[ai].0.as_str()));
    *lines = out;
    string_of(&note)
}

pub proof fn lemma_blank_tail_le(ls: Seq<Seq<char>>)
    ensures
        blank_tail(ls) <= ls.len(),
    decreases ls.len(),
{
    if ls.len() > 0 && trim(ls.last()).len() == 0 {
        lemma_blank_tail_le(ls.drop_last());
    }
}

/// The first indentation of a range is that of one of its lines.
pub proof fn lemma_first_indent_bound(ls: Seq<Seq<char>>, from: int, to: int)
    requires
        0 <= from,
        to <= ls.len(),
    ensures
        first_indent(ls, from, to) matches Some(n) ==> exists|p: int| from <= p < to && n == lead_spaces(#[trigger] ls[p]),
    decreases to - from,
{
    if to > from {
        lemma_first_indent_bound(ls, from, to - 1);
        if first_indent(ls, from, to - 1) is None {
            if !blank(ls[to - 1]) {
                assert(lead_spaces(ls[to - 1]) == lead_spaces(ls[to - 1]));
            }
        }
    }
}


/// The first part of a dotted name.
pub open spec fn first_piece(s: Seq<char>) -> Seq<char> {
    crate::text::split(s, '.')[0]
}

/// A collection that speaks for its name: not `meta`, and no later
/// collection has the same name.
pub open spec fn kept_section(cs: Seq<(Seq<char>, int, int)>, i: int) -> bool {
    &&& 0 <= i < cs.len()
    &&& cs[i].0 != "meta"@
    &&& forall|j: int| i < j < cs.len() ==> (#[trigger] cs[j]).0 != cs[i].0
}

/// The names of the members of collection `i` that hold a dot.
pub open spec fn dotted_member(ls: Seq<Seq<char>>, i: int, m: int) -> bool {
    let c = sections(ls)[i];
    let ms = members_of(ls, c.1, c.2).1;
    0 <= m < ms.len() && ms[m].0.contains('.')
}

pub open spec fn dotted_name(ls: Seq<Seq<char>>, i: int, m: int) -> Seq<char> {
    let c = sections(ls)[i];
    members_of(ls, c.1, c.2).1[m].0
}

/// The file holds dotted member names.
pub open spec fn holds_dotted(ls: Seq<Seq<char>>) -> bool {
    exists|i: int, m: int| kept_section(sections(ls), i) && #[trigger] dotted_member(ls, i, m)
}

/// Every dotted member name of the file starts with `head`.
pub open spec fn all_under(ls: Seq<Seq<char>>, head: Seq<char>) -> bool {
    forall|i: int, m: int|
        kept_section(sections(ls), i) && #[trigger] dotted_member(ls, i, m) ==> first_piece(dotted_name(ls, i, m)) == head
}

/// The file's collection `col` holds a dotted member under `head`.
pub open spec fn col_holds(ls: Seq<Seq<char>>, col: Seq<char>, head: Seq<char>) -> bool {
    exists|i: int, m: int|
        kept_section(sections(ls), i) && sections(ls)[i].0 == col && #[trigger] dotted_member(ls, i, m) && first_piece(
            dotted_name(ls, i, m),
        ) == head
}

/// The first file (of the first `n`) that a predicate picks.
pub open spec fn first_file(n: int, p: spec_fn(int) -> bool) -> Option<int>
    decreases n,
{
    if n <= 0 {
        None
    } else {
        match first_file(n - 1, p) {
            Some(i) => Some(i),
            None => if p(n - 1) {
                Some(n - 1)
            } else {
                None
            },
        }
    }
}

/// A file that settles where `id` goes: it holds `id`, or its collection
/// `col` holds a relative of `id`.
pub open spec fn settles(files: Seq<Seq<Seq<char>>>, id: Seq<char>, col: Seq<char>) -> spec_fn(int) -> bool {
    |f: int| located(files[f], id) is Some || col_holds(files[f], col, first_piece(id))
}

/// A file whose dotted members all stand under `id`'s first part.
pub open spec fn owns(files: Seq<Seq<Seq<char>>>, id: Seq<char>) -> spec_fn(int) -> bool {
    |f: int| holds_dotted(files[f]) && all_under(files[f], first_piece(id))
}

/// A file with a collection `col`.
pub open spec fn opens(files: Seq<Seq<Seq<char>>>, col: Seq<char>) -> spec_fn(int) -> bool {
    |f: int| has_collection(files[f], col)
}

/// A file with any dotted member.
pub open spec fn holds_any(files: Seq<Seq<Seq<char>>>) -> spec_fn(int) -> bool {
    |f: int| holds_dotted(files[f])
}

/// Which of a record's files member `id` of collection `col` belongs in:
/// the first that holds it or whose `col` holds a relative; else the first
/// whose dotted members all stand under the same first part; else the first
/// with the collection; else the first with dotted members; else the first.
pub open spec fn file_for_spec(files: Seq<Seq<Seq<char>>>, id: Seq<char>, col: Seq<char>) -> int {
    let n = files.len() as int;
    match first_file(n, settles(files, id, col)) {
        Some(f) => f,
        None => match first_file(n, owns(files, id)) {
            Some(f) => f,
            None => match first_file(n, opens(files, col)) {
                Some(f) => f,
                None => match first_file(n, holds_any(files)) {
                    Some(f) => f,
                    None => 0,
                },
            },
        },
    }
}

pub open spec fn file_views(files: Seq<Vec<String>>) -> Seq<Seq<Seq<char>>> {
    files.map_values(|f: Vec<String>| line_view(f@))
}

proof fn lemma_first_file_step(n: int, p: spec_fn(int) -> bool)
    requires
        0 <= n,
        first_file(n, p) is None,
    ensures
        first_file(n + 1, p) == if p(n) {
            Some(n)
        } else {
            None::<int>
        },
{
}

proof fn lemma_first_file_kept(n: int, m: int, p: spec_fn(int) -> bool)
    requires
        0 <= n <= m,
        first_file(n, p) is Some,
    ensures
        first_file(m, p) == first_file(n, p),
    decreases m - n,
{
    if n < m {
        lemma_first_file_kept(n, m - 1, p);
    }
}

fn first_piece_of(s: &str) -> (r: Vec<char>)
    ensures
        r@ == first_piece(s@),
{
    let parts = crate::text::split_on(&chars_of(s), '.');
    proof {
        crate::text::lemma_split_nonempty(s@, '.');
    }
    crate::text::slice_range(&parts[0], 0, parts[0].len())
}

/// What one collection says of a file's dotted members: whether it has
/// any, whether all stand under `head`, whether one does.
fn section_dotted(lines: &Vec<String>, i: usize, s: usize, e: usize, head: &Vec<char>) -> (r: (bool, bool, bool))
    requires
        0 <= i < sections(line_view(lines@)).len(),
        sections(line_view(lines@))[i as int].1 == s,
        sections(line_view(lines@))[i as int].2 == e,
    ensures
        r.0 == exists|m: int| #[trigger] dotted_member(line_view(lines@), i as int, m),
        r.1 == forall|m: int|
            #[trigger] dotted_member(line_view(lines@), i as int, m) ==> first_piece(
                dotted_name(line_view(lines@), i as int, m),
            ) == head@,
        r.2 == exists|m: int|
            #[trigger] dotted_member(line_view(lines@), i as int, m) && first_piece(
                dotted_name(line_view(lines@), i as int, m),
            ) == head@,
{
    let ghost ls = line_view(lines@);
    let found = members(lines, s, e);
    let ms = found.1;
    let ghost mv = members_of(ls, s as int, e as int).1;
    assert(ms@.len() == mv.len());
    assert forall|q: int| 0 <= q < mv.len() implies #[trigger] ms@[q].0@ == mv[q].0 && ms@[q].1 == mv[q].1 by {
        assert(found.1@[q].0@ == mv[q].0);
    }
    let mut any = false;
    let mut all = true;
    let mut some = false;
    let mut m: usize = 0;
    while m < ms.len()
        invariant
            0 <= m <= ms.len(),
            ms@.len() == mv.len(),
            mv == members_of(ls, s as int, e as int).1,
            ls == line_view(lines@),
            0 <= i < sections(ls).len(),
            sections(ls)[i as int].1 == s,
            sections(ls)[i as int].2 == e,
            forall|q: int| 0 <= q < mv.len() ==> #[trigger] ms@[q].0@ == mv[q].0 && ms@[q].1 == mv[q].1,
            any == exists|q: int| 0 <= q < m && #[trigger] dotted_member(ls, i as int, q),
            all == forall|q: int|
                0 <= q < m && #[trigger] dotted_member(ls, i as int, q) ==> first_piece(dotted_name(ls, i as int, q))
                    == head@,
            some == exists|q: int|
                0 <= q < m && #[trigger] dotted_member(ls, i as int, q) && first_piece(dotted_name(ls, i as int, q))
                    == head@,
        decreases ms.len() - m,
    {
        let name = chars_of(ms[m].0.as_str());
        assert(name@ == mv[m as int].0);
        let has_dot = crate::text::has_char(&name, '.');
        if has_dot {
            let p = first_piece_of(ms[m].0.as_str());
            let under = crate::text::same(&p, head);
            any = true;
            if under {
                some = true;
            } else {
                all = false;
            }
        }
        proof {
            assert(dotted_member(ls, i as int, m as int) == has_dot);
            assert(dotted_name(ls, i as int, m as int) == name@);
        }
        m = m + 1;
    }
    proof {
        assert forall|q: int| #[trigger] dotted_member(ls, i as int, q) implies 0 <= q < m by {}
    }
    (any, all, some)
}


/// Whether collection `i` is kept: not `meta`, and no later one shares its name.
fn is_kept(cs: &Vec<(String, usize, usize)>, i: usize, sv: Ghost<Seq<(Seq<char>, int, int)>>) -> (r: bool)
    requires
        i < cs@.len(),
        cs@.len() == sv@.len(),
        forall|q: int| 0 <= q < cs@.len() ==> #[trigger] cs@[q].0@ == sv@[q].0,
    ensures
        r == kept_section(sv@, i as int),
{
    if crate::value::text_is(&cs[i].0, "meta") {
        return false;
    }
    assert(i < cs.len());
    let mut j = i + 1;
    while j < cs.len()
        invariant
            i < j <= cs@.len(),
            cs@.len() == sv@.len(),
            forall|q: int| 0 <= q < cs@.len() ==> #[trigger] cs@[q].0@ == sv@[q].0,
            forall|q: int| i < q < j ==> (#[trigger] sv@[q]).0 != sv@[i as int].0,
        decreases cs.len() - j,
    {
        if crate::text::same(&chars_of(cs[j].0.as_str()), &chars_of(cs[i].0.as_str())) {
            assert(sv@[j as int].0 == sv@[i as int].0);
            return false;
        }
        j = j + 1;
    }
    true
}

/// What one file says of where member `id` of collection `col` goes.
fn file_facts(lines: &Vec<String>, id: &str, col: &str, head: &Vec<char>) -> (r: (bool, bool, bool, bool))
    requires
        head@ == first_piece(id@),
    ensures
        r.0 == (located(line_view(lines@), id@) is Some || col_holds(line_view(lines@), col@, head@)),
        r.1 == (holds_dotted(line_view(lines@)) && all_under(line_view(lines@), head@)),
        r.2 == has_collection(line_view(lines@), col@),
        r.3 == holds_dotted(line_view(lines@)),
{
    let ghost ls = line_view(lines@);
    let ghost sv = sections(ls);
    let here = locate(lines, id).is_some();
    let cs = collections(lines);
    let mut any = false;
    let mut all = true;
    let mut hit = false;
    let mut has_col = false;
    let mut i: usize = 0;
    while i < cs.len()
        invariant
            0 <= i <= cs@.len(),
            ls == line_view(lines@),
            sv == sections(ls),
            cs@.len() == sv.len(),
            forall|q: int|
                0 <= q < cs@.len() ==> ({
                    let (n, s, e) = #[trigger] sv[q];
                    cs@[q].0@ == n && cs@[q].1 == s && cs@[q].2 == e
                }),
            has_col == exists|q: int| 0 <= q < i && (#[trigger] sv[q]).0 == col@,
            any == exists|q: int, m: int| 0 <= q < i && kept_section(sv, q) && #[trigger] dotted_member(ls, q, m),
            all == forall|q: int, m: int|
                0 <= q < i && kept_section(sv, q) && #[trigger] dotted_member(ls, q, m) ==> first_piece(
                    dotted_name(ls, q, m),
                ) == head@,
            hit == exists|q: int, m: int|
                0 <= q < i && kept_section(sv, q) && sv[q].0 == col@ && #[trigger] dotted_member(ls, q, m)
                    && first_piece(dotted_name(ls, q, m)) == head@,
        decreases cs.len() - i,
    {
        assert(cs@[i as int].0@ == sv[i as int].0);
        let named = crate::value::text_is(&cs[i].0, col);
        if named {
            has_col = true;
        }
        proof {
            assert forall|q: int| 0 <= q < cs@.len() implies #[trigger] cs@[q].0@ == sv[q].0 by {
                assert(cs@[q].0@ == sv[q].0);
            }
        }
        let kept = is_kept(&cs, i, Ghost(sv));
        if kept {
            let (a, al, so) = section_dotted(lines, i, cs[i].1, cs[i].2, head);
            if a {
                any = true;
            }
            if !al {
                all = false;
            }
            if named && so {
                hit = true;
            }
        }
        i = i + 1;
    }
    proof {
        if any {
            let (q, m) = choose|q: int, m: int| 0 <= q < i && kept_section(sv, q) && #[trigger] dotted_member(ls, q, m);
            assert(kept_section(sections(ls), q) && dotted_member(ls, q, m));
        }
        if hit {
            let (q, m) = choose|q: int, m: int|
                0 <= q < i && kept_section(sv, q) && sv[q].0 == col@ && #[trigger] dotted_member(ls, q, m)
                    && first_piece(dotted_name(ls, q, m)) == head@;
            assert(kept_section(sections(ls), q) && sections(ls)[q].0 == col@ && dotted_member(ls, q, m));
        }
        if has_col {
            let q = choose|q: int| 0 <= q < i && (#[trigger] sv[q]).0 == col@;
            assert(sections(ls)[q].0 == col@);
        }
    }
    (here || hit, any && all, has_col, any)
}

/// Which of a record's files (given by their lines, in order) member `id`
/// of collection `col` belongs in.
pub fn file_for(files: &Vec<Vec<String>>, id: &str, col: &str) -> (r: usize)
    requires
        files@.len() > 0,
    ensures
        r as int == file_for_spec(file_views(files@), id@, col@),
        r < files@.len(),
{
    let ghost fv = file_views(files@);
    let head = first_piece_of(id);
    let mut own: Option<usize> = None;
    let mut opened: Option<usize> = None;
    let mut held: Option<usize> = None;
    let mut f: usize = 0;
    while f < files.len()
        invariant
            0 <= f <= files@.len(),
            fv == file_views(files@),
            fv.len() == files@.len(),
            head@ == first_piece(id@),
            first_file(f as int, settles(fv, id@, col@)) is None,
            match own {
                Some(g) => first_file(f as int, owns(fv, id@)) == Some(g as int) && g < f,
                None => first_file(f as int, owns(fv, id@)) is None,
            },
            match opened {
                Some(g) => first_file(f as int, opens(fv, col@)) == Some(g as int) && g < f,
                None => first_file(f as int, opens(fv, col@)) is None,
            },
            match held {
                Some(g) => first_file(f as int, holds_any(fv)) == Some(g as int) && g < f,
                None => first_file(f as int, holds_any(fv)) is None,
            },
        decreases files.len() - f,
    {
        assert(fv[f as int] == line_view(files@[f as int]@));
        let (settled, owned, opens_col, dotted) = file_facts(&files[f], id, col, &head);
        proof {
            lemma_first_file_step(f as int, settles(fv, id@, col@));
            if own is None {
                lemma_first_file_step(f as int, owns(fv, id@));
            } else {
                lemma_first_file_kept(f as int, f + 1, owns(fv, id@));
            }
            if opened is None {
                lemma_first_file_step(f as int, opens(fv, col@));
            } else {
                lemma_first_file_kept(f as int, f + 1, opens(fv, col@));
            }
            if held is None {
                lemma_first_file_step(f as int, holds_any(fv));
            } else {
                lemma_first_file_kept(f as int, f + 1, holds_any(fv));
            }
        }
        if settled {
            proof {
                lemma_first_file_kept(f + 1, files@.len() as int, settles(fv, id@, col@));
            }
            return f;
        }
        if own.is_none() && owned {
            own = Some(f);
        }
        if opened.is_none() && opens_col {
            opened = Some(f);
        }
        if held.is_none() && dotted {
            held = Some(f);
        }
        f = f + 1;
    }
    match own {
        Some(g) => g,
        None => match opened {
            Some(g) => g,
            None => match held {
                Some(g) => g,
                None => 0,
            },
        },
    }
}


/// The first field named `field` among the fields (members) of the lines
/// `start..end`: their indentation, its line and the end of its block.
pub open spec fn field_span_spec(ls: Seq<Seq<char>>, start: int, end: int, field: Seq<char>) -> Option<(nat, int, int)> {
    let (ind, fs) = members_of(ls, start, end);
    match ind {
        Some(n) => if crate::value::has_key(fs, field) {
            let i = fs[crate::value::key_index(fs, field)].1;
            Some((n, i, block_end_at(ls, i, n, end)))
        } else {
            None
        },
        None => None,
    }
}

/// Where field `field` of the entry on lines `start..end` stands: the
/// fields' indentation, its line, and the end of its block.
pub fn field_span(lines: &Vec<String>, start: usize, end: usize, field: &str) -> (r: Option<(usize, usize, usize)>)
    requires
        end <= lines@.len(),
    ensures
        match r {
            Some((n, i, e)) => field_span_spec(line_view(lines@), start as int, end as int, field@) == Some(
                (n as nat, i as int, e as int),
            ),
            None => field_span_spec(line_view(lines@), start as int, end as int, field@) is None,
        },
        r matches Some((n, i, e)) ==> start < i < e <= end,
{
    let ghost ls = line_view(lines@);
    let found = members(lines, start, end);
    let ind = found.0;
    let fs = found.1;
    let ghost mo = members_of(ls, start as int, end as int);
    proof {
        let to = if end < ls.len() { end as int } else { ls.len() as int };
        if let Some(n) = mo.0 {
            lemma_member_lines(ls, start + 1, to, n);
        }
    }
    let mut m: usize = 0;
    while m < fs.len()
        invariant
            0 <= m <= fs.len(),
            ls == line_view(lines@),
            end <= lines@.len(),
            mo == members_of(ls, start as int, end as int),
            match ind {
                Some(n) => mo.0 == Some(n as nat),
                None => mo.0 is None,
            },
            fs@.len() == mo.1.len(),
            forall|q: int| 0 <= q < mo.1.len() ==> start < #[trigger] mo.1[q].1 < ls.len() && mo.1[q].1 < end,
            forall|q: int| 0 <= q < mo.1.len() ==> #[trigger] fs@[q].0@ == mo.1[q].0 && fs@[q].1 == mo.1[q].1,
            forall|q: int| 0 <= q < m ==> #[trigger] mo.1[q].0 != field@,
        decreases fs.len() - m,
    {
        assert(fs@[m as int].0@ == mo.1[m as int].0);
        if crate::value::text_is(&fs[m].0, field) {
            proof {
                crate::value::lemma_key_index(mo.1, field@, m as int);
            }
            let n = ind.unwrap();
            let i = fs[m].1;
            assert(i < lines.len());
            let e = block_end(lines, i, n, end);
            proof {
                lemma_block_end_unique(ls, i as int, n as nat, end as int, e as int);
            }
            return Some((n, i, e));
        }
        m = m + 1;
    }
    proof {
        crate::value::lemma_no_key(mo.1, field@);
    }
    None
}

/// The lines with the block of field `field` of the entry on lines
/// `start..end` replaced by `new`, or `new` put at `end` where it has no
/// such field; and where the entry now ends.
pub open spec fn replaced_field(ls: Seq<Seq<char>>, start: int, end: int, field: Seq<char>, new: Seq<Seq<char>>) -> (
    Seq<Seq<char>>,
    int,
) {
    let (a, b) = match field_span_spec(ls, start, end, field) {
        Some((_, a, b)) => (a, b),
        None => (end, end),
    };
    (ls.take(a) + new + ls.skip(b), end + new.len() - (b - a))
}

/// Replaces the block of field `field` of the entry on lines `start..end`
/// with `new` (or puts `new` at `end`), and says where the entry now ends.
pub fn replace_field(lines: &mut Vec<String>, start: usize, end: usize, field: &str, new: Vec<String>) -> (next: usize)
    requires
        end <= old(lines)@.len(),
        end + new@.len() <= usize::MAX,
    ensures
        line_view(final(lines)@) == replaced_field(line_view(old(lines)@), start as int, end as int, field@, line_view(new@)).0,
        next as int == replaced_field(line_view(old(lines)@), start as int, end as int, field@, line_view(new@)).1,
{
    let ghost ls = line_view(lines@);
    let (a, b) = match field_span(lines, start, end, field) {
        Some((_, a, b)) => (a, b),
        None => (end, end),
    };
    let next = end + new.len() - (b - a);
    let mut out: Vec<String> = Vec::new();
    let mut i: usize = 0;
    while i < a
        invariant
            0 <= i <= a <= b <= end <= lines@.len(),
            out@.len() == i,
            forall|q: int| 0 <= q < i ==> #[trigger] out@[q]@ == lines@[q]@,
        decreases a - i,
    {
        out.push(string_of(&chars_of(lines[i].as_str())));
        i = i + 1;
    }
    let mut j: usize = 0;
    while j < new.len()
        invariant
            0 <= j <= new@.len(),
            a <= b <= end <= lines@.len(),
            out@.len() == a + j,
            forall|q: int| 0 <= q < a ==> #[trigger] out@[q]@ == lines@[q]@,
            forall|q: int| 0 <= q < j ==> #[trigger] out@[a + q]@ == new@[q]@,
        decreases new.len() - j,
    {
        out.push(string_of(&chars_of(new[j].as_str())));
        j = j + 1;
    }
    let mut k: usize = b;
    while k < lines.len()
        invariant
            a <= b <= k <= lines@.len(),
            out@.len() == a + new@.len() + (k - b),
            forall|q: int| 0 <= q < a ==> #[trigger] out@[q]@ == lines@[q]@,
            forall|q: int| 0 <= q < new@.len() ==> #[trigger] out@[a + q]@ == new@[q]@,
            forall|q: int| b <= q < k ==> #[trigger] out@[a + new@.len() + (q - b)]@ == lines@[q]@,
        decreases lines.len() - k,
    {
        out.push(string_of(&chars_of(lines[k].as_str())));
        k = k + 1;
    }
    proof {
        let want = ls.take(a as int) + line_view(new@) + ls.skip(b as int);
        assert forall|q: int| 0 <= q < out@.len() implies #[trigger] line_view(out@)[q] == want[q] by {
            if q < a {
            } else if q < a + new@.len() {
                assert(out@[a + (q - a)]@ == new@[q - a]@);
            } else {
                let p = q - a - new@.len() + b;
                assert(out@[a + new@.len() + (p - b)]@ == lines@[p]@);
            }
        }
        assert(line_view(out@) =~= want);
    }
    *lines = out;
    next
}


/// Giving a file a collection twice is giving it once: once a file has a
/// collection named by an identifier, it is left as it is.
pub proof fn lemma_ensure_idempotent(ls: Seq<Seq<char>>, name: Seq<char>)
    requires
        identifier(name),
    ensures
        ensured(ensured(ls, name), name) == ensured(ls, name),
{
    lemma_ensured(ls, name);
}


/// A list item that gives a section's title (`- title: ...`): its
/// indentation and the title as written, trimmed.
pub open spec fn title_item(l: Seq<char>) -> Option<(nat, Seq<char>)> {
    let n = lead_spaces(l);
    let a = l.skip(n as int);
    if a.len() > 0 && a[0] == '-' {
        let b = a.skip(1);
        let k = lead_spaces(b);
        let c = b.skip(k as int);
        if k >= 1 && starts_with(c, "title:"@) && c.len() > 6 {
            Some((n, trim(c.skip(6))))
        } else {
            None
        }
    } else {
        None
    }
}

/// A title without the quotes around it; a quoted title whose last
/// character is not ASCII reads as empty.
pub open spec fn unquoted(got: Seq<char>) -> Seq<char> {
    if got.len() > 0 && (got[0] == '\'' || got[0] == '"') {
        if got.len() >= 2 && got.last() <= '\x7f' {
            got.subrange(1, got.len() - 1)
        } else {
            Seq::empty()
        }
    } else {
        got
    }
}

/// The end of the lines below line `j - 1` that are blank or indented deeper
/// than `ind`.
pub open spec fn run_end(ls: Seq<Seq<char>>, j: int, ind: nat) -> int
    decreases ls.len() - j,
{
    if 0 <= j < ls.len() && (trim(ls[j]).len() == 0 || lead_spaces(ls[j]) > ind) {
        run_end(ls, j + 1, ind)
    } else {
        j
    }
}

/// `j` moved back over blank lines, not below `floor`.
pub open spec fn back_off(ls: Seq<Seq<char>>, j: int, floor: int) -> int
    decreases j - floor,
{
    if j > floor && 0 < j <= ls.len() && trim(ls[j - 1]).len() == 0 {
        back_off(ls, j - 1, floor)
    } else {
        j
    }
}

/// The lines of the section item on line `i`, indented `ind`.
pub open spec fn section_end(ls: Seq<Seq<char>>, i: int, ind: nat) -> int {
    back_off(ls, run_end(ls, i + 1, ind), i + 1)
}

/// Line `i` begins the section titled `title`, and the section has a text.
pub open spec fn section_hit(ls: Seq<Seq<char>>, i: int, title: Seq<char>) -> bool {
    match title_item(ls[i]) {
        Some((n, got)) => unquoted(got) == title && field_span_spec(ls, i, section_end(ls, i, n), "text"@) is Some,
        None => false,
    }
}

/// The first section from line `from` on titled `title` that has a text:
/// its first line and the end of its lines.
pub open spec fn section_from(ls: Seq<Seq<char>>, title: Seq<char>, from: int) -> Option<(int, int)>
    decreases ls.len() - from,
{
    if from < 0 || from >= ls.len() {
        None
    } else if section_hit(ls, from, title) {
        Some((from, section_end(ls, from, title_item(ls[from])->Some_0.0)))
    } else {
        section_from(ls, title, from + 1)
    }
}

fn title_of(l: &[char]) -> (r: Option<(usize, Vec<char>)>)
    ensures
        match r {
            Some((n, t)) => title_item(l@) == Some((n as nat, t@)),
            None => title_item(l@) is None,
        },
{
    let n = count_lead_spaces(l);
    let a = slice_range(l, n, l.len());
    assert(a@ =~= l@.skip(n as int));
    if a.len() == 0 || a[0] != '-' {
        return None;
    }
    let b = slice_range(&a, 1, a.len());
    assert(b@ =~= a@.skip(1));
    let k = count_lead_spaces(&b);
    let c = slice_range(&b, k, b.len());
    assert(c@ =~= b@.skip(k as int));
    proof {
        reveal_strlit("title:");
    }
    if k >= 1 && has_prefix(&c, &chars_of("title:")) && c.len() > 6 {
        let rest = slice_range(&c, 6, c.len());
        assert(rest@ =~= c@.skip(6));
        Some((n, trimmed(&rest)))
    } else {
        None
    }
}

fn unquote(got: &Vec<char>) -> (r: Vec<char>)
    ensures
        r@ == unquoted(got@),
{
    if got.len() > 0 && (got[0] == '\'' || got[0] == '"') {
        if got.len() >= 2 && got[got.len() - 1] <= '\x7f' {
            slice_range(got, 1, got.len() - 1)
        } else {
            Vec::new()
        }
    } else {
        slice_range(got, 0, got.len())
    }
}

proof fn lemma_run_end(ls: Seq<Seq<char>>, j: int, ind: nat, e: int)
    requires
        0 <= j <= e <= ls.len(),
        forall|q: int| j <= q < e ==> trim(#[trigger] ls[q]).len() == 0 || lead_spaces(ls[q]) > ind,
        e < ls.len() ==> !(trim(ls[e]).len() == 0 || lead_spaces(ls[e]) > ind),
    ensures
        run_end(ls, j, ind) == e,
    decreases e - j,
{
    if j < e {
        lemma_run_end(ls, j + 1, ind, e);
    }
}

proof fn lemma_back_off(ls: Seq<Seq<char>>, j: int, floor: int, b: int)
    requires
        floor <= b <= j <= ls.len(),
        0 <= floor,
        forall|q: int| b <= q < j ==> trim(#[trigger] ls[q]).len() == 0,
        b > floor ==> trim(ls[b - 1]).len() > 0,
    ensures
        back_off(ls, j, floor) == b,
    decreases j - floor,
{
    if j > b {
        assert(trim(ls[j - 1]).len() == 0);
        lemma_back_off(ls, j - 1, floor, b);
    }
}

/// The first section item titled `title` that has a text, as the lines of a
/// brief file give it: its first line and the end of its lines.
pub fn section_span(lines: &Vec<String>, title: &str) -> (r: Option<(usize, usize)>)
    ensures
        match r {
            Some((a, b)) => section_from(line_view(lines@), title@, 0) == Some((a as int, b as int)),
            None => section_from(line_view(lines@), title@, 0) is None,
        },
{
    let ghost ls = line_view(lines@);
    let cs = line_chars(lines);
    let mut i: usize = 0;
    while i < cs.len()
        invariant
            0 <= i <= cs.len(),
            ls == line_view(lines@),
            cs@.len() == lines@.len(),
            forall|q: int| 0 <= q < lines@.len() ==> #[trigger] cs@[q]@ == lines@[q]@,
            section_from(ls, title@, 0) == section_from(ls, title@, i as int),
        decreases cs.len() - i,
    {
        assert(ls[i as int] == cs@[i as int]@);
        let hit: Option<usize> = match title_of(&cs[i]) {
            Some((ind, got)) => {
                if crate::text::same(&unquote(&got), &chars_of(title)) {
                    let mut j = i + 1;
                    while j < cs.len() && (trimmed(&cs[j]).len() == 0 || count_lead_spaces(&cs[j]) > ind)
                        invariant
                            i + 1 <= j <= cs.len(),
                            ls == line_view(lines@),
                            cs@.len() == lines@.len(),
                            forall|q: int| 0 <= q < lines@.len() ==> #[trigger] cs@[q]@ == lines@[q]@,
                            forall|q: int| i + 1 <= q < j ==> trim(#[trigger] ls[q]).len() == 0 || lead_spaces(ls[q]) > ind,
                        decreases cs.len() - j,
                    {
                        assert(ls[j as int] == cs@[j as int]@);
                        j = j + 1;
                    }
                    proof {
                        if j < cs.len() {
                            assert(ls[j as int] == cs@[j as int]@);
                        }
                        lemma_run_end(ls, i + 1, ind as nat, j as int);
                    }
                    let ghost e = j;
                    while j > i + 1 && trimmed(&cs[j - 1]).len() == 0
                        invariant
                            i + 1 <= j <= e <= cs.len(),
                            ls == line_view(lines@),
                            cs@.len() == lines@.len(),
                            forall|q: int| 0 <= q < lines@.len() ==> #[trigger] cs@[q]@ == lines@[q]@,
                            forall|q: int| j <= q < e ==> trim(#[trigger] ls[q]).len() == 0,
                        decreases j,
                    {
                        assert(ls[j - 1] == cs@[j - 1]@);
                        j = j - 1;
                    }
                    proof {
                        if j > i + 1 {
                            assert(ls[j - 1] == cs@[j - 1]@);
                        }
                        lemma_back_off(ls, e as int, i + 1, j as int);
                    }
                    if field_span(lines, i, j, "text").is_some() {
                        Some(j)
                    } else {
                        None
                    }
                } else {
                    None
                }
            },
            None => None,
        };
        if let Some(j) = hit {
            return Some((i, j));
        }
        i = i + 1;
    }
    None
}

} // verus!
