//! Character-sequence primitives shared by the readers and editors.
use vstd::prelude::*;

verus! {

/// Rust's `char::is_whitespace`: the Unicode `White_Space` property.
pub open spec fn spec_is_whitespace(c: char) -> bool {
    let n = c as u32;
    (0x9 <= n && n <= 0xd) || n == 0x20 || n == 0x85 || n == 0xa0 || n == 0x1680
        || (0x2000 <= n && n <= 0x200a) || n == 0x2028 || n == 0x2029 || n == 0x202f
        || n == 0x205f || n == 0x3000
}

/// Whitespace as the ordinary reader splits words: Unicode whitespace and the
/// four information separators U+001C..U+001F.
pub open spec fn spec_is_separator(c: char) -> bool {
    spec_is_whitespace(c) || (0x1c <= (c as u32) && (c as u32) <= 0x1f)
}

pub open spec fn spec_is_ascii_alpha(c: char) -> bool {
    ('a' <= c && c <= 'z') || ('A' <= c && c <= 'Z')
}

pub open spec fn spec_is_ascii_digit(c: char) -> bool {
    '0' <= c && c <= '9'
}

pub open spec fn spec_is_ascii_alphanumeric(c: char) -> bool {
    spec_is_ascii_alpha(c) || spec_is_ascii_digit(c)
}

pub fn is_whitespace(c: char) -> (r: bool)
    ensures
        r == spec_is_whitespace(c),
{
    let n = c as u32;
    (0x9 <= n && n <= 0xd) || n == 0x20 || n == 0x85 || n == 0xa0 || n == 0x1680 || (0x2000 <= n
        && n <= 0x200a) || n == 0x2028 || n == 0x2029 || n == 0x202f || n == 0x205f || n == 0x3000
}

pub fn is_separator(c: char) -> (r: bool)
    ensures
        r == spec_is_separator(c),
{
    is_whitespace(c) || (0x1c <= (c as u32) && (c as u32) <= 0x1f)
}

pub fn is_ascii_alphanumeric(c: char) -> (r: bool)
    ensures
        r == spec_is_ascii_alphanumeric(c),
{
    ('a' <= c && c <= 'z') || ('A' <= c && c <= 'Z') || ('0' <= c && c <= '9')
}

/// The characters of a string, in order.
pub fn chars_of(s: &str) -> (r: Vec<char>)
    ensures
        r@ == s@,
{
    broadcast use vstd::string::axiom_spec_iter, vstd::string::next_postcondition;
    let mut it = s.chars();
    let mut r: Vec<char> = Vec::new();
    loop
        invariant_except_break
            vstd::std_specs::iter::IteratorSpec::decrease(&it) is Some,
            r@ + vstd::std_specs::iter::IteratorSpec::remaining(&it) == s@,
        ensures
            r@ == s@,
        decreases vstd::std_specs::iter::IteratorSpec::decrease(&it)->0,
    {
        match it.next() {
            Some(c) => {
                proof {
                    assert(r@.push(c) + vstd::std_specs::iter::IteratorSpec::remaining(&it) =~= s@);
                }
                r.push(c);
            },
            None => {
                assert(r@ =~= s@);
                break;
            },
        }
    }
    r
}

/// The string made of the given characters.
#[verifier::external_body]
pub fn string_of(cs: &[char]) -> (r: String)
    ensures
        r@ == cs@,
{
    cs.iter().collect()
}

/// Number of leading characters of `s` that satisfy whitespace.
pub open spec fn lead_ws(s: Seq<char>) -> nat
    decreases s.len(),
{
    if s.len() == 0 || !spec_is_whitespace(s[0]) {
        0
    } else {
        1 + lead_ws(s.drop_first())
    }
}

/// Number of trailing whitespace characters of `s`.
pub open spec fn trail_ws(s: Seq<char>) -> nat
    decreases s.len(),
{
    if s.len() == 0 || !spec_is_whitespace(s.last()) {
        0
    } else {
        1 + trail_ws(s.drop_last())
    }
}

/// Number of leading `' '` characters.
pub open spec fn lead_spaces(s: Seq<char>) -> nat
    decreases s.len(),
{
    if s.len() == 0 || s[0] != ' ' {
        0
    } else {
        1 + lead_spaces(s.drop_first())
    }
}

/// `str::trim_start`.
pub open spec fn trim_start(s: Seq<char>) -> Seq<char> {
    s.skip(lead_ws(s) as int)
}

/// `str::trim_end`.
pub open spec fn trim_end(s: Seq<char>) -> Seq<char> {
    s.take(s.len() - trail_ws(s))
}

/// `str::trim`.
pub open spec fn trim(s: Seq<char>) -> Seq<char> {
    trim_end(trim_start(s))
}

pub open spec fn starts_with(s: Seq<char>, p: Seq<char>) -> bool {
    p.len() <= s.len() && s.take(p.len() as int) == p
}

pub open spec fn ends_with(s: Seq<char>, p: Seq<char>) -> bool {
    p.len() <= s.len() && s.skip(s.len() - p.len()) == p
}

/// Rust's ordering of strings: lexicographic over code points (which is the
/// byte order of their UTF-8 encodings).
pub open spec fn seq_lt(a: Seq<char>, b: Seq<char>) -> bool
    decreases a.len(),
{
    if a.len() == 0 {
        b.len() > 0
    } else if b.len() == 0 {
        false
    } else if a[0] != b[0] {
        a[0] < b[0]
    } else {
        seq_lt(a.drop_first(), b.drop_first())
    }
}

/// `str::split(c)`: the pieces between occurrences of `c`.
pub open spec fn split(s: Seq<char>, c: char) -> Seq<Seq<char>>
    decreases s.len(),
{
    if s.len() == 0 {
        seq![Seq::empty()]
    } else {
        let rest = split(s.drop_first(), c);
        if s[0] == c {
            seq![Seq::<char>::empty()] + rest
        } else {
            rest.update(0, seq![s[0]] + rest[0])
        }
    }
}

/// Pieces joined with a separator between consecutive pieces.
pub open spec fn join(parts: Seq<Seq<char>>, sep: Seq<char>) -> Seq<char>
    decreases parts.len(),
{
    if parts.len() == 0 {
        Seq::empty()
    } else if parts.len() == 1 {
        parts[0]
    } else {
        join(parts.drop_last(), sep) + sep + parts.last()
    }
}

pub proof fn lemma_split_nonempty(s: Seq<char>, c: char)
    ensures
        split(s, c).len() >= 1,
    decreases s.len(),
{
    if s.len() > 0 {
        lemma_split_nonempty(s.drop_first(), c);
    }
}

proof fn lemma_lead_ws_bound(s: Seq<char>)
    ensures
        lead_ws(s) <= s.len(),
        forall|i: int| 0 <= i < lead_ws(s) ==> spec_is_whitespace(#[trigger] s[i]),
        lead_ws(s) < s.len() ==> !spec_is_whitespace(s[lead_ws(s) as int]),
    decreases s.len(),
{
    if s.len() > 0 && spec_is_whitespace(s[0]) {
        lemma_lead_ws_bound(s.drop_first());
        assert forall|i: int| 0 <= i < lead_ws(s) implies spec_is_whitespace(#[trigger] s[i]) by {
            if i > 0 {
                assert(s[i] == s.drop_first()[i - 1]);
            }
        }
    }
}

proof fn lemma_lead_ws_char(s: Seq<char>, k: int)
    requires
        0 <= k <= s.len(),
        forall|i: int| 0 <= i < k ==> spec_is_whitespace(#[trigger] s[i]),
        k == s.len() || !spec_is_whitespace(s[k]),
    ensures
        lead_ws(s) == k,
    decreases s.len(),
{
    if s.len() > 0 && k > 0 {
        assert forall|i: int| 0 <= i < k - 1 implies spec_is_whitespace(#[trigger] s.drop_first()[i]) by {
            assert(s.drop_first()[i] == s[i + 1]);
        }
        lemma_lead_ws_char(s.drop_first(), k - 1);
    }
}

proof fn lemma_trail_ws_char(s: Seq<char>, k: int)
    requires
        0 <= k <= s.len(),
        forall|i: int| s.len() - k <= i < s.len() ==> spec_is_whitespace(#[trigger] s[i]),
        k == s.len() || !spec_is_whitespace(s[s.len() - k - 1]),
    ensures
        trail_ws(s) == k,
    decreases s.len(),
{
    if s.len() > 0 && k > 0 {
        assert(spec_is_whitespace(s[s.len() - 1]));
        assert forall|i: int| s.drop_last().len() - (k - 1) <= i < s.drop_last().len()
            implies spec_is_whitespace(#[trigger] s.drop_last()[i]) by {
            assert(s.drop_last()[i] == s[i]);
        }
        lemma_trail_ws_char(s.drop_last(), k - 1);
    }
}

proof fn lemma_lead_spaces_char(s: Seq<char>, k: int)
    requires
        0 <= k <= s.len(),
        forall|i: int| 0 <= i < k ==> #[trigger] s[i] == ' ',
        k == s.len() || s[k] != ' ',
    ensures
        lead_spaces(s) == k,
    decreases s.len(),
{
    if s.len() > 0 && k > 0 {
        assert forall|i: int| 0 <= i < k - 1 implies #[trigger] s.drop_first()[i] == ' ' by {
            assert(s.drop_first()[i] == s[i + 1]);
        }
        lemma_lead_spaces_char(s.drop_first(), k - 1);
    }
}

pub proof fn lemma_lead_spaces_le(s: Seq<char>)
    ensures
        lead_spaces(s) <= s.len(),
    decreases s.len(),
{
    if s.len() > 0 && s[0] == ' ' {
        lemma_lead_spaces_le(s.drop_first());
    }
}

/// The number of leading spaces of a line (its indentation).
pub fn count_lead_spaces(s: &[char]) -> (n: usize)
    ensures
        n == lead_spaces(s@),
        n <= s@.len(),
{
    let mut i: usize = 0;
    while i < s.len() && s[i] == ' '
        invariant
            0 <= i <= s.len(),
            forall|j: int| 0 <= j < i ==> #[trigger] s@[j] == ' ',
        decreases s.len() - i,
    {
        i = i + 1;
    }
    proof {
        lemma_lead_spaces_char(s@, i as int);
    }
    i
}

/// `str::trim_start`.
pub fn trimmed_start(s: &[char]) -> (r: Vec<char>)
    ensures
        r@ == trim_start(s@),
{
    let mut i: usize = 0;
    while i < s.len() && is_whitespace(s[i])
        invariant
            0 <= i <= s.len(),
            forall|j: int| 0 <= j < i ==> spec_is_whitespace(#[trigger] s@[j]),
        decreases s.len() - i,
    {
        i = i + 1;
    }
    proof {
        lemma_lead_ws_char(s@, i as int);
    }
    slice_range(s, i, s.len())
}

/// `str::trim`.
pub fn trimmed(s: &[char]) -> (r: Vec<char>)
    ensures
        r@ == trim(s@),
{
    let t = trimmed_start(s);
    let mut k: usize = 0;
    while k < t.len() && is_whitespace(t[t.len() - 1 - k])
        invariant
            0 <= k <= t.len(),
            forall|i: int| t@.len() - k <= i < t@.len() ==> spec_is_whitespace(#[trigger] t@[i]),
        decreases t.len() - k,
    {
        k = k + 1;
    }
    proof {
        lemma_trail_ws_char(t@, k as int);
    }
    slice_range(&t, 0, t.len() - k)
}

/// The characters `s[from..to]`.
pub fn slice_range(s: &[char], from: usize, to: usize) -> (r: Vec<char>)
    requires
        from <= to <= s.len(),
    ensures
        r@ == s@.subrange(from as int, to as int),
{
    let mut r: Vec<char> = Vec::new();
    let mut i = from;
    while i < to
        invariant
            from <= i <= to <= s.len(),
            r@ == s@.subrange(from as int, i as int),
        decreases to - i,
    {
        r.push(s[i]);
        i = i + 1;
    }
    r
}

/// Whether two character sequences are equal.
pub fn same(a: &[char], b: &[char]) -> (r: bool)
    ensures
        r == (a@ == b@),
{
    if a.len() != b.len() {
        return false;
    }
    let mut i: usize = 0;
    while i < a.len()
        invariant
            a.len() == b.len(),
            0 <= i <= a.len(),
            forall|j: int| 0 <= j < i ==> a@[j] == b@[j],
        decreases a.len() - i,
    {
        if a[i] != b[i] {
            return false;
        }
        i = i + 1;
    }
    assert(a@ =~= b@);
    true
}

/// Whether `s` starts with `p`.
pub fn has_prefix(s: &[char], p: &[char]) -> (r: bool)
    ensures
        r == starts_with(s@, p@),
{
    if p.len() > s.len() {
        return false;
    }
    let mut i: usize = 0;
    while i < p.len()
        invariant
            p.len() <= s.len(),
            0 <= i <= p.len(),
            forall|j: int| 0 <= j < i ==> s@[j] == p@[j],
        decreases p.len() - i,
    {
        if s[i] != p[i] {
            assert(s@.take(p@.len() as int)[i as int] != p@[i as int]);
            return false;
        }
        i = i + 1;
    }
    assert(s@.take(p@.len() as int) =~= p@);
    true
}

/// Whether `s` ends with `p`.
pub fn has_suffix(s: &[char], p: &[char]) -> (r: bool)
    ensures
        r == ends_with(s@, p@),
{
    if p.len() > s.len() {
        return false;
    }
    let off = s.len() - p.len();
    let mut i: usize = 0;
    while i < p.len()
        invariant
            p.len() <= s.len(),
            off == s.len() - p.len(),
            0 <= i <= p.len(),
            forall|j: int| 0 <= j < i ==> s@[off + j] == p@[j],
        decreases p.len() - i,
    {
        if s[off + i] != p[i] {
            assert(s@.skip(off as int)[i as int] != p@[i as int]);
            return false;
        }
        i = i + 1;
    }
    assert(s@.skip(off as int) =~= p@);
    true
}

/// Whether `c` occurs in `s`.
pub fn has_char(s: &[char], c: char) -> (r: bool)
    ensures
        r == s@.contains(c),
{
    let mut i: usize = 0;
    while i < s.len()
        invariant
            0 <= i <= s.len(),
            forall|j: int| 0 <= j < i ==> s@[j] != c,
        decreases s.len() - i,
    {
        if s[i] == c {
            assert(s@[i as int] == c);
            return true;
        }
        i = i + 1;
    }
    false
}

/// Rust's `<` on strings, over their characters.
pub fn chars_lt(a: &[char], b: &[char]) -> (r: bool)
    ensures
        r == seq_lt(a@, b@),
{
    let mut i: usize = 0;
    proof {
        assert(a@.skip(0) =~= a@);
        assert(b@.skip(0) =~= b@);
    }
    while i < a.len() && i < b.len() && a[i] == b[i]
        invariant
            0 <= i <= a.len(),
            i <= b.len(),
            forall|j: int| 0 <= j < i ==> a@[j] == b@[j],
            seq_lt(a@, b@) == seq_lt(a@.skip(i as int), b@.skip(i as int)),
        decreases a.len() - i,
    {
        proof {
            let sa = a@.skip(i as int);
            let sb = b@.skip(i as int);
            assert(sa.drop_first() =~= a@.skip(i + 1));
            assert(sb.drop_first() =~= b@.skip(i + 1));
        }
        i = i + 1;
    }
    proof {
        let sa = a@.skip(i as int);
        let sb = b@.skip(i as int);
        if i < a.len() && i < b.len() {
            assert(sa[0] == a@[i as int]);
            assert(sb[0] == b@[i as int]);
        }
    }
    if i == a.len() {
        i < b.len()
    } else if i == b.len() {
        false
    } else {
        a[i] < b[i]
    }
}

/// The pieces of `s` between occurrences of `c` (`str::split(c)`).
pub fn split_on(s: &[char], c: char) -> (r: Vec<Vec<char>>)
    ensures
        r@.len() == split(s@, c).len(),
        forall|i: int| 0 <= i < r@.len() ==> #[trigger] r@[i]@ == split(s@, c)[i],
{
    let mut r: Vec<Vec<char>> = Vec::new();
    let mut cur: Vec<char> = Vec::new();
    let mut i: usize = s.len();
    // Build from the end so that each step matches the recursive definition.
    let mut pieces: Vec<Vec<char>> = Vec::new();
    proof {
        assert(s@.skip(s.len() as int) =~= Seq::<char>::empty());
    }
    // pieces (reversed) followed by cur forms split(s.skip(i))
    while i > 0
        invariant
            0 <= i <= s.len(),
            ({
                let sp = split(s@.skip(i as int), c);
                &&& sp.len() == pieces@.len() + 1
                &&& sp[0] == cur@
                &&& forall|k: int|
                    0 <= k < pieces@.len() ==> #[trigger] pieces@[k]@ == sp[sp.len() - 1 - k]
            }),
        decreases i,
    {
        let ghost old_tail = s@.skip(i as int);
        i = i - 1;
        proof {
            assert(s@.skip(i as int).drop_first() =~= old_tail);
            assert(s@.skip(i as int)[0] == s@[i as int]);
        }
        if s[i] == c {
            pieces.push(cur);
            cur = Vec::new();
        } else {
            let mut next: Vec<char> = Vec::new();
            next.push(s[i]);
            let mut k: usize = 0;
            while k < cur.len()
                invariant
                    0 <= k <= cur.len(),
                    next@ == seq![s@[i as int]] + cur@.take(k as int),
                decreases cur.len() - k,
            {
                next.push(cur[k]);
                k = k + 1;
                proof {
                    assert(cur@.take(k as int) =~= cur@.take(k - 1).push(cur@[k - 1]));
                }
            }
            proof {
                assert(cur@.take(cur.len() as int) =~= cur@);
            }
            cur = next;
        }
    }
    proof {
        assert(s@.skip(0) =~= s@);
    }
    let mut k: usize = pieces.len();
    r.push(cur);
    while k > 0
        invariant
            0 <= k <= pieces@.len(),
            ({
                let sp = split(s@, c);
                &&& sp.len() == pieces@.len() + 1
                &&& r@.len() == pieces@.len() - k + 1
                &&& forall|j: int| 0 <= j < r@.len() ==> #[trigger] r@[j]@ == sp[j]
                &&& forall|q: int|
                    0 <= q < pieces@.len() ==> #[trigger] pieces@[q]@ == sp[sp.len() - 1 - q]
            }),
        decreases k,
    {
        k = k - 1;
        let piece = slice_range(&pieces[k], 0, pieces[k].len());
        proof {
            assert(pieces@[k as int]@.subrange(0, pieces@[k as int]@.len() as int) =~= pieces@[k as int]@);
        }
        r.push(piece);
    }
    r
}

/// The character sequences of a list of pieces.
pub open spec fn char_views(parts: Seq<Vec<char>>) -> Seq<Seq<char>> {
    parts.map_values(|p: Vec<char>| p@)
}

/// Pieces joined with `sep` between consecutive pieces (`[..].join(sep)`).
pub fn join_with(parts: &Vec<Vec<char>>, sep: &[char]) -> (r: Vec<char>)
    ensures
        r@ == join(char_views(parts@), sep@),
{
    let ghost ps = char_views(parts@);
    let mut r: Vec<char> = Vec::new();
    let mut i: usize = 0;
    while i < parts.len()
        invariant
            0 <= i <= parts.len(),
            ps == char_views(parts@),
            r@ == join(ps.take(i as int), sep@),
        decreases parts.len() - i,
    {
        if i > 0 {
            append(&mut r, sep);
        }
        append(&mut r, &parts[i]);
        proof {
            assert(ps.take(i + 1).drop_last() =~= ps.take(i as int));
            if i == 0 {
                assert(ps.take(1) =~= seq![parts@[0]@]);
            }
        }
        i = i + 1;
    }
    proof {
        assert(ps.take(parts.len() as int) =~= ps);
    }
    r
}

/// Appends the characters of `t` to `r`.
pub fn append(r: &mut Vec<char>, t: &[char])
    ensures
        final(r)@ == old(r)@ + t@,
{
    let mut i: usize = 0;
    while i < t.len()
        invariant
            0 <= i <= t.len(),
            r@ == old(r)@ + t@.take(i as int),
        decreases t.len() - i,
    {
        r.push(t[i]);
        i = i + 1;
        proof {
            assert(t@.take(i as int) =~= t@.take(i - 1).push(t@[i - 1]));
        }
    }
    proof {
        assert(t@.take(t.len() as int) =~= t@);
    }
}

/// `n` copies of the space character.
pub fn spaces(n: usize) -> (r: Vec<char>)
    ensures
        r@ == Seq::new(n as nat, |i: int| ' '),
{
    let mut r: Vec<char> = Vec::new();
    while r.len() < n
        invariant
            r.len() <= n,
            r@ == Seq::new(r.len() as nat, |i: int| ' '),
        decreases n - r.len(),
    {
        r.push(' ');
    }
    r
}

} // verus!

verus! {

pub open spec fn lead_sep(s: Seq<char>) -> nat
    decreases s.len(),
{
    if s.len() == 0 || !spec_is_separator(s[0]) {
        0
    } else {
        1 + lead_sep(s.drop_first())
    }
}

pub open spec fn trail_sep(s: Seq<char>) -> nat
    decreases s.len(),
{
    if s.len() == 0 || !spec_is_separator(s.last()) {
        0
    } else {
        1 + trail_sep(s.drop_last())
    }
}

/// Trimmed of whitespace and information separators at both ends.
pub open spec fn trim_sep(s: Seq<char>) -> Seq<char> {
    let t = s.skip(lead_sep(s) as int);
    t.take(t.len() - trail_sep(t))
}

proof fn lemma_lead_sep_char(s: Seq<char>, k: int)
    requires
        0 <= k <= s.len(),
        forall|i: int| 0 <= i < k ==> spec_is_separator(#[trigger] s[i]),
        k == s.len() || !spec_is_separator(s[k]),
    ensures
        lead_sep(s) == k,
    decreases s.len(),
{
    if s.len() > 0 && k > 0 {
        assert forall|i: int| 0 <= i < k - 1 implies spec_is_separator(#[trigger] s.drop_first()[i]) by {
            assert(s.drop_first()[i] == s[i + 1]);
        }
        lemma_lead_sep_char(s.drop_first(), k - 1);
    }
}

proof fn lemma_trail_sep_char(s: Seq<char>, k: int)
    requires
        0 <= k <= s.len(),
        forall|i: int| s.len() - k <= i < s.len() ==> spec_is_separator(#[trigger] s[i]),
        k == s.len() || !spec_is_separator(s[s.len() - k - 1]),
    ensures
        trail_sep(s) == k,
    decreases s.len(),
{
    if s.len() > 0 && k > 0 {
        assert(spec_is_separator(s[s.len() - 1]));
        assert forall|i: int| s.drop_last().len() - (k - 1) <= i < s.drop_last().len()
            implies spec_is_separator(#[trigger] s.drop_last()[i]) by {
            assert(s.drop_last()[i] == s[i]);
        }
        lemma_trail_sep_char(s.drop_last(), k - 1);
    }
}

/// Trims whitespace and information separators from both ends.
pub fn trimmed_sep(s: &[char]) -> (r: Vec<char>)
    ensures
        r@ == trim_sep(s@),
{
    let mut i: usize = 0;
    while i < s.len() && is_separator(s[i])
        invariant
            0 <= i <= s.len(),
            forall|j: int| 0 <= j < i ==> spec_is_separator(#[trigger] s@[j]),
        decreases s.len() - i,
    {
        i = i + 1;
    }
    proof {
        lemma_lead_sep_char(s@, i as int);
    }
    let t = slice_range(s, i, s.len());
    assert(t@ =~= s@.skip(i as int));
    let mut k: usize = 0;
    while k < t.len() && is_separator(t[t.len() - 1 - k])
        invariant
            0 <= k <= t.len(),
            forall|q: int| t@.len() - k <= q < t@.len() ==> spec_is_separator(#[trigger] t@[q]),
        decreases t.len() - k,
    {
        k = k + 1;
    }
    proof {
        lemma_trail_sep_char(t@, k as int);
    }
    slice_range(&t, 0, t.len() - k)
}

/// Whether `s` holds the pair `a` `b` somewhere.
pub open spec fn has_pair(s: Seq<char>, a: char, b: char) -> bool {
    exists|i: int| 0 <= i && i + 1 < s.len() && #[trigger] s[i] == a && s[i + 1] == b
}

pub fn holds_pair(s: &[char], a: char, b: char) -> (r: bool)
    ensures
        r == has_pair(s@, a, b),
{
    let mut i: usize = 0;
    while i < s.len() && i + 1 < s.len()
        invariant
            0 <= i <= s.len(),
            forall|j: int| 0 <= j < i && j + 1 < s@.len() ==> !(#[trigger] s@[j] == a && s@[j + 1] == b),
        decreases s.len() - i,
    {
        if s[i] == a && s[i + 1] == b {
            return true;
        }
        i = i + 1;
    }
    false
}


/// Where `c` first stands in `s`, if it does.
pub open spec fn first_at(s: Seq<char>, c: char) -> Option<int>
    decreases s.len(),
{
    if s.len() == 0 {
        None
    } else {
        match first_at(s.drop_last(), c) {
            Some(i) => Some(i),
            None => if s.last() == c {
                Some(s.len() - 1)
            } else {
                None
            },
        }
    }
}

pub proof fn lemma_first_at(s: Seq<char>, c: char, i: int)
    requires
        0 <= i <= s.len(),
        forall|j: int| 0 <= j < i ==> #[trigger] s[j] != c,
        i < s.len() ==> s[i] == c,
    ensures
        first_at(s, c) == if i < s.len() {
            Some(i)
        } else {
            None::<int>
        },
    decreases s.len(),
{
    if s.len() > 0 {
        let d = s.drop_last();
        if i < s.len() - 1 {
            assert forall|j: int| 0 <= j < i implies #[trigger] d[j] != c by {
                assert(d[j] == s[j]);
            }
            assert(d[i] == s[i]);
            lemma_first_at(d, c, i);
        } else {
            assert forall|j: int| 0 <= j < d.len() implies #[trigger] d[j] != c by {
                assert(d[j] == s[j]);
            }
            lemma_first_at(d, c, d.len() as int);
        }
    }
}

/// Where `c` first stands in `s` (`str::find`).
pub fn position_of(s: &[char], c: char) -> (r: Option<usize>)
    ensures
        match r {
            Some(i) => first_at(s@, c) == Some(i as int) && i < s@.len() && s@[i as int] == c,
            None => first_at(s@, c) is None,
        },
{
    let mut i: usize = 0;
    while i < s.len() && s[i] != c
        invariant
            0 <= i <= s.len(),
            forall|j: int| 0 <= j < i ==> #[trigger] s@[j] != c,
        decreases s.len() - i,
    {
        i = i + 1;
    }
    proof {
        lemma_first_at(s@, c, i as int);
    }
    if i < s.len() {
        Some(i)
    } else {
        None
    }
}

/// No text sorts below itself.
pub proof fn lemma_seq_lt_irreflexive(a: Seq<char>)
    ensures
        !seq_lt(a, a),
    decreases a.len(),
{
    if a.len() > 0 {
        lemma_seq_lt_irreflexive(a.drop_first());
    }
}

/// Sorting below is transitive.
pub proof fn lemma_seq_lt_transitive(a: Seq<char>, b: Seq<char>, c: Seq<char>)
    requires
        seq_lt(a, b),
        seq_lt(b, c),
    ensures
        seq_lt(a, c),
    decreases a.len(),
{
    if a.len() > 0 && b.len() > 0 && c.len() > 0 {
        if a[0] == b[0] && b[0] == c[0] {
            lemma_seq_lt_transitive(a.drop_first(), b.drop_first(), c.drop_first());
        }
    }
}

/// Of two different texts, one sorts below the other.
pub proof fn lemma_seq_lt_total(a: Seq<char>, b: Seq<char>)
    requires
        a != b,
    ensures
        seq_lt(a, b) || seq_lt(b, a),
    decreases a.len(),
{
    if a.len() > 0 && b.len() > 0 && a[0] == b[0] {
        if a.drop_first() == b.drop_first() {
            assert(a =~= seq![a[0]] + a.drop_first());
            assert(b =~= seq![b[0]] + b.drop_first());
        }
        lemma_seq_lt_total(a.drop_first(), b.drop_first());
    } else if a.len() == 0 && b.len() == 0 {
        assert(a =~= b);
    } else if a.len() > 0 && b.len() > 0 {
        assert(a[0] != b[0]);
    }
}
} // verus!
