//! The page a record is shown on: its tabs and sections as the brief lays
//! them out, which entries each selector picks, and the escaping of what it
//! writes into HTML and links.
use vstd::prelude::*;
use crate::python::{py, py_str};
use crate::tally::{add_sorted, lemma_add_key_contains, lemma_add_key_sorted, name_set, sorted_names};
use crate::text::{char_views, chars_of, spec_is_ascii_alphanumeric, string_of};
use crate::value::{Error, Model, Value, entries, field, field_of, lemma_entries, lemma_models, model, models, truth, truthy};

verus! {

broadcast use vstd::std_specs::vec::group_vec_axioms;

/// One character as HTML text, or as an attribute value.
pub open spec fn esc_char(c: char, attribute: bool) -> Seq<char> {
    if c == '&' {
        "&amp;"@
    } else if c == '<' {
        "&lt;"@
    } else if c == '>' {
        "&gt;"@
    } else if c == '"' && attribute {
        "&quot;"@
    } else if c == '\'' && attribute {
        "&#x27;"@
    } else {
        seq![c]
    }
}

pub open spec fn esc_spec(s: Seq<char>, attribute: bool) -> Seq<char>
    decreases s.len(),
{
    if s.len() == 0 {
        Seq::empty()
    } else {
        esc_spec(s.drop_last(), attribute) + esc_char(s.last(), attribute)
    }
}

/// Escapes text for HTML: `&`, `<` and `>`, and in an attribute also the
/// quotes.
pub fn esc(value: &str, attribute: bool) -> (r: String)
    ensures
        r@ == esc_spec(value@, attribute),
{
    let cs = chars_of(value);
    let mut out: Vec<char> = Vec::new();
    let mut i: usize = 0;
    while i < cs.len()
        invariant
            0 <= i <= cs.len(),
            cs@ == value@,
            out@ == esc_spec(cs@.take(i as int), attribute),
        decreases cs.len() - i,
    {
        let c = cs[i];
        proof {
            assert(cs@.take(i + 1).drop_last() =~= cs@.take(i as int));
            assert(cs@.take(i + 1).last() == c);
        }
        if c == '&' {
            crate::text::append(&mut out, &chars_of("&amp;"));
        } else if c == '<' {
            crate::text::append(&mut out, &chars_of("&lt;"));
        } else if c == '>' {
            crate::text::append(&mut out, &chars_of("&gt;"));
        } else if c == '"' && attribute {
            crate::text::append(&mut out, &chars_of("&quot;"));
        } else if c == '\'' && attribute {
            crate::text::append(&mut out, &chars_of("&#x27;"));
        } else {
            out.push(c);
        }
        i = i + 1;
    }
    proof {
        assert(cs@.take(cs.len() as int) =~= cs@);
    }
    string_of(&out)
}

/// The UTF-8 bytes of a character.
pub open spec fn utf8(c: char) -> Seq<u8> {
    let n = c as u32;
    if n < 0x80 {
        seq![n as u8]
    } else if n < 0x800 {
        seq![(0xC0 + n / 64) as u8, (0x80 + n % 64) as u8]
    } else if n < 0x10000 {
        seq![(0xE0 + n / 4096) as u8, (0x80 + (n / 64) % 64) as u8, (0x80 + n % 64) as u8]
    } else {
        seq![
            (0xF0 + n / 262144) as u8,
            (0x80 + (n / 4096) % 64) as u8,
            (0x80 + (n / 64) % 64) as u8,
            (0x80 + n % 64) as u8,
        ]
    }
}

pub open spec fn utf8_all(s: Seq<char>) -> Seq<u8>
    decreases s.len(),
{
    if s.len() == 0 {
        Seq::empty()
    } else {
        utf8_all(s.drop_last()) + utf8(s.last())
    }
}

pub(crate) fn utf8_of(c: char) -> (r: Vec<u8>)
    ensures
        r@ == utf8(c),
{
    let n = c as u32;
    let mut out: Vec<u8> = Vec::new();
    if n < 0x80 {
        out.push(n as u8);
    } else if n < 0x800 {
        out.push((0xC0 + n / 64) as u8);
        out.push((0x80 + n % 64) as u8);
    } else if n < 0x10000 {
        out.push((0xE0 + n / 4096) as u8);
        out.push((0x80 + (n / 64) % 64) as u8);
        out.push((0x80 + n % 64) as u8);
    } else {
        assert(n <= 0x10FFFF);
        out.push((0xF0 + n / 262144) as u8);
        out.push((0x80 + (n / 4096) % 64) as u8);
        out.push((0x80 + (n / 64) % 64) as u8);
        out.push((0x80 + n % 64) as u8);
    }
    assert(out@ =~= utf8(c));
    out
}

/// The uppercase hexadecimal digit of `d`.
pub open spec fn hex_upper(d: u8) -> char {
    if d < 10 {
        ((d + 48) as u8) as char
    } else {
        ((d + 55) as u8) as char
    }
}

/// A byte kept as it is in a URL, given the extra characters `safe`.
pub open spec fn url_safe(b: u8, full: bool) -> bool {
    let c = b as char;
    (b < 128 && spec_is_ascii_alphanumeric(c)) || "/.-_~"@.contains(c) || (full
        && "%:@!$&'()*+,;=?#[]"@.contains(c))
}

/// One byte of a URL: as it is, or percent-encoded in uppercase.
pub open spec fn url_byte(b: u8, full: bool) -> Seq<char> {
    if url_safe(b, full) {
        seq![b as char]
    } else {
        seq!['%', hex_upper(b / 16), hex_upper(b % 16)]
    }
}

pub open spec fn url_bytes(bs: Seq<u8>, full: bool) -> Seq<char>
    decreases bs.len(),
{
    if bs.len() == 0 {
        Seq::empty()
    } else {
        url_bytes(bs.drop_last(), full) + url_byte(bs.last(), full)
    }
}

pub(crate) proof fn lemma_utf8_all_push(s: Seq<char>, c: char)
    ensures
        utf8_all(s.push(c)) == utf8_all(s) + utf8(c),
{
    assert(s.push(c).drop_last() =~= s);
}

proof fn lemma_url_bytes_append(a: Seq<u8>, b: Seq<u8>, full: bool)
    ensures
        url_bytes(a + b, full) == url_bytes(a, full) + url_bytes(b, full),
    decreases b.len(),
{
    if b.len() == 0 {
        assert(a + b =~= a);
    } else {
        lemma_url_bytes_append(a, b.drop_last(), full);
        assert((a + b).drop_last() =~= a + b.drop_last());
        assert((a + b).last() == b.last());
    }
}

fn is_url_safe(b: u8, full: bool) -> (r: bool)
    ensures
        r == url_safe(b, full),
{
    let c = b as char;
    proof {
        reveal_strlit("/.-_~");
        reveal_strlit("%:@!$&'()*+,;=?#[]");
    }
    let base = (b < 128 && crate::text::is_ascii_alphanumeric(c)) || c == '/' || c == '.' || c == '-' || c
        == '_' || c == '~';
    let extra = c == '%' || c == ':' || c == '@' || c == '!' || c == '$' || c == '&' || c == '\'' || c
        == '(' || c == ')' || c == '*' || c == '+' || c == ',' || c == ';' || c == '=' || c == '?' || c
        == '#' || c == '[' || c == ']';
    proof {
        let s1 = "/.-_~"@;
        let s2 = "%:@!$&'()*+,;=?#[]"@;
        if s1.contains(c) {
            let i = choose|i: int| 0 <= i < s1.len() && s1[i] == c;
            assert(c == '/' || c == '.' || c == '-' || c == '_' || c == '~');
        }
        if c == '/' { assert(s1[0] == c); }
        if c == '.' { assert(s1[1] == c); }
        if c == '-' { assert(s1[2] == c); }
        if c == '_' { assert(s1[3] == c); }
        if c == '~' { assert(s1[4] == c); }
        if s2.contains(c) {
            let i = choose|i: int| 0 <= i < s2.len() && s2[i] == c;
            assert(extra);
        }
        if c == '%' { assert(s2[0] == c); }
        if c == ':' { assert(s2[1] == c); }
        if c == '@' { assert(s2[2] == c); }
        if c == '!' { assert(s2[3] == c); }
        if c == '$' { assert(s2[4] == c); }
        if c == '&' { assert(s2[5] == c); }
        if c == '\'' { assert(s2[6] == c); }
        if c == '(' { assert(s2[7] == c); }
        if c == ')' { assert(s2[8] == c); }
        if c == '*' { assert(s2[9] == c); }
        if c == '+' { assert(s2[10] == c); }
        if c == ',' { assert(s2[11] == c); }
        if c == ';' { assert(s2[12] == c); }
        if c == '=' { assert(s2[13] == c); }
        if c == '?' { assert(s2[14] == c); }
        if c == '#' { assert(s2[15] == c); }
        if c == '[' { assert(s2[16] == c); }
        if c == ']' { assert(s2[17] == c); }
    }
    base || (full && extra)
}

pub(crate) fn hex_digit_upper(d: u8) -> (c: char)
    requires
        d < 16,
    ensures
        c == hex_upper(d),
{
    if d < 10 {
        (d + 48) as char
    } else {
        (d + 55) as char
    }
}

/// Percent-encodes the bytes of `value` that a URL path (or, with `full`, a
/// whole URL) does not keep as they are.
pub fn url_encode(value: &str, full: bool) -> (r: String)
    ensures
        r@ == url_bytes(utf8_all(value@), full),
{
    let cs = chars_of(value);
    let mut out: Vec<char> = Vec::new();
    let mut i: usize = 0;
    while i < cs.len()
        invariant
            0 <= i <= cs.len(),
            cs@ == value@,
            out@ == url_bytes(utf8_all(cs@.take(i as int)), full),
        decreases cs.len() - i,
    {
        let bytes = utf8_of(cs[i]);
        let ghost before = out@;
        let mut k: usize = 0;
        while k < bytes.len()
            invariant
                0 <= k <= bytes.len(),
                out@ == before + url_bytes(bytes@.take(k as int), full),
            decreases bytes.len() - k,
        {
            let b = bytes[k];
            proof {
                assert(bytes@.take(k + 1).drop_last() =~= bytes@.take(k as int));
            }
            if is_url_safe(b, full) {
                out.push(b as char);
            } else {
                out.push('%');
                out.push(hex_digit_upper(b / 16));
                out.push(hex_digit_upper(b % 16));
            }
            k = k + 1;
        }
        proof {
            assert(bytes@.take(bytes.len() as int) =~= bytes@);
            assert(cs@.take(i + 1) =~= cs@.take(i as int).push(cs@[i as int]));
            lemma_utf8_all_push(cs@.take(i as int), cs@[i as int]);
            lemma_url_bytes_append(utf8_all(cs@.take(i as int)), utf8(cs@[i as int]), full);
        }
        i = i + 1;
    }
    proof {
        assert(cs@.take(cs.len() as int) =~= cs@);
    }
    string_of(&out)
}

/// A path for a link, percent-encoded.
pub fn url_path(value: &str) -> (r: String)
    ensures
        r@ == url_bytes(utf8_all(value@), false),
{
    url_encode(value, false)
}

/// A whole URL, percent-encoded where it needs to be.
pub fn url_full(value: &str) -> (r: String)
    ensures
        r@ == url_bytes(utf8_all(value@), true),
{
    url_encode(value, true)
}

} // verus!

verus! {

/// How the page writes a value: a text as it is, anything else as Python
/// would print it.
pub open spec fn textish(m: Model) -> Seq<char> {
    py_str(m)
}

pub open spec fn textish_all(xs: Seq<Model>) -> Seq<Seq<char>>
    decreases xs.len(),
{
    if xs.len() == 0 {
        Seq::empty()
    } else {
        textish_all(xs.drop_last()).push(textish(xs.last()))
    }
}

/// A field written as text, or nothing where the mapping lacks it.
pub open spec fn field_text(m: Model, k: Seq<char>) -> Seq<char> {
    if crate::value::has_key(crate::value::map_entries(m), k) {
        textish(field_of(m, k))
    } else {
        Seq::empty()
    }
}

/// What a selector field names: each item of a list, or a single truthy
/// value, written as text.
pub open spec fn selectors_spec(v: Option<Model>) -> Seq<Seq<char>> {
    match v {
        Some(Model::List(xs)) => textish_all(xs),
        Some(m) => if truthy(m) {
            seq![textish(m)]
        } else {
            Seq::empty()
        },
        None => Seq::empty(),
    }
}

pub open spec fn field_opt(m: Model, k: Seq<char>) -> Option<Model> {
    crate::value::lookup(crate::value::map_entries(m), k)
}

/// A section of a tab.
#[derive(Debug)]
pub struct Section {
    pub title: String,
    pub why_: String,
    pub text: String,
    pub pick: Vec<String>,
    pub kind: String,
    pub by: String,
}

/// A tab of the page.
#[derive(Debug)]
pub struct Tab {
    pub key: String,
    pub title: String,
    pub occasion: String,
    pub intent: String,
    pub serves: Vec<String>,
    pub bare: bool,
    pub shape: Vec<(String, Value)>,
    pub sections: Vec<Section>,
}

pub struct SectionModel {
    pub title: Seq<char>,
    pub why_: Seq<char>,
    pub text: Seq<char>,
    pub pick: Seq<Seq<char>>,
    pub kind: Seq<char>,
    pub by: Seq<char>,
}

pub struct TabModel {
    pub key: Seq<char>,
    pub title: Seq<char>,
    pub occasion: Seq<char>,
    pub intent: Seq<char>,
    pub serves: Seq<Seq<char>>,
    pub bare: bool,
    pub shape: Seq<(Seq<char>, Model)>,
    pub sections: Seq<SectionModel>,
}

pub open spec fn strings(v: Seq<String>) -> Seq<Seq<char>> {
    v.map_values(|s: String| s@)
}

impl View for Section {
    type V = SectionModel;

    open spec fn view(&self) -> SectionModel {
        SectionModel {
            title: self.title@,
            why_: self.why_@,
            text: self.text@,
            pick: strings(self.pick@),
            kind: self.kind@,
            by: self.by@,
        }
    }
}

pub open spec fn section_views(v: Seq<Section>) -> Seq<SectionModel> {
    v.map_values(|s: Section| s@)
}

impl View for Tab {
    type V = TabModel;

    open spec fn view(&self) -> TabModel {
        TabModel {
            key: self.key@,
            title: self.title@,
            occasion: self.occasion@,
            intent: self.intent@,
            serves: strings(self.serves@),
            bare: self.bare,
            shape: entries(self.shape@),
            sections: section_views(self.sections@),
        }
    }
}

pub open spec fn tab_views(v: Seq<Tab>) -> Seq<TabModel> {
    v.map_values(|t: Tab| t@)
}

/// A section as a brief writes it.
pub open spec fn section_of(m: Model) -> SectionModel {
    SectionModel {
        title: field_text(m, "title"@),
        why_: field_text(m, "why"@),
        text: field_text(m, "text"@),
        pick: selectors_spec(field_opt(m, "pick"@)),
        kind: field_text(m, "as"@),
        by: field_text(m, "by"@),
    }
}

/// The sections among a list's items: those that are mappings.
pub open spec fn sections_of(xs: Seq<Model>) -> Seq<SectionModel>
    decreases xs.len(),
{
    if xs.len() == 0 {
        Seq::empty()
    } else if xs.last() is Mapping {
        sections_of(xs.drop_last()).push(section_of(xs.last()))
    } else {
        sections_of(xs.drop_last())
    }
}

/// A field that is a list, by its items (none otherwise).
pub open spec fn list_items(m: Model, k: Seq<char>) -> Seq<Model> {
    match field_opt(m, k) {
        Some(Model::List(xs)) => xs,
        _ => Seq::empty(),
    }
}

/// A field that is a mapping, by its entries (none otherwise).
pub open spec fn map_items(m: Model, k: Seq<char>) -> Seq<(Seq<char>, Model)> {
    match field_opt(m, k) {
        Some(Model::Mapping(es)) => es,
        _ => Seq::empty(),
    }
}

/// The decimal digits of a number.
pub open spec fn decimal(n: nat) -> Seq<char>
    decreases n,
{
    if n < 10 {
        seq![((n + 48) as u8) as char]
    } else {
        decimal(n / 10).push((((n % 10) + 48) as u8) as char)
    }
}

/// The key of the tab that comes after `n` tabs.
pub open spec fn tab_key(n: nat) -> Seq<char> {
    if n == 0 {
        "now"@
    } else {
        "now"@ + decimal(n + 1)
    }
}

/// The tab the brief's own sections make.
pub open spec fn now_tab(brief: Model) -> TabModel {
    TabModel {
        key: "now"@,
        title: Seq::empty(),
        occasion: Seq::empty(),
        intent: field_text(brief, "intent"@),
        serves: Seq::empty(),
        bare: true,
        shape: map_items(brief, "shape"@),
        sections: sections_of(list_items(brief, "sections"@)),
    }
}

/// A declared tab, after `n` others.
pub open spec fn declared_tab(t: Model, n: nat) -> TabModel {
    TabModel {
        key: tab_key(n),
        title: field_text(t, "title"@),
        occasion: field_text(t, "occasion"@),
        intent: Seq::empty(),
        serves: selectors_spec(field_opt(t, "serves"@)),
        bare: false,
        shape: map_items(t, "shape"@),
        sections: sections_of(list_items(t, "sections"@)),
    }
}

/// The declared tabs among `ts`, after `before` others.
pub open spec fn declared_tabs(ts: Seq<Model>, before: nat) -> Seq<TabModel>
    decreases ts.len(),
{
    if ts.len() == 0 {
        Seq::empty()
    } else {
        let prev = declared_tabs(ts.drop_last(), before);
        if ts.last() is Mapping {
            prev.push(declared_tab(ts.last(), before + prev.len()))
        } else {
            prev
        }
    }
}

/// The tabs a brief lays out: the tab of its own sections, where it has
/// sections or no tabs, then each of its tabs.
pub open spec fn brief_tabs(brief: Model) -> Seq<TabModel> {
    let own = list_items(brief, "sections"@).len() > 0 || !truthy(
        match field_opt(brief, "tabs"@) {
            Some(v) => v,
            None => Model::Null,
        },
    );
    let first: Seq<TabModel> = if own {
        seq![now_tab(brief)]
    } else {
        Seq::empty()
    };
    first + declared_tabs(list_items(brief, "tabs"@), first.len())
}

/// The brief as the page reads it, with its tabs: no brief gives no tabs;
/// a falsy brief reads as an empty mapping; a truthy one must be a mapping.
pub open spec fn parsed_brief(brief: Option<Model>) -> Result<(Seq<(Seq<char>, Model)>, Seq<TabModel>), ()> {
    match brief {
        None => Ok((Seq::empty(), Seq::empty())),
        Some(b) => if truthy(b) && b !is Mapping {
            Err(())
        } else {
            let m = if truthy(b) {
                b
            } else {
                Model::Mapping(Seq::empty())
            };
            Ok((m->Mapping_0, brief_tabs(m)))
        },
    }
}

} // verus!

verus! {

/// A value written as the page writes it.
pub fn textish_of(v: &Value) -> (r: String)
    ensures
        r@ == textish(v@),
{
    string_of(&py(v))
}

/// A field of a mapping written as text, or nothing where it lacks one.
fn field_text_of(m: &Value, k: &str) -> (r: String)
    ensures
        r@ == field_text(m@, k@),
{
    match field(m, k) {
        Some(v) => textish_of(v),
        None => string_of(&Vec::new()),
    }
}

/// The selectors a field names.
pub fn selectors(v: Option<&Value>) -> (r: Vec<String>)
    ensures
        strings(r@) == selectors_spec(
            match v {
                Some(x) => Some(x@),
                None => None,
            },
        ),
{
    let mut out: Vec<String> = Vec::new();
    match v {
        Some(Value::List(xs)) => {
            proof {
                lemma_models(xs@);
            }
            let ghost ms = models(xs@);
            let mut i: usize = 0;
            while i < xs.len()
                invariant
                    0 <= i <= xs.len(),
                    ms == models(xs@),
                    ms.len() == xs@.len(),
                    forall|q: int| 0 <= q < xs@.len() ==> #[trigger] ms[q] == model(xs@[q]),
                    strings(out@) == textish_all(ms.take(i as int)),
                decreases xs.len() - i,
            {
                let t = textish_of(&xs[i]);
                let ghost before = out@;
                out.push(t);
                proof {
                    assert(ms.take(i + 1).drop_last() =~= ms.take(i as int));
                    assert(strings(out@) =~= strings(before).push(t@));
                }
                i = i + 1;
            }
            proof {
                assert(ms.take(xs.len() as int) =~= ms);
            }
        },
        Some(x) => {
            if truth(x) {
                out.push(textish_of(x));
                proof {
                    assert(strings(out@) =~= seq![textish(x@)]);
                }
            } else {
                assert(strings(out@) =~= Seq::<Seq<char>>::empty());
            }
        },
        None => {
            assert(strings(out@) =~= Seq::<Seq<char>>::empty());
        },
    }
    out
}

/// A section as a brief writes it.
fn section(m: &Value) -> (r: Section)
    ensures
        r@ == section_of(m@),
{
    Section {
        title: field_text_of(m, "title"),
        why_: field_text_of(m, "why"),
        text: field_text_of(m, "text"),
        pick: selectors(field(m, "pick")),
        kind: field_text_of(m, "as"),
        by: field_text_of(m, "by"),
    }
}

/// The sections among a list's items.
pub fn parse_sections(values: &[Value]) -> (r: Vec<Section>)
    ensures
        section_views(r@) == sections_of(models(values@)),
{
    proof {
        lemma_models(values@);
    }
    let ghost ms = models(values@);
    let mut out: Vec<Section> = Vec::new();
    let mut i: usize = 0;
    while i < values.len()
        invariant
            0 <= i <= values.len(),
            ms == models(values@),
            ms.len() == values@.len(),
            forall|q: int| 0 <= q < values@.len() ==> #[trigger] ms[q] == model(values@[q]),
            section_views(out@) == sections_of(ms.take(i as int)),
        decreases values.len() - i,
    {
        proof {
            assert(ms.take(i + 1).drop_last() =~= ms.take(i as int));
            assert(ms.take(i + 1).last() == model(values@[i as int]));
        }
        if let Value::Mapping(_) = &values[i] {
            let sec = section(&values[i]);
            let ghost before = out@;
            out.push(sec);
            proof {
                assert(section_views(out@) =~= section_views(before).push(sec@));
            }
        }
        i = i + 1;
    }
    proof {
        assert(ms.take(values.len() as int) =~= ms);
    }
    out
}

/// The decimal digits of a number.
pub fn decimal_of(n: usize) -> (r: Vec<char>)
    ensures
        r@ == decimal(n as nat),
    decreases n,
{
    if n < 10 {
        let mut out: Vec<char> = Vec::new();
        out.push(((n as u8) + 48) as char);
        out
    } else {
        let mut out = decimal_of(n / 10);
        out.push((((n % 10) as u8) + 48) as char);
        out
    }
}

/// The decimal digits of the number after `n`.
pub fn decimal_succ(n: usize) -> (r: Vec<char>)
    ensures
        r@ == decimal(n as nat + 1),
    decreases n,
{
    if n < 9 {
        let mut out: Vec<char> = Vec::new();
        out.push(((n as u8) + 49) as char);
        out
    } else {
        let last = n % 10;
        let mut out = if last == 9 {
            decimal_succ(n / 10)
        } else {
            decimal_of(n / 10)
        };
        let d: u8 = if last == 9 {
            0
        } else {
            (last as u8) + 1
        };
        out.push((d + 48) as char);
        proof {
            let m = n as nat + 1;
            if last == 9 {
                assert(m / 10 == n / 10 + 1);
                assert(m % 10 == 0);
            } else {
                assert(m / 10 == n / 10);
                assert(m % 10 == last + 1);
            }
        }
        out
    }
}

fn list_of<'a>(m: &'a Value, k: &str) -> (r: &'a [Value])
    ensures
        models(r@) == list_items(m@, k@),
{
    match field(m, k) {
        Some(Value::List(xs)) => xs.as_slice(),
        _ => {
            proof {
                lemma_models(Seq::<Value>::empty());
            }
            assert(models(Seq::<Value>::empty()) =~= Seq::<Model>::empty());
            &[]
        },
    }
}

fn map_of(m: &Value, k: &str) -> (r: Vec<(String, Value)>)
    ensures
        entries(r@) == map_items(m@, k@),
{
    match field(m, k) {
        Some(Value::Mapping(es)) => crate::value::copy_entries(es),
        _ => {
            let out: Vec<(String, Value)> = Vec::new();
            assert(entries(out@) =~= Seq::<(Seq<char>, Model)>::empty());
            out
        },
    }
}

/// The brief as the page reads it, with the tabs it lays out. A brief that
/// is not a mapping (and not falsy) is refused.
pub fn parse_brief(brief: Option<&Value>) -> (r: Result<(Vec<(String, Value)>, Vec<Tab>), Error>)
    ensures
        match r {
            Ok((m, tabs)) => parsed_brief(
                match brief {
                    Some(b) => Some(b@),
                    None => None,
                },
            ) == Ok::<(Seq<(Seq<char>, Model)>, Seq<TabModel>), ()>((entries(m@), tab_views(tabs@))),
            Err(e) => parsed_brief(
                match brief {
                    Some(b) => Some(b@),
                    None => None,
                },
            ) is Err && e.0@ == "expected_mapping"@,
        },
{
    let b = match brief {
        None => {
            let m: Vec<(String, Value)> = Vec::new();
            let tabs: Vec<Tab> = Vec::new();
            assert(entries(m@) =~= Seq::<(Seq<char>, Model)>::empty());
            assert(tab_views(tabs@) =~= Seq::<TabModel>::empty());
            return Ok((m, tabs));
        },
        Some(b) => b,
    };
    let empty = Value::Mapping(Vec::new());
    let doc: &Value = if truth(b) {
        match b {
            Value::Mapping(_) => b,
            _ => return Err(crate::fields::error("expected_mapping")),
        }
    } else {
        &empty
    };
    proof {
        assert(entries(Seq::<(String, Value)>::empty()) =~= Seq::<(Seq<char>, Model)>::empty());
    }
    let mut tabs: Vec<Tab> = Vec::new();
    let own_sections = list_of(doc, "sections");
    let has_tabs = match field(doc, "tabs") {
        Some(v) => truth(v),
        None => false,
    };
    if own_sections.len() > 0 || !has_tabs {
        let t = Tab {
            key: string_of(&chars_of("now")),
            title: string_of(&Vec::new()),
            occasion: string_of(&Vec::new()),
            intent: field_text_of(doc, "intent"),
            serves: Vec::new(),
            bare: true,
            shape: map_of(doc, "shape"),
            sections: parse_sections(own_sections),
        };
        proof {
            assert(strings(t.serves@) =~= Seq::<Seq<char>>::empty());
        }
        tabs.push(t);
    }
    let ghost first = tab_views(tabs@);
    proof {
        assert(first.len() == tabs@.len());
        let own = list_items(doc@, "sections"@).len() > 0 || !truthy(
            match field_opt(doc@, "tabs"@) {
                Some(v) => v,
                None => Model::Null,
            },
        );
        assert(own == (own_sections@.len() > 0 || !has_tabs));
        if own {
            assert(first =~= seq![now_tab(doc@)]);
        } else {
            assert(first =~= Seq::<TabModel>::empty());
        }
    }
    let declared = list_of(doc, "tabs");
    proof {
        lemma_models(declared@);
    }
    let ghost ds = models(declared@);
    let mut i: usize = 0;
    while i < declared.len()
        invariant
            0 <= i <= declared.len(),
            ds == models(declared@),
            ds.len() == declared@.len(),
            forall|q: int| 0 <= q < declared@.len() ==> #[trigger] ds[q] == model(declared@[q]),
            first.len() <= 1,
            tab_views(tabs@) == first + declared_tabs(ds.take(i as int), first.len()),
            tabs@.len() == first.len() + declared_tabs(ds.take(i as int), first.len()).len(),
        decreases declared.len() - i,
    {
        proof {
            assert(ds.take(i + 1).drop_last() =~= ds.take(i as int));
            assert(ds.take(i + 1).last() == model(declared@[i as int]));
        }
        let v = &declared[i];
        if let Value::Mapping(_) = v {
            let key = if tabs.len() == 0 {
                string_of(&chars_of("now"))
            } else {
                let mut k = chars_of("now");
                let digits = decimal_succ(tabs.len());
                crate::text::append(&mut k, &digits);
                string_of(&k)
            };
            let t = Tab {
                key,
                title: field_text_of(v, "title"),
                occasion: field_text_of(v, "occasion"),
                intent: string_of(&Vec::new()),
                serves: selectors(field(v, "serves")),
                bare: false,
                shape: map_of(v, "shape"),
                sections: parse_sections(list_of(v, "sections")),
            };
            let ghost before = tab_views(tabs@);
            tabs.push(t);
            proof {
                assert(tab_views(tabs@) =~= before.push(t@));
            }
        }
        i = i + 1;
    }
    proof {
        assert(ds.take(declared.len() as int) =~= ds);
        assert(tab_views(tabs@) =~= brief_tabs(doc@));
    }
    let m = match doc {
        Value::Mapping(es) => crate::value::copy_entries(es),
        _ => Vec::new(),
    };
    Ok((m, tabs))
}

} // verus!

verus! {

/// The set of strings a list holds.
pub open spec fn str_set(v: Seq<String>) -> Set<Seq<char>> {
    Set::new(|x: Seq<char>| exists|i: int| 0 <= i < v.len() && #[trigger] v[i]@ == x)
}

/// A state a judgment may be flagged with.
pub open spec fn flag_word(s: Seq<char>) -> bool {
    s == "broken"@ || s == "falsified"@ || s == "unchecked"@ || s == "moved"@ || s == "blocked"@ || s
        == "no_predicate"@ || s == "unknown"@ || s == "reversed"@
}

/// The ids whose flags are not empty (`None`), or hold the flag `w`.
pub open spec fn flagged_with(states: Seq<(String, Vec<String>)>, w: Option<Seq<char>>) -> Set<Seq<char>> {
    Set::new(
        |x: Seq<char>|
            exists|i: int|
                0 <= i < states.len() && #[trigger] states[i].0@ == x && match w {
                    None => states[i].1@.len() > 0,
                    Some(f) => str_set(states[i].1@).contains(f),
                },
    )
}

/// The number of dots that end a text.
pub open spec fn trail_dots(s: Seq<char>) -> nat
    decreases s.len(),
{
    if s.len() == 0 || s.last() != '.' {
        0
    } else {
        1 + trail_dots(s.drop_last())
    }
}

/// What a selector picks: every id, the judgments, the flagged ones, those
/// with one flag, one id, or the ids under a dotted prefix.
pub open spec fn selected(
    selector: Seq<char>,
    ids: Set<Seq<char>>,
    judgments: Set<Seq<char>>,
    states: Seq<(String, Vec<String>)>,
) -> Set<Seq<char>> {
    let s = crate::text::trim(selector);
    if s == "all"@ {
        ids
    } else if s == "judgments"@ {
        judgments
    } else if s == "flagged"@ {
        flagged_with(states, None)
    } else if flag_word(s) {
        flagged_with(states, Some(s))
    } else if ids.contains(s) {
        set![s]
    } else {
        let p = s.take(s.len() - trail_dots(s)).push('.');
        ids.filter(|id: Seq<char>| crate::text::starts_with(id, p))
    }
}

pub(crate) fn holds_string(v: &Vec<String>, x: &[char]) -> (r: bool)
    ensures
        r == str_set(v@).contains(x@),
{
    let mut i: usize = 0;
    while i < v.len()
        invariant
            0 <= i <= v.len(),
            forall|q: int| 0 <= q < i ==> #[trigger] v@[q]@ != x@,
        decreases v.len() - i,
    {
        if crate::text::same(&chars_of(v[i].as_str()), x) {
            assert(v@[i as int]@ == x@);
            return true;
        }
        i = i + 1;
    }
    false
}

fn copy_strings(v: &Vec<String>) -> (r: Vec<String>)
    ensures
        str_set(r@) == str_set(v@),
{
    let mut out: Vec<String> = Vec::new();
    let mut i: usize = 0;
    while i < v.len()
        invariant
            0 <= i <= v.len(),
            out@.len() == i,
            forall|q: int| 0 <= q < i ==> #[trigger] out@[q]@ == v@[q]@,
        decreases v.len() - i,
    {
        out.push(string_of(&chars_of(v[i].as_str())));
        i = i + 1;
    }
    proof {
        assert(str_set(out@) =~= str_set(v@)) by {
            assert forall|x: Seq<char>| #[trigger] str_set(out@).contains(x) implies str_set(v@).contains(x) by {
                let q = choose|q: int| 0 <= q < out@.len() && #[trigger] out@[q]@ == x;
                assert(v@[q]@ == x);
            }
            assert forall|x: Seq<char>| #[trigger] str_set(v@).contains(x) implies str_set(out@).contains(x) by {
                let q = choose|q: int| 0 <= q < v@.len() && #[trigger] v@[q]@ == x;
                assert(out@[q]@ == x);
            }
        }
    }
    out
}

/// The strings of `v` in ascending order, each once: a set of strings as a
/// `BTreeSet` keeps it.
pub fn sorted_strings(v: &Vec<String>) -> (r: Vec<String>)
    ensures
        str_set(r@) == str_set(v@),
        sorted_names(strings(r@)),
{
    let mut ks: Vec<Vec<char>> = Vec::new();
    let mut i: usize = 0;
    while i < v.len()
        invariant
            0 <= i <= v.len(),
            sorted_names(char_views(ks@)),
            forall|x: Seq<char>|
                #[trigger] char_views(ks@).contains(x) <==> exists|q: int| 0 <= q < i && #[trigger] v@[q]@ == x,
        decreases v.len() - i,
    {
        let k = chars_of(v[i].as_str());
        let ghost before = char_views(ks@);
        add_sorted(&mut ks, &k);
        proof {
            lemma_add_key_sorted(before, k@);
            assert forall|x: Seq<char>|
                #[trigger] char_views(ks@).contains(x) <==> exists|q: int| 0 <= q < i + 1 && #[trigger] v@[q]@ == x by {
                lemma_add_key_contains(before, k@, x);
                if x == k@ {
                    assert(v@[i as int]@ == x);
                }
                if exists|q: int| 0 <= q < i + 1 && #[trigger] v@[q]@ == x {
                    let q = choose|q: int| 0 <= q < i + 1 && #[trigger] v@[q]@ == x;
                    if q < i {
                        assert(before.contains(x));
                    }
                }
            }
        }
        i = i + 1;
    }
    let mut r: Vec<String> = Vec::new();
    let mut j: usize = 0;
    while j < ks.len()
        invariant
            0 <= j <= ks.len(),
            r@.len() == j,
            forall|q: int| 0 <= q < j ==> #[trigger] r@[q]@ == ks@[q]@,
        decreases ks.len() - j,
    {
        r.push(string_of(&ks[j]));
        j = j + 1;
    }
    proof {
        let cv = char_views(ks@);
        assert(strings(r@) =~= cv);
        assert(str_set(r@) =~= str_set(v@)) by {
            assert forall|x: Seq<char>| #[trigger] str_set(r@).contains(x) implies str_set(v@).contains(x) by {
                let q = choose|q: int| 0 <= q < r@.len() && #[trigger] r@[q]@ == x;
                assert(cv[q] == x);
                assert(cv.contains(x));
            }
            assert forall|x: Seq<char>| #[trigger] str_set(v@).contains(x) implies str_set(r@).contains(x) by {
                let q = choose|q: int| 0 <= q < v@.len() && #[trigger] v@[q]@ == x;
                assert(cv.contains(x));
                let p = choose|p: int| 0 <= p < cv.len() && cv[p] == x;
                assert(r@[p]@ == x);
            }
        }
    }
    r
}

/// The ids a selector picks, in ascending order, each once.
pub fn select(selector: &str, ids: &Vec<String>, judgments: &Vec<String>, states: &Vec<(String, Vec<String>)>) -> (r: Vec<
    String,
>)
    ensures
        str_set(r@) == selected(selector@, str_set(ids@), str_set(judgments@), states@),
        sorted_names(strings(r@)),
{
    let picked = select_any(selector, ids, judgments, states);
    sorted_strings(&picked)
}

fn select_any(selector: &str, ids: &Vec<String>, judgments: &Vec<String>, states: &Vec<(String, Vec<String>)>) -> (r: Vec<
    String,
>)
    ensures
        str_set(r@) == selected(selector@, str_set(ids@), str_set(judgments@), states@),
{
    let s = crate::text::trimmed(&chars_of(selector));
    let same = |w: &str| -> (b: bool)
        ensures
            b == (s@ == w@),
        { crate::text::same(&s, &chars_of(w)) };
    if same("all") {
        return copy_strings(ids);
    }
    if same("judgments") {
        return copy_strings(judgments);
    }
    let flagged = same("flagged");
    let word = !flagged && (same("broken") || same("falsified") || same("unchecked") || same("moved") || same("blocked")
        || same("no_predicate") || same("unknown") || same("reversed"));
    if flagged || word {
        let mut out: Vec<String> = Vec::new();
        let mut i: usize = 0;
        while i < states.len()
            invariant
                0 <= i <= states.len(),
                flagged ==> s@ == "flagged"@,
                word ==> flag_word(s@),
                !flagged || !word,
                str_set(out@) == Set::new(
                    |x: Seq<char>|
                        exists|q: int|
                            0 <= q < i && #[trigger] states@[q].0@ == x && if flagged {
                                states@[q].1@.len() > 0
                            } else {
                                str_set(states@[q].1@).contains(s@)
                            },
                ),
            decreases states.len() - i,
        {
            let hit = if flagged {
                states[i].1.len() > 0
            } else {
                holds_string(&states[i].1, &s)
            };
            let ghost before = out@;
            if hit {
                out.push(string_of(&chars_of(states[i].0.as_str())));
            }
            proof {
                let target = Set::new(
                    |x: Seq<char>|
                        exists|q: int|
                            0 <= q < i + 1 && #[trigger] states@[q].0@ == x && if flagged {
                                states@[q].1@.len() > 0
                            } else {
                                str_set(states@[q].1@).contains(s@)
                            },
                );
                assert(str_set(out@) =~= target) by {
                    assert forall|x: Seq<char>| #[trigger] str_set(out@).contains(x) implies target.contains(x) by {
                        let q = choose|q: int| 0 <= q < out@.len() && #[trigger] out@[q]@ == x;
                        if q < before.len() {
                            assert(before[q] == out@[q]);
                            assert(str_set(before).contains(x));
                        } else {
                            assert(states@[i as int].0@ == x);
                        }
                    }
                    assert forall|x: Seq<char>| #[trigger] target.contains(x) implies str_set(out@).contains(x) by {
                        let q = choose|q: int|
                            0 <= q < i + 1 && #[trigger] states@[q].0@ == x && if flagged {
                                states@[q].1@.len() > 0
                            } else {
                                str_set(states@[q].1@).contains(s@)
                            };
                        if q < i {
                            assert(str_set(before).contains(x));
                            let p = choose|p: int| 0 <= p < before.len() && #[trigger] before[p]@ == x;
                            assert(out@[p] == before[p]);
                        } else {
                            assert(out@[out@.len() - 1]@ == x);
                        }
                    }
                }
            }
            i = i + 1;
        }
        proof {
            let w: Option<Seq<char>> = if flagged {
                None
            } else {
                Some(s@)
            };
            assert(str_set(out@) =~= flagged_with(states@, w));
        }
        return out;
    }
    if holds_string(ids, &s) {
        let mut out: Vec<String> = Vec::new();
        out.push(string_of(&s));
        proof {
            assert(str_set(out@) =~= set![s@]) by {
                assert(out@[0]@ == s@);
            }
        }
        return out;
    }
    let mut k = s.len();
    assert(s@.take(s@.len() as int) =~= s@);
    while k > 0 && s[k - 1] == '.'
        invariant
            0 <= k <= s@.len(),
            trail_dots(s@) == (s@.len() - k) + trail_dots(s@.take(k as int)),
        decreases k,
    {
        proof {
            assert(s@.take(k as int).drop_last() =~= s@.take(k - 1));
        }
        k = k - 1;
    }
    proof {
        if k > 0 {
            assert(s@.take(k as int).last() == s@[k - 1]);
        }
        assert(trail_dots(s@.take(k as int)) == 0);
    }
    let mut p = crate::text::slice_range(&s, 0, k);
    p.push('.');
    let mut out: Vec<String> = Vec::new();
    let mut i: usize = 0;
    while i < ids.len()
        invariant
            0 <= i <= ids.len(),
            str_set(out@) == Set::new(
                |x: Seq<char>| exists|q: int| 0 <= q < i && #[trigger] ids@[q]@ == x && crate::text::starts_with(x, p@),
            ),
        decreases ids.len() - i,
    {
        let id = chars_of(ids[i].as_str());
        let under = crate::text::has_prefix(&id, &p);
        let ghost before = out@;
        if under {
            out.push(string_of(&id));
        }
        proof {
            let target = Set::new(
                |x: Seq<char>| exists|q: int| 0 <= q < i + 1 && #[trigger] ids@[q]@ == x && crate::text::starts_with(x, p@),
            );
            assert(under == crate::text::starts_with(id@, p@));
            assert(str_set(out@) =~= target) by {
                assert forall|x: Seq<char>| #[trigger] str_set(out@).contains(x) implies target.contains(x) by {
                    let q = choose|q: int| 0 <= q < out@.len() && #[trigger] out@[q]@ == x;
                    if q < before.len() {
                        assert(before[q] == out@[q]);
                        assert(str_set(before).contains(x));
                    } else {
                        assert(ids@[i as int]@ == x);
                    }
                }
                assert forall|x: Seq<char>| #[trigger] target.contains(x) implies str_set(out@).contains(x) by {
                    let q = choose|q: int| 0 <= q < i + 1 && #[trigger] ids@[q]@ == x && crate::text::starts_with(x, p@);
                    if q < i {
                        assert(str_set(before).contains(x));
                        let r = choose|r: int| 0 <= r < before.len() && #[trigger] before[r]@ == x;
                        assert(out@[r] == before[r]);
                    } else {
                        assert(out@[out@.len() - 1]@ == x);
                    }
                }
            }
        }
        i = i + 1;
    }
    proof {
        let pre = s@.take(s@.len() - trail_dots(s@)).push('.');
        assert(p@ =~= pre);
        assert(str_set(out@) =~= str_set(ids@).filter(|id: Seq<char>| crate::text::starts_with(id, pre)));
    }
    out
}

} // verus!

verus! {

/// What a judgment rests on, as the page reads its dependency field: the
/// items of a list written as text, or each character of a text.
pub open spec fn deps_spec(b: Model, dep: Seq<char>) -> Seq<Seq<char>> {
    match field_opt(b, dep) {
        Some(Model::List(xs)) => textish_all(xs),
        Some(Model::Text(t)) => Seq::new(t.len(), |i: int| seq![t[i]]),
        _ => Seq::empty(),
    }
}

/// What a judgment rests on, as the page reads its dependency field.
pub fn deps(body: &Value, dep_field: &str) -> (r: Vec<String>)
    ensures
        strings(r@) == deps_spec(body@, dep_field@),
{
    match field(body, dep_field) {
        Some(Value::List(_)) => selectors(field(body, dep_field)),
        Some(Value::Text(t)) => {
            let cs = chars_of(t.as_str());
            let mut out: Vec<String> = Vec::new();
            let mut i: usize = 0;
            while i < cs.len()
                invariant
                    0 <= i <= cs.len(),
                    out@.len() == i,
                    forall|q: int| 0 <= q < i ==> #[trigger] out@[q]@ == seq![cs@[q]],
                decreases cs.len() - i,
            {
                let mut one: Vec<char> = Vec::new();
                one.push(cs[i]);
                out.push(string_of(&one));
                i = i + 1;
            }
            proof {
                assert(strings(out@) =~= Seq::new(cs@.len(), |i: int| seq![cs@[i]]));
            }
            out
        },
        _ => {
            let out: Vec<String> = Vec::new();
            assert(strings(out@) =~= Seq::<Seq<char>>::empty());
            out
        },
    }
}

/// A node as the page reads it: a body that is not a mapping (an open
/// question written as a bare value) reads as `{v: body}`.
pub open spec fn page_node(n: Model) -> Model {
    let es = n->Mapping_0;
    if crate::value::has_key(es, "body"@) && field_of(n, "body"@) !is Mapping {
        Model::Mapping(
            es.update(
                crate::value::key_index(es, "body"@),
                ("body"@, Model::Mapping(seq![("v"@, field_of(n, "body"@))])),
            ),
        )
    } else {
        n
    }
}

/// The nodes as the page reads them; every node must be a mapping.
pub open spec fn page_nodes_spec(nodes: Seq<(Seq<char>, Model)>) -> Option<Seq<(Seq<char>, Model)>> {
    if forall|i: int| 0 <= i < nodes.len() ==> (#[trigger] nodes[i]).1 is Mapping {
        Some(Seq::new(nodes.len(), |i: int| (nodes[i].0, page_node(nodes[i].1))))
    } else {
        None
    }
}

/// The nodes as the page reads them.
pub fn page_nodes(nodes: &Vec<(String, Value)>) -> (r: Result<Vec<(String, Value)>, Error>)
    ensures
        match r {
            Ok(m) => page_nodes_spec(entries(nodes@)) == Some(entries(m@)),
            Err(e) => page_nodes_spec(entries(nodes@)) is None && e.0@ == "expected_mapping"@,
        },
{
    proof {
        lemma_entries(nodes@);
    }
    let ghost es = entries(nodes@);
    let mut out: Vec<(String, Value)> = Vec::new();
    let mut i: usize = 0;
    while i < nodes.len()
        invariant
            0 <= i <= nodes.len(),
            es == entries(nodes@),
            es.len() == nodes@.len(),
            forall|q: int| 0 <= q < nodes@.len() ==> #[trigger] es[q] == (nodes@[q].0@, model(nodes@[q].1)),
            forall|q: int| 0 <= q < i ==> (#[trigger] es[q]).1 is Mapping,
            entries(out@).len() == i,
            forall|q: int| 0 <= q < i ==> #[trigger] entries(out@)[q] == (es[q].0, page_node(es[q].1)),
        decreases nodes.len() - i,
    {
        let node = &nodes[i].1;
        assert(es[i as int] == (nodes@[i as int].0@, model(nodes@[i as int].1)));
        let fields = match node {
            Value::Mapping(fs) => fs,
            _ => return Err(crate::fields::error("expected_mapping")),
        };
        let mut copy = crate::value::copy_entries(fields);
        match crate::value::find(fields, "body") {
            Some(k) => {
                proof {
                    lemma_entries(fields@);
                    crate::value::lemma_key_index(entries(fields@), "body"@, k as int);
                }
                match &fields[k].1 {
                    Value::Mapping(_) => {
                        assert(field_of(model(Value::Mapping(*fields)), "body"@) == model(fields@[k as int].1));
                    },
                    other => {
                        let inner = crate::value::copy(other);
                        let mut wrapped: Vec<(String, Value)> = Vec::new();
                        wrapped.push((string_of(&chars_of("v")), inner));
                        proof {
                            lemma_entries(wrapped@);
                            assert(entries(wrapped@) =~= seq![("v"@, model(fields@[k as int].1))]);
                            lemma_entries(copy@);
                        }
                        let ghost was = entries(copy@);
                        copy.set(k, (string_of(&chars_of("body")), Value::Mapping(wrapped)));
                        proof {
                            lemma_entries(copy@);
                            assert(entries(copy@) =~= was.update(k as int, ("body"@, Model::Mapping(seq![("v"@, model(fields@[k as int].1))]))));
                            assert(field_of(model(Value::Mapping(*fields)), "body"@) == model(fields@[k as int].1));
                            assert(crate::value::key_index(entries(fields@), "body"@) == k);
                        }
                    },
                }
            },
            None => {},
        }
        proof {
            let n = es[i as int].1;
            assert(n == Model::Mapping(entries(fields@)));
            assert(Model::Mapping(entries(copy@)) == page_node(n));
        }
        let ghost before = out@;
        let ghost cm = Model::Mapping(entries(copy@));
        let item = Value::Mapping(copy);
        assert(model(item) == cm);
        out.push((string_of(&chars_of(nodes[i].0.as_str())), item));
        proof {
            lemma_entries(out@);
            lemma_entries(before);
            assert forall|q: int| 0 <= q < i + 1 implies #[trigger] entries(out@)[q] == (es[q].0, page_node(es[q].1)) by {
                if q < i {
                    assert(out@[q] == before[q]);
                    assert(entries(before)[q] == (before[q].0@, model(before[q].1)));
                    assert(entries(before)[q] == (es[q].0, page_node(es[q].1)));
                    assert(entries(out@)[q] == (out@[q].0@, model(out@[q].1)));
                } else {
                    assert(out@[q].1 == item);
                    assert(entries(out@)[q] == (out@[q].0@, model(out@[q].1)));
                    assert(out@[q].0@ == es[q].0);
                    assert(model(out@[q].1) == page_node(es[q].1));
                }
            }
        }
        i = i + 1;
    }
    proof {
        assert(entries(out@) =~= Seq::new(es.len(), |q: int| (es[q].0, page_node(es[q].1))));
    }
    Ok(out)
}

} // verus!

verus! {

/// Groups of ids by scheme: each scheme's groups, each with its members.
pub open spec fn groups_view(g: Seq<(String, Vec<(String, Vec<String>)>)>) -> Seq<(Seq<char>, Seq<(Seq<char>, Set<Seq<char>>)>)> {
    g.map_values(
        |s: (String, Vec<(String, Vec<String>)>)|
            (s.0@, s.1@.map_values(|m: (String, Vec<String>)| (m.0@, str_set(m.1@)))),
    )
}

/// The ids any of the selectors picks.
pub open spec fn picked(
    sels: Seq<Seq<char>>,
    ids: Set<Seq<char>>,
    judgments: Set<Seq<char>>,
    states: Seq<(String, Vec<String>)>,
) -> Set<Seq<char>>
    decreases sels.len(),
{
    if sels.len() == 0 {
        Set::empty()
    } else {
        picked(sels.drop_last(), ids, judgments, states).union(selected(sels.last(), ids, judgments, states))
    }
}

/// The groups a brief declares, under `groups` (else `fronts`), when that is
/// a mapping.
pub open spec fn declared_groups(brief: Model) -> Option<Seq<(Seq<char>, Model)>> {
    let es = crate::value::map_entries(brief);
    let d = if crate::value::has_key(es, "groups"@) {
        Some(field_of(brief, "groups"@))
    } else if crate::value::has_key(es, "fronts"@) {
        Some(field_of(brief, "fronts"@))
    } else {
        None
    };
    match d {
        Some(Model::Mapping(g)) => Some(g),
        _ => None,
    }
}

/// One scheme's groups, each with what its selectors pick.
pub open spec fn scheme_groups(
    decl: Seq<(Seq<char>, Model)>,
    ids: Set<Seq<char>>,
    judgments: Set<Seq<char>>,
    states: Seq<(String, Vec<String>)>,
) -> Seq<(Seq<char>, Set<Seq<char>>)> {
    Seq::new(
        decl.len(),
        |i: int| (decl[i].0, picked(selectors_spec(Some(decl[i].1)), ids, judgments, states)),
    )
}

/// The grouping schemes of a brief: a mapping of mappings is one scheme per
/// key; any other mapping is the single scheme `groups`.
pub open spec fn groups_spec(
    brief: Model,
    ids: Set<Seq<char>>,
    judgments: Set<Seq<char>>,
    states: Seq<(String, Vec<String>)>,
) -> Seq<(Seq<char>, Seq<(Seq<char>, Set<Seq<char>>)>)> {
    match declared_groups(brief) {
        None => Seq::empty(),
        Some(d) => if d.len() > 0 && forall|i: int| 0 <= i < d.len() ==> (#[trigger] d[i]).1 is Mapping {
            Seq::new(d.len(), |i: int| (d[i].0, scheme_groups(d[i].1->Mapping_0, ids, judgments, states)))
        } else {
            seq![("groups"@, scheme_groups(d, ids, judgments, states))]
        },
    }
}

/// Each group's members stand in ascending order, each once.
pub open spec fn members_sorted(g: Seq<(String, Vec<String>)>) -> bool {
    forall|q: int| 0 <= q < g.len() ==> sorted_names(strings(#[trigger] g[q].1@))
}

/// In every scheme, each group's members stand in ascending order, each once.
pub open spec fn groups_sorted(r: Seq<(String, Vec<(String, Vec<String>)>)>) -> bool {
    forall|q: int| 0 <= q < r.len() ==> members_sorted(#[trigger] r[q].1@)
}

fn union_into(acc: &mut Vec<String>, more: Vec<String>)
    ensures
        str_set(final(acc)@) == str_set(old(acc)@).union(str_set(more@)),
{
    let ghost start = acc@;
    let mut i: usize = 0;
    while i < more.len()
        invariant
            0 <= i <= more.len(),
            acc@.len() == start.len() + i,
            forall|q: int| 0 <= q < start.len() ==> #[trigger] acc@[q] == start[q],
            forall|q: int| 0 <= q < i ==> #[trigger] acc@[start.len() + q]@ == more@[q]@,
        decreases more.len() - i,
    {
        acc.push(string_of(&chars_of(more[i].as_str())));
        i = i + 1;
    }
    proof {
        let want = str_set(start).union(str_set(more@));
        assert(str_set(acc@) =~= want) by {
            assert forall|x: Seq<char>| #[trigger] str_set(acc@).contains(x) implies want.contains(x) by {
                let q = choose|q: int| 0 <= q < acc@.len() && #[trigger] acc@[q]@ == x;
                if q < start.len() {
                    assert(acc@[q] == start[q]);
                    assert(str_set(start).contains(x));
                } else {
                    assert(acc@[start.len() + (q - start.len())]@ == more@[q - start.len()]@);
                    assert(str_set(more@).contains(x));
                }
            }
            assert forall|x: Seq<char>| #[trigger] want.contains(x) implies str_set(acc@).contains(x) by {
                if str_set(start).contains(x) {
                    let q = choose|q: int| 0 <= q < start.len() && #[trigger] start[q]@ == x;
                    assert(acc@[q] == start[q]);
                } else {
                    let q = choose|q: int| 0 <= q < more@.len() && #[trigger] more@[q]@ == x;
                    assert(acc@[start.len() + q]@ == more@[q]@);
                }
            }
        }
    }
}

fn scheme(decl: &Vec<(String, Value)>, ids: &Vec<String>, judgments: &Vec<String>, states: &Vec<(String, Vec<String>)>) -> (r: Vec<(String, Vec<String>)>)
    ensures
        r@.map_values(|m: (String, Vec<String>)| (m.0@, str_set(m.1@))) == scheme_groups(
            entries(decl@),
            str_set(ids@),
            str_set(judgments@),
            states@,
        ),
        members_sorted(r@),
{
    proof {
        lemma_entries(decl@);
    }
    let ghost es = entries(decl@);
    let mut out: Vec<(String, Vec<String>)> = Vec::new();
    let mut i: usize = 0;
    while i < decl.len()
        invariant
            0 <= i <= decl.len(),
            es == entries(decl@),
            es.len() == decl@.len(),
            forall|q: int| 0 <= q < decl@.len() ==> #[trigger] es[q] == (decl@[q].0@, model(decl@[q].1)),
            out@.len() == i,
            members_sorted(out@),
            forall|q: int|
                0 <= q < i ==> (#[trigger] out@[q]).0@ == es[q].0 && str_set(out@[q].1@) == picked(
                    selectors_spec(Some(es[q].1)),
                    str_set(ids@),
                    str_set(judgments@),
                    states@,
                ),
        decreases decl.len() - i,
    {
        let sels = selectors(Some(&decl[i].1));
        let ghost sv = strings(sels@);
        assert(es[i as int] == (decl@[i as int].0@, model(decl@[i as int].1)));
        let mut members: Vec<String> = Vec::new();
        let mut k: usize = 0;
        while k < sels.len()
            invariant
                0 <= k <= sels.len(),
                sv == strings(sels@),
                str_set(members@) == picked(sv.take(k as int), str_set(ids@), str_set(judgments@), states@),
            decreases sels.len() - k,
        {
            let got = select(sels[k].as_str(), ids, judgments, states);
            union_into(&mut members, got);
            proof {
                assert(sv.take(k + 1).drop_last() =~= sv.take(k as int));
                assert(sv.take(k + 1).last() == sels@[k as int]@);
            }
            k = k + 1;
        }
        proof {
            assert(sv.take(sels.len() as int) =~= sv);
        }
        let members = sorted_strings(&members);
        out.push((string_of(&chars_of(decl[i].0.as_str())), members));
        i = i + 1;
    }
    proof {
        let want = scheme_groups(es, str_set(ids@), str_set(judgments@), states@);
        let got = out@.map_values(|m: (String, Vec<String>)| (m.0@, str_set(m.1@)));
        assert(got =~= want) by {
            assert forall|q: int| 0 <= q < got.len() implies #[trigger] got[q] == want[q] by {
                assert(out@[q].0@ == es[q].0);
            }
        }
    }
    out
}

/// The grouping schemes a brief declares, with the ids each group picks.
pub fn groups(brief: &Value, ids: &Vec<String>, judgments: &Vec<String>, states: &Vec<(String, Vec<String>)>) -> (r: Vec<
    (String, Vec<(String, Vec<String>)>),
>)
    ensures
        groups_view(r@) == groups_spec(brief@, str_set(ids@), str_set(judgments@), states@),
        groups_sorted(r@),
{
    let declaration = match field(brief, "groups") {
        Some(v) => Some(v),
        None => field(brief, "fronts"),
    };
    let d = match declaration {
        Some(Value::Mapping(d)) => d,
        _ => {
            let out: Vec<(String, Vec<(String, Vec<String>)>)> = Vec::new();
            assert(groups_view(out@) =~= Seq::empty());
            return out;
        },
    };
    proof {
        lemma_entries(d@);
    }
    let ghost de = entries(d@);
    assert(declared_groups(brief@) == Some(de));
    let mut nested = d.len() > 0;
    let mut i: usize = 0;
    while i < d.len()
        invariant
            0 <= i <= d.len(),
            de == entries(d@),
            de.len() == d@.len(),
            forall|q: int| 0 <= q < d@.len() ==> #[trigger] de[q] == (d@[q].0@, model(d@[q].1)),
            nested == (d@.len() > 0 && forall|q: int| 0 <= q < i ==> (#[trigger] de[q]).1 is Mapping),
        decreases d.len() - i,
    {
        assert(de[i as int] == (d@[i as int].0@, model(d@[i as int].1)));
        match &d[i].1 {
            Value::Mapping(_) => {},
            _ => {
                nested = false;
            },
        }
        i = i + 1;
    }
    let mut out: Vec<(String, Vec<(String, Vec<String>)>)> = Vec::new();
    if nested {
        let mut j: usize = 0;
        while j < d.len()
            invariant
                0 <= j <= d.len(),
                de == entries(d@),
                de.len() == d@.len(),
                forall|q: int| 0 <= q < d@.len() ==> #[trigger] de[q] == (d@[q].0@, model(d@[q].1)),
                forall|q: int| 0 <= q < d@.len() ==> (#[trigger] de[q]).1 is Mapping,
                out@.len() == j,
                groups_sorted(out@),
                forall|q: int|
                    0 <= q < j ==> #[trigger] groups_view(out@)[q] == (de[q].0, scheme_groups(
                        de[q].1->Mapping_0,
                        str_set(ids@),
                        str_set(judgments@),
                        states@,
                    )),
            decreases d.len() - j,
        {
            assert(de[j as int] == (d@[j as int].0@, model(d@[j as int].1)));
            match &d[j].1 {
                Value::Mapping(inner) => {
                    let g = scheme(inner, ids, judgments, states);
                    let ghost before = out@;
                    out.push((string_of(&chars_of(d[j].0.as_str())), g));
                    proof {
                        assert forall|q: int| 0 <= q < j + 1 implies #[trigger] groups_view(out@)[q] == (de[q].0, scheme_groups(
                            de[q].1->Mapping_0,
                            str_set(ids@),
                            str_set(judgments@),
                            states@,
                        )) by {
                            if q < j {
                                assert(out@[q] == before[q]);
                                assert(groups_view(out@)[q] == groups_view(before)[q]);
                            }
                        }
                    }
                },
                _ => {
                    assert(false);
                },
            }
            j = j + 1;
        }
        proof {
            assert(groups_view(out@) =~= groups_spec(brief@, str_set(ids@), str_set(judgments@), states@));
        }
    } else {
        let g = scheme(d, ids, judgments, states);
        out.push((string_of(&chars_of("groups")), g));
        proof {
            assert(groups_view(out@) =~= groups_spec(brief@, str_set(ids@), str_set(judgments@), states@));
        }
    }
    out
}

} // verus!

verus! {

/// The body of node `id`, where the node is a mapping with a mapping body.
pub open spec fn body_of(nodes: Seq<(Seq<char>, Model)>, id: Seq<char>) -> Option<Model> {
    match crate::value::lookup(nodes, id) {
        Some(n) => if n is Mapping && field_of(n, "body"@) is Mapping {
            Some(field_of(n, "body"@))
        } else {
            None
        },
        None => None,
    }
}

/// A node the page can read a body of: present, and with a body where it
/// is a mapping.
pub open spec fn readable_node(nodes: Seq<(Seq<char>, Model)>, id: Seq<char>) -> bool {
    &&& crate::value::has_key(nodes, id)
    &&& crate::value::lookup(nodes, id)->Some_0 is Mapping ==> crate::value::has_key(
        crate::value::lookup(nodes, id)->Some_0->Mapping_0,
        "body"@,
    )
}

/// The body of node `id`.
pub fn body<'a>(nodes: &'a Vec<(String, Value)>, id: &str) -> (r: Option<&'a Vec<(String, Value)>>)
    ensures
        match r {
            Some(b) => body_of(entries(nodes@), id@) == Some(Model::Mapping(entries(b@))),
            None => body_of(entries(nodes@), id@) is None,
        },
{
    match crate::value::get(nodes, id) {
        Some(node) => match field(node, "body") {
            Some(Value::Mapping(b)) => Some(b),
            _ => None,
        },
        None => None,
    }
}

pub open spec fn scheme_names(schemes: Seq<(Seq<char>, Seq<(Seq<char>, Set<Seq<char>>)>)>) -> Seq<(Seq<char>, int)> {
    Seq::new(schemes.len(), |i: int| (schemes[i].0, i))
}

/// The groups of a scheme that hold `id`, in order.
pub open spec fn holding(gs: Seq<(Seq<char>, Set<Seq<char>>)>, id: Seq<char>) -> Seq<Seq<char>>
    decreases gs.len(),
{
    if gs.len() == 0 {
        Seq::empty()
    } else if gs.last().1.contains(id) {
        holding(gs.drop_last(), id).push(gs.last().0)
    } else {
        holding(gs.drop_last(), id)
    }
}

/// The scheme a section groups by: its own, else the brief's first, else
/// the ids' prefixes.
pub open spec fn scheme_for(by: Seq<char>, schemes: Seq<(Seq<char>, Seq<(Seq<char>, Set<Seq<char>>)>)>) -> Seq<char> {
    if by.len() > 0 {
        by
    } else if schemes.len() > 0 {
        schemes[0].0
    } else {
        "prefix"@
    }
}

/// The groups `id` falls in under a scheme: the declared groups holding
/// it; under `prefix`, the part of the id before its first dot; else the
/// value of the body's field named by the scheme, when that is a scalar.
pub open spec fn groups_of_spec(
    id: Seq<char>,
    by: Seq<char>,
    schemes: Seq<(Seq<char>, Seq<(Seq<char>, Set<Seq<char>>)>)>,
    nodes: Seq<(Seq<char>, Model)>,
) -> Seq<Seq<char>> {
    let scheme = scheme_for(by, schemes);
    let names = scheme_names(schemes);
    if crate::value::has_key(names, scheme) {
        holding(schemes[crate::value::key_index(names, scheme)].1, id)
    } else if scheme == "prefix"@ {
        if id.contains('.') {
            seq![crate::text::split(id, '.')[0]]
        } else {
            Seq::empty()
        }
    } else {
        match body_of(nodes, id) {
            Some(b) => match field_opt(b, scheme) {
                Some(v) => if v is Mapping || v is List {
                    Seq::empty()
                } else {
                    seq![textish(v)]
                },
                None => Seq::empty(),
            },
            None => Seq::empty(),
        }
    }
}

/// The groups `id` falls in under the scheme `by` (or the default one).
pub fn groups_of(id: &str, by: &str, schemes: &Vec<(String, Vec<(String, Vec<String>)>)>, nodes: &Vec<(String, Value)>) -> (r: Vec<
    String,
>)
    ensures
        strings(r@) == groups_of_spec(id@, by@, groups_view(schemes@), entries(nodes@)),
{
    let ghost gv = groups_view(schemes@);
    let ghost names = scheme_names(gv);
    let byc = chars_of(by);
    let scheme: Vec<char> = if byc.len() > 0 {
        byc
    } else if schemes.len() > 0 {
        chars_of(schemes[0].0.as_str())
    } else {
        chars_of("prefix")
    };
    assert(scheme@ == scheme_for(by@, gv));
    let mut k: usize = 0;
    while k < schemes.len()
        invariant
            0 <= k <= schemes.len(),
            gv == groups_view(schemes@),
            names == scheme_names(gv),
            names.len() == schemes@.len(),
            scheme@ == scheme_for(by@, gv),
            forall|q: int| 0 <= q < k ==> #[trigger] names[q].0 != scheme@,
        decreases schemes.len() - k,
    {
        assert(names[k as int].0 == schemes@[k as int].0@);
        if crate::text::same(&chars_of(schemes[k].0.as_str()), &scheme) {
            proof {
                crate::value::lemma_key_index(names, scheme@, k as int);
            }
            let gs = &schemes[k].1;
            let ghost gsv = gv[k as int].1;
            assert(gsv == gs@.map_values(|m: (String, Vec<String>)| (m.0@, str_set(m.1@))));
            let mut out: Vec<String> = Vec::new();
            let mut j: usize = 0;
            while j < gs.len()
                invariant
                    0 <= j <= gs.len(),
                    gsv == gs@.map_values(|m: (String, Vec<String>)| (m.0@, str_set(m.1@))),
                    strings(out@) == holding(gsv.take(j as int), id@),
                decreases gs.len() - j,
            {
                proof {
                    assert(gsv.take(j + 1).drop_last() =~= gsv.take(j as int));
                    assert(gsv.take(j + 1).last() == (gs@[j as int].0@, str_set(gs@[j as int].1@)));
                }
                if holds_string(&gs[j].1, &chars_of(id)) {
                    let ghost before = out@;
                    out.push(string_of(&chars_of(gs[j].0.as_str())));
                    proof {
                        assert(strings(out@) =~= strings(before).push(gs@[j as int].0@));
                    }
                }
                j = j + 1;
            }
            proof {
                assert(gsv.take(gs.len() as int) =~= gsv);
                assert(strings(out@) == holding(gsv, id@));
                assert(crate::value::has_key(names, scheme@));
                assert(crate::value::key_index(names, scheme@) == k);
                assert(gv[k as int].1 == gsv);
                assert(groups_of_spec(id@, by@, gv, entries(nodes@)) == holding(gsv, id@));
            }
            return out;
        }
        k = k + 1;
    }
    proof {
        crate::value::lemma_no_key(names, scheme@);
    }
    if crate::text::same(&scheme, &chars_of("prefix")) {
        let idc = chars_of(id);
        let mut out: Vec<String> = Vec::new();
        if crate::text::has_char(&idc, '.') {
            let parts = crate::text::split_on(&idc, '.');
            proof {
                crate::text::lemma_split_nonempty(id@, '.');
            }
            out.push(string_of(&parts[0]));
            proof {
                assert(strings(out@) =~= seq![crate::text::split(id@, '.')[0]]);
            }
        } else {
            assert(strings(out@) =~= Seq::<Seq<char>>::empty());
        }
        return out;
    }
    let mut out: Vec<String> = Vec::new();
    let sname = string_of(&scheme);
    match body(nodes, id) {
        Some(b) => {
            match crate::value::get(b, sname.as_str()) {
                Some(v) => match v {
                    Value::Mapping(_) => {},
                    Value::List(_) => {},
                    _ => {
                        out.push(textish_of(v));
                    },
                },
                None => {},
            }
        },
        None => {},
    }
    proof {
        assert(strings(out@) =~= groups_of_spec(id@, by@, gv, entries(nodes@)));
    }
    out
}

/// What a built page holds.
#[derive(Debug)]
pub struct Page {
    pub html: String,
    pub elements: usize,
    pub entries: usize,
    pub judgments: usize,
    pub tabs: usize,
    pub failures: Vec<String>,
    pub notes: Vec<String>,
    /// The arrangement facts the page's assessment and brief establish.
    pub arrangement_facts: Value,
    /// The page's typed readings; one that is undefined is Null.
    pub page_values: Vec<(String, Value)>,
}

/// A page from its rendered HTML and the counts behind it, refused when
/// the HTML (in UTF-8 bytes) exceeds `max`.
pub fn finish_page(
    html: String,
    max: usize,
    ids: usize,
    judgments: usize,
    tabs: usize,
    failures: Vec<String>,
    notes: Vec<String>,
    arrangement_facts: Value,
    page_values: Vec<(String, Value)>,
) -> (r: Result<Page, Error>)
    requires
        judgments <= ids,
        tabs < usize::MAX,
    ensures
        match r {
            Ok(p) => utf8_all(html@).len() <= max && p.html@ == html@ && p.elements == ids && p.entries == ids
                - judgments && p.judgments == judgments && p.tabs == tabs + 1 && p.failures@ == failures@
                && p.notes@ == notes@ && p.arrangement_facts@ == arrangement_facts@ && entries(p.page_values@)
                == entries(page_values@),
            Err(e) => utf8_all(html@).len() > max && e.0@ == "Hub HTML output exceeds its byte limit"@,
        },
{
    let cs = chars_of(html.as_str());
    let mut bytes: usize = 0;
    let mut i: usize = 0;
    while i < cs.len()
        invariant
            0 <= i <= cs.len(),
            cs@ == html@,
            bytes as int == utf8_all(cs@.take(i as int)).len(),
            bytes <= max,
        decreases cs.len() - i,
    {
        let n = utf8_of(cs[i]).len();
        proof {
            assert(cs@.take(i + 1).drop_last() =~= cs@.take(i as int));
            assert(cs@.take(i + 1).last() == cs@[i as int]);
        }
        if n > max - bytes {
            proof {
                lemma_utf8_all_prefix(cs@, i + 1);
            }
            return Err(crate::fields::error("Hub HTML output exceeds its byte limit"));
        }
        bytes = bytes + n;
        i = i + 1;
    }
    proof {
        assert(cs@.take(cs.len() as int) =~= cs@);
    }
    Ok(Page {
        html,
        elements: ids,
        entries: ids - judgments,
        judgments,
        tabs: tabs + 1,
        failures,
        notes,
        arrangement_facts,
        page_values,
    })
}

/// A prefix's bytes are no more than the whole text's.
proof fn lemma_utf8_all_prefix(s: Seq<char>, n: int)
    requires
        0 <= n <= s.len(),
    ensures
        utf8_all(s.take(n)).len() <= utf8_all(s).len(),
    decreases s.len() - n,
{
    if n < s.len() {
        lemma_utf8_all_prefix(s, n + 1);
        assert(s.take(n + 1).drop_last() =~= s.take(n));
    } else {
        assert(s.take(n) =~= s);
    }
}

} // verus!

verus! {

/// Escaped text holds no markup: no `<` or `>` at all, and in an attribute
/// no quote either.
pub proof fn lemma_esc_no_markup(s: Seq<char>, attribute: bool)
    ensures
        forall|i: int|
            0 <= i < esc_spec(s, attribute).len() ==> #[trigger] esc_spec(s, attribute)[i] != '<'
                && esc_spec(s, attribute)[i] != '>' && (attribute ==> esc_spec(s, attribute)[i] != '"'
                && esc_spec(s, attribute)[i] != '\''),
    decreases s.len(),
{
    reveal_strlit("&amp;");
    reveal_strlit("&lt;");
    reveal_strlit("&gt;");
    reveal_strlit("&quot;");
    reveal_strlit("&#x27;");
    if s.len() > 0 {
        lemma_esc_no_markup(s.drop_last(), attribute);
        let p = esc_spec(s.drop_last(), attribute);
        let c = esc_char(s.last(), attribute);
        assert forall|i: int| 0 <= i < esc_spec(s, attribute).len() implies #[trigger] esc_spec(s, attribute)[i] != '<'
            && esc_spec(s, attribute)[i] != '>' && (attribute ==> esc_spec(s, attribute)[i] != '"'
            && esc_spec(s, attribute)[i] != '\'') by {
            if i >= p.len() {
                assert(esc_spec(s, attribute)[i] == c[i - p.len()]);
            } else {
                assert(esc_spec(s, attribute)[i] == p[i]);
            }
        }
    }
}

/// An encoded URL holds only characters it may keep, `%`, and the
/// uppercase hexadecimal digits that follow it.
pub open spec fn url_char(c: char, full: bool) -> bool {
    (c as u32) < 128 && (url_safe(c as u8, full) || c == '%' || ('0' <= c <= '9') || ('A' <= c <= 'F'))
}

pub proof fn lemma_url_chars(bs: Seq<u8>, full: bool)
    ensures
        forall|i: int| 0 <= i < url_bytes(bs, full).len() ==> url_char(#[trigger] url_bytes(bs, full)[i], full),
    decreases bs.len(),
{
    if bs.len() > 0 {
        lemma_url_chars(bs.drop_last(), full);
        let p = url_bytes(bs.drop_last(), full);
        let b = bs.last();
        let c = url_byte(b, full);
        assert forall|i: int| 0 <= i < url_bytes(bs, full).len() implies url_char(#[trigger] url_bytes(bs, full)[i], full) by {
            if i >= p.len() {
                assert(url_bytes(bs, full)[i] == c[i - p.len()]);
                if url_safe(b, full) {
                    assert(b < 128) by {
                        reveal_strlit("/.-_~");
                        reveal_strlit("%:@!$&'()*+,;=?#[]");
                        if b >= 128 {
                            let ch = b as char;
                            assert(!"/.-_~"@.contains(ch));
                            assert(!"%:@!$&'()*+,;=?#[]"@.contains(ch));
                        }
                    }
                    assert((b as char) as u8 == b);
                } else {
                    assert(b / 16 < 16 && b % 16 < 16);
                }
            } else {
                assert(url_bytes(bs, full)[i] == p[i]);
            }
        }
    }
}

} // verus!
