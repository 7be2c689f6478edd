//! Where an entry's link may take a reader of the page: a web or mail
//! address, an anchor on the page, or a file of the record; anything else is
//! refused.
use vstd::prelude::*;
use crate::page::{textish, textish_of, url_bytes, url_full, utf8_all};
use crate::text::{chars_of, first_at, has_prefix, starts_with, string_of, trim, trimmed, spec_is_ascii_alphanumeric};
use crate::value::{Model, Value, entries, get, lookup, truth, truthy};

verus! {

broadcast use vstd::std_specs::vec::group_vec_axioms;

/// Where a link goes, as its text reads.
pub enum Target {
    Refused,
    Web(Seq<char>),
    Anchor(Seq<char>),
    Local(Seq<char>),
}

/// Where a link goes: a web, mail or file address (already encoded), an
/// anchor on the page, or a path of the record still to be resolved.
#[derive(Debug, PartialEq, Eq)]
pub enum Link {
    Refused,
    Web(String),
    Anchor(String),
    Local(String),
}

impl View for Link {
    type V = Target;

    open spec fn view(&self) -> Target {
        match self {
            Link::Refused => Target::Refused,
            Link::Web(s) => Target::Web(s@),
            Link::Anchor(s) => Target::Anchor(s@),
            Link::Local(s) => Target::Local(s@),
        }
    }
}

/// The text a body links to, and whether it is a `url` (else a `file`).
pub open spec fn raw_link(body: Seq<(Seq<char>, Model)>) -> Option<(Seq<char>, bool)> {
    match lookup(body, "url"@) {
        Some(v) if truthy(v) => Some((textish(v), true)),
        _ => match lookup(body, "file"@) {
            Some(v) if truthy(v) => Some((textish(v), false)),
            _ => None,
        },
    }
}

/// A character that may stand in a URL scheme.
pub open spec fn scheme_char(c: char) -> bool {
    spec_is_ascii_alphanumeric(c) || c == '+' || c == '-' || c == '.'
}

pub open spec fn lower_char(c: char) -> char {
    if 'A' <= c <= 'Z' {
        ((c as u8) + 32) as char
    } else {
        c
    }
}

/// A scheme in ASCII lower case.
pub open spec fn lower(s: Seq<char>) -> Seq<char> {
    Seq::new(s.len(), |i: int| lower_char(s[i]))
}

/// Where a link's text may take a reader: nothing for blank text, text with
/// a control character, or a network path; for text with a scheme, only an
/// http(s) address with an authority, or a mail or file address, encoded;
/// an anchor where a `url` begins with `#`; else a path of the record.
pub open spec fn target(body: Seq<(Seq<char>, Model)>) -> Target {
    match raw_link(body) {
        None => Target::Refused,
        Some((text, is_url)) => {
            let raw = trim(text);
            if raw.len() == 0 || (exists|i: int| 0 <= i < raw.len() && (#[trigger] raw[i] as u32) < 32)
                || starts_with(raw, "//"@) {
                Target::Refused
            } else {
                match first_at(raw, ':') {
                    Some(i) if (forall|j: int| 0 <= j < i ==> scheme_char(#[trigger] raw[j])) => {
                        let scheme = lower(raw.take(i));
                        let tail = raw.skip(i + 1);
                        if (scheme == "http"@ || scheme == "https"@) && !starts_with(tail, "//"@) {
                            Target::Refused
                        } else if scheme == "http"@ || scheme == "https"@ || scheme == "mailto"@ || scheme
                            == "file"@ {
                            Target::Web(url_bytes(utf8_all(raw), true))
                        } else {
                            Target::Refused
                        }
                    },
                    _ => if is_url && starts_with(raw, "#"@) {
                        Target::Anchor(raw)
                    } else {
                        Target::Local(raw)
                    },
                }
            }
        },
    }
}

fn lowered(s: &[char]) -> (r: Vec<char>)
    ensures
        r@ == lower(s@),
{
    let mut out: Vec<char> = Vec::new();
    let mut i: usize = 0;
    while i < s.len()
        invariant
            0 <= i <= s.len(),
            out@ == lower(s@.take(i as int)),
        decreases s.len() - i,
    {
        let c = s[i];
        let l = if 'A' <= c && c <= 'Z' {
            ((c as u8) + 32) as char
        } else {
            c
        };
        proof {
            assert(lower(s@.take(i + 1)) =~= lower(s@.take(i as int)).push(lower_char(c)));
        }
        out.push(l);
        i = i + 1;
    }
    assert(s@.take(s.len() as int) =~= s@);
    out
}

/// Where an entry's link may take a reader of the page.
#[verifier::loop_isolation(false)]
pub fn link(body: &Vec<(String, Value)>) -> (r: Link)
    ensures
        r@ == target(entries(body@)),
{
    let found: Option<(String, bool)> = match get(body, "url") {
        Some(v) if truth(v) => Some((textish_of(v), true)),
        _ => match get(body, "file") {
            Some(v) if truth(v) => Some((textish_of(v), false)),
            _ => None,
        },
    };
    let (text, is_url) = match found {
        Some(p) => p,
        None => return Link::Refused,
    };
    let raw = trimmed(&chars_of(text.as_str()));
    let ghost rv = raw@;
    if raw.len() == 0 {
        return Link::Refused;
    }
    let mut i: usize = 0;
    while i < raw.len()
        invariant
            0 <= i <= raw.len(),
            rv == raw@,
            forall|j: int| 0 <= j < i ==> (#[trigger] raw@[j] as u32) >= 32,
        decreases raw.len() - i,
    {
        if (raw[i] as u32) < 32 {
            assert((rv[i as int] as u32) < 32);
            return Link::Refused;
        }
        i = i + 1;
    }
    if has_prefix(&raw, &chars_of("//")) {
        return Link::Refused;
    }
    let colon = crate::text::position_of(&raw, ':');
    let c: usize = match colon {
        Some(i) => i,
        None => raw.len(),
    };
    let mut scheme_ok = colon.is_some();
    let mut k: usize = 0;
    while scheme_ok && k < c
        invariant
            0 <= k <= c <= raw.len(),
            scheme_ok ==> c < raw.len(),
            scheme_ok ==> forall|j: int| 0 <= j < k ==> scheme_char(#[trigger] raw@[j]),
            !scheme_ok ==> (c == raw.len() || exists|j: int| 0 <= j < c && !scheme_char(#[trigger] raw@[j])),
        decreases c - k,
    {
        let ch = raw[k];
        if !(crate::text::is_ascii_alphanumeric(ch) || ch == '+' || ch == '-' || ch == '.') {
            scheme_ok = false;
        }
        k = k + 1;
    }
    if scheme_ok {
        let scheme = lowered(&crate::text::slice_range(&raw, 0, c));
        let tail = crate::text::slice_range(&raw, c + 1, raw.len());
        proof {
            assert(rv.take(c as int) =~= rv.subrange(0, c as int));
            assert(rv.skip(c + 1) =~= rv.subrange(c + 1, rv.len() as int));
        }
        let web = crate::text::same(&scheme, &chars_of("http")) || crate::text::same(&scheme, &chars_of("https"));
        if web && !has_prefix(&tail, &chars_of("//")) {
            return Link::Refused;
        }
        if web || crate::text::same(&scheme, &chars_of("mailto")) || crate::text::same(&scheme, &chars_of("file")) {
            return Link::Web(url_full(string_of(&raw).as_str()));
        }
        return Link::Refused;
    }
    if is_url && has_prefix(&raw, &chars_of("#")) {
        Link::Anchor(string_of(&raw))
    } else {
        Link::Local(string_of(&raw))
    }
}

} // verus!
