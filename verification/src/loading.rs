//! The decisions of loading a record from its files: which captures are
//! accepted, what a missing member does, and which files the ordinary reader
//! takes.
use vstd::prelude::*;
use crate::capability::{capabilities, capability};
use crate::document::{update_entry, updated};
use crate::page::strings;
use crate::tally::{add_key, add_sorted};
use crate::text::{char_views, chars_of, same, string_of};
use crate::value::{Error, Model, Value, entries, field, field_of, has_key, map_entries};

verus! {

broadcast use vstd::std_specs::vec::group_vec_axioms;

/// Whether the entries resolved from the paths hold a history, given which of
/// them carry an active history authority: a history entry is loaded alone,
/// and there must be at least one entry.
pub open spec fn load_mode(active: Seq<bool>) -> Result<bool, Seq<char>> {
    if active.len() == 0 {
        Err("invalid_snapshot"@)
    } else if active.contains(true) && active.len() != 1 {
        Err("history_composite_capture_unsupported"@)
    } else {
        Ok(active.contains(true))
    }
}

/// Whether a load reads a history (`true`) or the ordinary files, given for
/// each resolved entry whether its authority marker names a history.
pub fn history_mode(active: &Vec<bool>) -> (r: Result<bool, Error>)
    ensures
        match r {
            Ok(h) => load_mode(active@) == Ok::<bool, Seq<char>>(h),
            Err(e) => load_mode(active@) == Err::<bool, Seq<char>>(e.0@),
        },
{
    if active.len() == 0 {
        return Err(Error(string_of(&chars_of("invalid_snapshot"))));
    }
    let mut any = false;
    let mut i: usize = 0;
    while i < active.len()
        invariant
            0 <= i <= active.len(),
            any == exists|j: int| 0 <= j < i && active@[j],
        decreases active.len() - i,
    {
        if active[i] {
            any = true;
        }
        i = i + 1;
    }
    proof {
        if any {
            let j = choose|j: int| 0 <= j < active@.len() && active@[j];
            assert(active@[j] == true);
            assert(active@.contains(true));
        }
        if active@.contains(true) {
            let j = choose|j: int| 0 <= j < active@.len() && active@[j] == true;
            assert(active@[j]);
        }
    }
    if any && active.len() != 1 {
        return Err(Error(string_of(&chars_of("history_composite_capture_unsupported"))));
    }
    Ok(any)
}

/// A member file that does not exist: refused unless missing files are
/// allowed, and then the document's `meta` is set to an empty mapping.
pub fn missing_member(source: &mut Vec<(String, Value)>, allow_missing: bool) -> (r: Result<(), Error>)
    ensures
        r is Ok <==> allow_missing,
        r matches Err(e) ==> e.0@ == "missing_record"@ && final(source)@ == old(source)@,
        r is Ok ==> entries(final(source)@) == updated(entries(old(source)@), "meta"@, Model::Mapping(Seq::empty())),
{
    if !allow_missing {
        return Err(Error(string_of(&chars_of("missing_record"))));
    }
    let empty: Vec<(String, Value)> = Vec::new();
    proof {
        assert(entries(empty@) =~= Seq::empty());
    }
    update_entry(source, "meta", Value::Mapping(empty));
    Ok(())
}

/// Whether an authority marker names a history.
pub open spec fn history_marker(m: Model) -> bool {
    field_of(m, "authority"@) == Model::Text("history"@)
}

/// Whether an authority marker names a history.
pub fn is_history_marker(marker: &Value) -> (r: bool)
    ensures
        r == history_marker(marker@),
{
    match field(marker, "authority") {
        Some(Value::Text(t)) => crate::value::text_is(t, "history"),
        _ => false,
    }
}

/// Whether a file's `meta` declares a history.
pub open spec fn declares_history(value: Model) -> bool {
    let meta = field_of(value, "meta"@);
    meta is Mapping && has_key(map_entries(meta), "history"@)
}

/// Whether the ordinary reader takes a file, given the authority marker
/// beside it, if any: the file is a mapping; a file that declares a history
/// needs a marker; a history marker is not read here; a file declaring a
/// history beside another marker mismatches it; and the file's reasoning
/// capabilities must read.
pub open spec fn admitted(value: Model, authority: Option<Model>) -> Result<(), Seq<char>> {
    if !(value is Mapping) {
        Err("expected_mapping"@)
    } else if declares_history(value) && authority is None {
        Err("missing_history_authority"@)
    } else if authority matches Some(m) && history_marker(m) {
        Err("history_reader_unsupported"@)
    } else if declares_history(value) {
        Err("authority_mismatch"@)
    } else {
        match capability(value, None) {
            Err(e) => Err(e),
            Ok(_) => Ok(()),
        }
    }
}

/// The checks a member file passes before it is merged into the document.
pub fn admit_file(value: &Value, authority: Option<&Value>) -> (r: Result<(), Error>)
    ensures
        match r {
            Ok(()) => admitted(value@, match authority {
                Some(m) => Some(m@),
                None => None,
            }) == Ok::<(), Seq<char>>(()),
            Err(e) => admitted(value@, match authority {
                Some(m) => Some(m@),
                None => None,
            }) == Err::<(), Seq<char>>(e.0@),
        },
{
    match value {
        Value::Mapping(_) => {},
        _ => return Err(Error(string_of(&chars_of("expected_mapping")))),
    }
    let declared = match field(value, "meta") {
        Some(Value::Mapping(m)) => {
            proof {
                crate::value::lemma_entries(m@);
            }
            crate::value::get(m, "history").is_some()
        },
        _ => false,
    };
    proof {
        match field_of(value@, "meta"@) {
            Model::Mapping(_) => {},
            _ => {},
        }
    }
    assert(declared == declares_history(value@));
    let history = match authority {
        Some(m) => match field(m, "authority") {
            Some(Value::Text(t)) => crate::value::text_is(t, "history"),
            _ => false,
        },
        None => false,
    };
    if declared && authority.is_none() {
        return Err(Error(string_of(&chars_of("missing_history_authority"))));
    }
    if history {
        return Err(Error(string_of(&chars_of("history_reader_unsupported"))));
    }
    if declared {
        return Err(Error(string_of(&chars_of("authority_mismatch"))));
    }
    match capabilities(value, None) {
        Ok(_) => Ok(()),
        Err(e) => Err(e),
    }
}

/// The most files an ordinary record may span.
pub const MAX_SOURCES: usize = 100_000;

/// The walk of a load over a record's files: the entry files in order, each
/// followed depth first by the files it points to, and each file that was
/// read remembered (in ascending order, each once).
pub struct LoadWalk {
    pub entries: Vec<String>,
    pub next: usize,
    pub pending: Vec<String>,
    pub seen: Vec<Vec<char>>,
    pub allow_missing: bool,
}

pub struct WalkModel {
    pub entries: Seq<Seq<char>>,
    pub next: nat,
    pub pending: Seq<Seq<char>>,
    pub seen: Seq<Seq<char>>,
    pub allow_missing: bool,
}

impl View for LoadWalk {
    type V = WalkModel;

    open spec fn view(&self) -> WalkModel {
        WalkModel {
            entries: strings(self.entries@),
            next: self.next as nat,
            pending: strings(self.pending@),
            seen: char_views(self.seen@),
            allow_missing: self.allow_missing,
        }
    }
}

/// What happened to the file the walk last handed out, or a request for the
/// next one.
pub enum LoadEvent {
    /// The next file is wanted.
    Next,
    /// The file does not exist.
    Missing,
    /// The file at `path` was read and admitted; `pointers` are the existing
    /// files it points to, in its order.
    Read { path: String, pointers: Vec<String> },
}

pub enum EventModel {
    Next,
    Missing,
    Read(Seq<char>, Seq<Seq<char>>),
}

pub open spec fn event_view(e: LoadEvent) -> EventModel {
    match e {
        LoadEvent::Next => EventModel::Next,
        LoadEvent::Missing => EventModel::Missing,
        LoadEvent::Read { path, pointers } => EventModel::Read(path@, strings(pointers@)),
    }
}

/// What the load does next.
pub enum LoadAction {
    /// Read this file.
    Read(String),
    /// Set the document's `meta` to an empty mapping and go on.
    EmptyMeta,
    /// Merge the file just read and go on.
    Merge,
    /// Every file has been read.
    Done,
    /// Stop with this error.
    Fail(Error),
}

pub enum ActionModel {
    Read(Seq<char>),
    EmptyMeta,
    Merge,
    Done,
    Fail(Seq<char>),
}

pub open spec fn action_view(a: LoadAction) -> ActionModel {
    match a {
        LoadAction::Read(p) => ActionModel::Read(p@),
        LoadAction::EmptyMeta => ActionModel::EmptyMeta,
        LoadAction::Merge => ActionModel::Merge,
        LoadAction::Done => ActionModel::Done,
        LoadAction::Fail(e) => ActionModel::Fail(e.0@),
    }
}

/// The pointers not yet read, in order.
pub open spec fn unread(ps: Seq<Seq<char>>, seen: Seq<Seq<char>>) -> Seq<Seq<char>>
    decreases ps.len(),
{
    if ps.len() == 0 {
        Seq::empty()
    } else {
        let p = unread(ps.drop_last(), seen);
        if seen.contains(ps.last()) {
            p
        } else {
            p.push(ps.last())
        }
    }
}

/// The pending files without those at the top that were read already.
pub open spec fn trimmed(pending: Seq<Seq<char>>, seen: Seq<Seq<char>>) -> Seq<Seq<char>>
    decreases pending.len(),
{
    if pending.len() > 0 && seen.contains(pending.last()) {
        trimmed(pending.drop_last(), seen)
    } else {
        pending
    }
}

/// One step of the load's walk.
pub open spec fn load_next(s: WalkModel, e: EventModel) -> (WalkModel, ActionModel) {
    match e {
        EventModel::Next => if s.pending.len() > 0 {
            (WalkModel { pending: s.pending.drop_last(), ..s }, ActionModel::Read(s.pending.last()))
        } else if s.next < s.entries.len() {
            (WalkModel { next: s.next + 1, ..s }, ActionModel::Read(s.entries[s.next as int]))
        } else {
            (s, ActionModel::Done)
        },
        EventModel::Missing => if s.allow_missing {
            (s, ActionModel::EmptyMeta)
        } else {
            (s, ActionModel::Fail("missing_record"@))
        },
        EventModel::Read(path, pointers) => {
            let seen = add_key(s.seen, path);
            if seen.len() > MAX_SOURCES {
                (WalkModel { seen, ..s }, ActionModel::Fail("source_limit"@))
            } else {
                (
                    WalkModel { seen, pending: trimmed(s.pending + unread(pointers, seen).reverse(), seen), ..s },
                    ActionModel::Merge,
                )
            }
        },
    }
}

fn seen_holds(seen: &Vec<Vec<char>>, p: &[char]) -> (r: bool)
    ensures
        r == char_views(seen@).contains(p@),
{
    let ghost cv = char_views(seen@);
    let mut i: usize = 0;
    while i < seen.len()
        invariant
            0 <= i <= seen.len(),
            cv == char_views(seen@),
            forall|q: int| 0 <= q < i ==> #[trigger] cv[q] != p@,
        decreases seen.len() - i,
    {
        if same(&seen[i], p) {
            assert(cv[i as int] == p@);
            return true;
        }
        i = i + 1;
    }
    false
}

impl LoadWalk {
    /// A walk over the entry files, in order.
    pub fn start(entries: Vec<String>, allow_missing: bool) -> (r: LoadWalk)
        ensures
            r@ == (WalkModel {
                entries: strings(entries@),
                next: 0,
                pending: Seq::empty(),
                seen: Seq::empty(),
                allow_missing,
            }),
    {
        let r = LoadWalk { entries, next: 0, pending: Vec::new(), seen: Vec::new(), allow_missing };
        assert(strings(r.pending@) =~= Seq::empty());
        assert(char_views(r.seen@) =~= Seq::empty());
        r
    }

    /// Takes one step: hands out the next file, or answers what happened to
    /// the one handed out last.
    pub fn step(&mut self, event: LoadEvent) -> (action: LoadAction)
        ensures
            (final(self)@, action_view(action)) == load_next(old(self)@, event_view(event)),
    {
        match event {
            LoadEvent::Next => {
                if self.pending.len() > 0 {
                    let ghost before = self.pending@;
                    let p = self.pending.pop().unwrap();
                    proof {
                        assert(strings(self.pending@) =~= strings(before).drop_last());
                    }
                    LoadAction::Read(p)
                } else if self.next < self.entries.len() {
                    let p = self.entries[self.next].clone();
                    self.next = self.next + 1;
                    LoadAction::Read(p)
                } else {
                    LoadAction::Done
                }
            },
            LoadEvent::Missing => {
                if self.allow_missing {
                    LoadAction::EmptyMeta
                } else {
                    LoadAction::Fail(Error(string_of(&chars_of("missing_record"))))
                }
            },
            LoadEvent::Read { path, pointers } => {
                let pc = chars_of(path.as_str());
                add_sorted(&mut self.seen, &pc);
                if self.seen.len() > MAX_SOURCES {
                    return LoadAction::Fail(Error(string_of(&chars_of("source_limit"))));
                }
                let ghost seen = char_views(self.seen@);
                assert(seen == add_key(char_views(old(self).seen@), path@));
                let ghost pv = strings(pointers@);
                let mut fresh: Vec<String> = Vec::new();
                let mut i: usize = 0;
                while i < pointers.len()
                    invariant
                        0 <= i <= pointers.len(),
                        seen == char_views(self.seen@),
                        self.pending@ == old(self).pending@,
                        self.entries@ == old(self).entries@,
                        self.next == old(self).next,
                        self.allow_missing == old(self).allow_missing,
                        seen == add_key(char_views(old(self).seen@), path@),
                        pv == strings(pointers@),
                        strings(fresh@) == unread(pv.take(i as int), seen),
                    decreases pointers.len() - i,
                {
                    let read = seen_holds(&self.seen, &chars_of(pointers[i].as_str()));
                    proof {
                        assert(pv.take(i + 1).drop_last() =~= pv.take(i as int));
                        assert(pv.take(i + 1).last() == pointers@[i as int]@);
                    }
                    if !read {
                        let ghost b = fresh@;
                        fresh.push(pointers[i].clone());
                        proof {
                            assert(strings(fresh@) =~= strings(b).push(pointers@[i as int]@));
                        }
                    }
                    i = i + 1;
                }
                assert(pv.take(pointers.len() as int) =~= pv);
                let ghost start = strings(self.pending@);
                let ghost fv = strings(fresh@);
                let mut k: usize = fresh.len();
                while k > 0
                    invariant
                        0 <= k <= fresh.len(),
                        fv == strings(fresh@),
                        seen == char_views(self.seen@),
                        self.entries@ == old(self).entries@,
                        self.next == old(self).next,
                        self.allow_missing == old(self).allow_missing,
                        seen == add_key(char_views(old(self).seen@), path@),

                        strings(self.pending@) == start + fv.subrange(k as int, fv.len() as int).reverse(),
                    decreases k,
                {
                    let ghost b = strings(self.pending@);
                    self.pending.push(fresh[k - 1].clone());
                    proof {
                        assert(strings(self.pending@) =~= b.push(fv[k - 1]));
                        assert(fv.subrange(k - 1, fv.len() as int).reverse() =~= fv.subrange(k as int, fv.len() as int).reverse().push(
                            fv[k - 1],
                        ));
                    }
                    k = k - 1;
                }
                assert(fv.subrange(0, fv.len() as int) =~= fv);
                let ghost full = strings(self.pending@);
                while self.pending.len() > 0 && seen_holds(&self.seen, &chars_of(self.pending[self.pending.len() - 1].as_str()))
                    invariant
                        seen == char_views(self.seen@),
                        self.entries@ == old(self).entries@,
                        self.next == old(self).next,
                        self.allow_missing == old(self).allow_missing,
                        seen == add_key(char_views(old(self).seen@), path@),
                        trimmed(full, seen) == trimmed(strings(self.pending@), seen),
                    decreases self.pending.len(),
                {
                    let ghost b = self.pending@;
                    self.pending.pop();
                    proof {
                        assert(strings(self.pending@) =~= strings(b).drop_last());
                        assert(strings(b).last() == b.last()@);
                    }
                }
                proof {
                    let cur = strings(self.pending@);
                    if cur.len() > 0 {
                        assert(cur.last() == self.pending@.last()@);
                    }
                }
                LoadAction::Merge
            },
        }
    }
}

} // verus!
