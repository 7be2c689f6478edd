# ordinary

Reading and editing ordinary records: YAML files of collections whose
entries are values and judgments that rest on them. The library reads a
record's field roles, checks its declared capabilities, lays hypotheses
over it, words the pieces of its pages and reports, and edits its files
line by line. The functions
in `src/` are verified with Verus against contracts stated over a
mathematical model of the values they handle; the few calls into std,
`regex`, `chrono` and `uuid` go through small wrappers whose contracts are trusted
(`string_of`, `find_dotted_names`, `expression_like`,
`find_cited`, `parse_day`, `new_event_id`).

## Layout

- `src/value.rs`, `src/python.rs`, `src/text.rs`, `src/tally.rs`: the value
  domain with Python's reading of truth and text, and the text and counting
  helpers the rest builds on.
- `src/fields.rs`, `src/roles.rs`, `src/capability.rs`, `src/explain.rs`:
  which fields are dependencies, predicates and snapshots; the reasoning
  capabilities a record declares; and, where roles cannot be read, why.
- `src/overlay.rs`, `src/branches.rs`, `src/archive.rs`: hypotheses laid
  over a record, a branch's record kept in its own order, and the identities
  of retained versions.
- `src/layout.rs`, `src/document.rs`: the line layout of record files and
  how a record's files combine into one document.
- `src/page.rs`, `src/cards.rs`, `src/prose.rs`, `src/links.rs`,
  `src/dates.rs`, `src/wording.rs`, `src/authoring.rs`, `src/language.rs`:
  the words, cards, links and escaping a page and a report are made of.
- `src/identity.rs`, `src/migration.rs`, `src/route.rs`, `src/loading.rs`,
  `src/union.rs`, `src/fold.rs`, `src/report.rs`, `src/hub.rs`,
  `src/projection.rs`, `src/profile.rs`, `src/checks.rs`, `src/arrange.rs`,
  `src/counters.rs`, `src/pointer.rs`, `src/session.rs`, `src/refusal.rs`,
  `src/navigation.rs`:
  checks and decisions of the record's commands, not the commands
  themselves - the checks before an identity edit, which fields an
  expression migration touches, a contribution's routing options, the order
  in which a record's files are loaded, per-entry readings of a union and a
  fold's line edits, the consolidation report's lines, the facts a page is
  built from, the failures, notes and counters a page's brief raises, how a
  session's profile is laid over its nodes (topics, orientation, depth and
  unmatched ids in Python's order), the routes and buckets of a session's
  navigation, the field selectors a session reads its values by, and why a
  consolidation may not fold and how its report closes.
- `app/`: the file-system edges (walking and loading a record's files,
  resolving a link to a local file, today's date).
- `tests/`: tests on concrete values, run against the compiled library.

## What is not here

The library holds the decisions and words of the record's commands, not the
commands themselves. Not in it: the page's HTML (its renderers need the
record reader's naming and assessment modules and the page's style and
script files, and its tree drawing and drift are floating point); the
identity edits that rewrite record, hypothesis and brief texts (they parse
YAML); laying hypotheses over a base and describing each reading (the
record reader and its projection); and the navigation tree as a whole.
