//! Ordinary record reading and editing: the value domain, field roles and
//! capabilities, hypotheses laid over a record, the line layout of record
//! files and how they combine, what a page says, and retained identities.
pub mod text;
pub mod tally;
pub mod value;
pub mod python;
pub mod archive;
pub mod fields;
pub mod roles;
pub mod capability;
pub mod authoring;
pub mod language;
pub mod layout;
pub mod page;
pub mod checks;
pub mod arrange;
pub mod counters;
pub mod pointer;
pub mod session;
pub mod refusal;
pub mod navigation;
pub mod wording;
pub mod branches;
pub mod overlay;
pub mod cards;
pub mod explain;
pub mod links;
pub mod prose;
pub mod document;
pub mod dates;
pub mod brief;
pub mod identity;
pub mod migration;
pub mod route;
pub mod loading;
pub mod report;
pub mod union;
pub mod fold;
pub mod profile;
pub mod hub;
pub mod projection;
