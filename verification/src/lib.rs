//! A persisted store of filesystem paths, each carrying a weight that tracks
//! how often the path is visited.  The store offers CRUD operations, a
//! deterministic ranking of its paths, a reconciliation step against the set
//! of directories that currently exist, and a textual document format used to
//! persist the mapping between invocations.

pub mod database;
pub mod digits;
pub mod document;
pub mod errors;
pub mod ranking;
pub mod reconciler;
pub mod text;
