//! Validation of named, optionally repeated entries against a declarative
//! schema: required entries, `requires` and `conflicts-with` edges, exclusive
//! groups and value counts, with every violation of a pass collected into one
//! report.
//!
//! - [`schema`]: declarations of arguments and groups.
//! - [`registry`]: the table that interns entry names.
//! - [`graph`]: the schema as a graph, its construction and its checks.
//! - [`pass`]: the occurrences of one validation pass, and their resolution.
//! - [`check`]: the rules, and what a pass reports.
//! - [`error`]: diagnostics and reports.
//! - [`format`]: rendering diagnostics as text.
//! - [`laws`]: properties of what a pass reports, proved.
pub mod check;
pub mod error;
pub mod format;
pub mod graph;
pub mod id;
pub mod laws;
pub mod pass;
pub mod registry;
pub mod schema;

pub use error::{Diagnostic, ErrorKind, Report};
pub use format::{DefaultFormatter, DefaultFormatterBuilder, Error, ErrorFormatter};
pub use graph::{Group, Schema, SchemaView};
pub use id::{Id, Str};
pub use pass::{OccurrenceStore, ValueState};
pub use registry::{IdMap, Info, InfoKind, SchemaError};
pub use schema::{new_attrs, ArgAction, ArgAttrs, ArgKind, ArgSchema, GroupSchema};
