//! A find-and-replace core: locates occurrences of a pattern in a text
//! buffer and produces both the replaced output and a structured list of
//! the spans that changed, suitable for diff-style display.

pub mod casing;
pub mod encoding;
pub mod fragments;
pub mod pattern;
pub mod query;
pub mod replacer;
pub mod search;

pub use fragments::{Fragment, Fragments};
pub use query::{from_regex, substring, subvert, Query, QueryError};
pub use replacer::{replace, Replacement};
pub use search::occurs_at;
