//! Catalog synchronization for a local application launcher.
//!
//! The library keeps a persistent catalog that maps human-readable,
//! lower-cased labels to installed-package entries.  It provides:
//! the on-disk codec for the catalog (a JSON-shaped text format that
//! round-trips exactly), the catalog builder, the change-detector logic
//! that diffs the cached package set against the live one and patches
//! the catalog, and the label resolution used by the command dispatcher.
//!
//! All file, process and terminal I/O lives outside the library; the
//! functions here are pure and fully specified.

pub mod pkg;
pub mod text;
pub mod catalog;
pub mod codec;
pub mod query;
pub mod resolve;
pub mod detect;
pub mod builder;
