//! Core logic of a structural code-search and bulk-replace tool.
//!
//! Two independent components: a patch engine that applies byte-range edits
//! to a file's contents in one pass, keeping every edit's coordinates
//! expressed against the original buffer, and a result aggregator that turns
//! raw structural-match records into line-numbered, diff-annotated,
//! file-grouped display results.

pub mod aggregate;
pub mod bytes;
pub mod diff;
pub mod patch;
pub mod records;
pub mod sanitize;
