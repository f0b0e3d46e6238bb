//! A disk-usage inspector's core: a verified size-aggregation engine.
//!
//! The library works on an in-memory picture of a directory tree (`tree::Node`)
//! that the surrounding program fills in from the filesystem.  On that picture
//! it computes recursive subtree sizes, collects one report entry per direct
//! child of a scanned root, and runs the report pipeline: minimum-size
//! filtering, stable sorting, truncation, and an extension summary.  It also
//! renders sizes and type tags, and encodes entry collections to a structured
//! document that it can parse back.

pub mod codec;
pub mod collect;
pub mod digits;
pub mod entry;
pub mod naming;
pub mod pipeline;
pub mod preview;
pub mod render;
pub mod strutil;
pub mod summary;
pub mod tree;
