//! Content indexing pipeline for a markdown-backed site.
//!
//! A collection of content entries lives as markdown documents with a
//! structured frontmatter block.  This crate parses those documents,
//! normalizes asset references, aggregates the entries into a sorted
//! index, derives filter categories, estimates reading time, and
//! encodes/decodes the persisted index artifact.

pub mod blog;
pub mod categories;
pub mod content;
pub mod fields;
pub mod yaml;
pub mod json;
pub mod markdown;
pub mod normalize;
pub mod projects;
pub mod seqs;
pub mod text;
