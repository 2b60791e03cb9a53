//! Document ingestion and indexing engine for a static site generator.
//!
//! Content files consist of a `key=value` header terminated by a `---`
//! line, followed by a markdown body that an external renderer turns into
//! HTML. This crate parses headers into [`post::PostMeta`] records, pairs
//! them with rendered bodies, and builds a [`post_db::PostDb`]: the
//! documents in descending date order, chronologically linked, with
//! slug and tag indices.

pub mod date;
pub mod post;
pub mod post_db;
pub mod text;
