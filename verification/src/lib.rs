//! A verified core for an interactive file-name search tool.
//!
//! The crate indexes file and directory names, answers fuzzy and
//! regular-expression queries over them with a ranked result list, keeps
//! the index current as change events arrive, and caches recent query
//! results.  Callers reach it through two operations on
//! [`cache::SearchSystem`]: [`cache::SearchSystem::get_or_compute`] serves
//! a query for a scope (splitting and lowercasing of the raw query is the
//! caller's side of the contract, via [`text::parse_query`]), and
//! [`cache::SearchSystem::notify_change`] feeds one filesystem change
//! event into the index.
//!
//! The pieces, leaf first:
//! - [`text`]: case folding, substring tests, lexicographic order, path
//!   splitting and tokenization over `Seq<char>` views;
//! - [`distance`]: Levenshtein distance and the fixed-point similarity;
//! - [`pattern`]: the trusted boundary to the regex crate;
//! - [`ignore`]: the Ignore Policy deciding what may be indexed;
//! - [`index`]: the Index Store, an inverted token index, an ordered name
//!   index and a modification-time table kept in step;
//! - [`engine`]: the Query Engine with its two mutually exclusive modes;
//! - [`cache`]: the Result Cache and the combined search system;
//! - [`recent`]: bounded top-K selection of the most recent entries;
//! - [`lookup`]: the exact / pattern / edit-distance fallback chain over a
//!   persisted name table;
//! - [`files`]: name validation, rendering helpers and journal parsing.
//!
//! Filesystem walking, watching and persistence are left to the caller,
//! which hands in plain crawl entries and change events; everything here
//! is deterministic over those values.  All scores are fixed-point
//! integers on the scale [`SCORE_SCALE`], so every ranking decision is
//! exact and verified.

pub mod cache;
pub mod distance;
pub mod engine;
pub mod files;
pub mod ignore;
pub mod index;
pub mod lookup;
pub mod pattern;
pub mod recent;
pub mod text;

use vstd::prelude::*;

verus! {

/// Fixed-point scale for similarity scores: a score of `SCORE_SCALE`
/// stands for a perfect match (1.0), half of it for 0.5, and so on.
pub const SCORE_SCALE: u64 = 10000;

} // verus!
