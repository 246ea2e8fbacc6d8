//! Build-time compiler for a normalized emoji catalog.
//!
//! Two loosely structured Unicode data sources — an emoji registry listing
//! and per-locale CLDR-style annotation documents — are parsed, reconciled
//! and merged into one deduplicated, ordered table of emoji entries, ready
//! for substring search. The modules mirror the pipeline: `registry` and
//! `annotations` parse the inputs, `tones` classifies skin-tone variants,
//! `catalog` assembles the entries, `emit` serializes them, and `search`
//! and `controller` serve a consumer of the finished table.

pub mod annotations;
pub mod catalog;
pub mod controller;
pub mod emit;
pub mod keys;
pub mod registry;
pub mod search;
pub mod strings;
pub mod tones;
pub mod text;
