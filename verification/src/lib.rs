//! Strandmap keeps the intent behind a code base next to the code: anchors name places in
//! source files, strands collect the anchors that serve one intent, and the library answers
//! which strands a change touches.

pub mod annotations;
pub mod change_laws;
pub mod cli;
pub mod collections;
pub mod command_laws;
pub mod commands;
pub mod config;
pub mod context_output;
pub mod digest;
pub mod edit_laws;
pub mod edits;
pub mod git;
pub mod globs;
pub mod graph;
pub mod graph_laws;
pub mod hit_laws;
pub mod index;
pub mod index_laws;
pub mod line_laws;
pub mod merge_laws;
pub mod metadata;
pub mod migration;
pub mod model;
pub mod output;
pub mod output_laws;
pub mod patch_laws;
pub mod paths;
pub mod patterns;
pub mod print_laws;
pub mod query_laws;
pub mod reach_laws;
pub mod refresh_laws;
pub mod render_laws;
pub mod repo;
pub mod review;
pub mod review_laws;
pub mod scan_laws;
pub mod search;
pub mod search_laws;
pub mod source_span;
pub mod span_laws;
pub mod stated_laws;
pub mod store_laws;
pub mod summaries;
pub mod syntax;
pub mod text;
pub mod touch_laws;
pub mod views;
pub mod walk_laws;

use vstd::prelude::*;

verus! {

/// The version of the library.
pub const VERSION: &'static str = "1.3.1";

} // verus!
