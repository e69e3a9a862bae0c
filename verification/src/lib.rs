//! A line-oriented substring search library.
//!
//! Given a query string and the contents of one or more files, the library
//! reports the lines that contain the query, optionally folding letter case
//! before comparison.  Matching, line splitting, trimming and the ordered
//! aggregation of per-file results are all verified; reading files and
//! spawning workers is left to the surrounding program.

pub mod casefold;
pub mod dispatcher;
pub mod searcher;
pub mod text;

pub use casefold::lower_of;
pub use dispatcher::{block_of, blocks_of, rendered_block, rendered_blocks, rendered_lines};
pub use dispatcher::{dispatch, emit_fan_out, execute, render_block, render_single};
pub use dispatcher::{RunError, SearchResult};
pub use dispatcher::{lemma_blocks_in_submission_order, lemma_target_isolation};
pub use searcher::{is_subsequence, line_matches, matching_lines, search_spec};
pub use searcher::{lemma_ci_match_depends_on_folded, lemma_empty_query_returns_every_line};
pub use searcher::{lemma_search_idempotent, lemma_search_within_lines};
pub use searcher::{run_search, search, search_case_insensitive, Config};
pub use text::{contains_chars, has_substring, split_lines, trim_spec};
