//! Classification of Unicode codepoints against the two identifier
//! properties (may start / may continue an identifier) and validation of
//! identifiers under UAX #31 "Default Identifiers".
//!
//! The classification is served from a compact, two-level, run-length
//! encoded table: a raw per-codepoint table is compressed into maximal
//! runs, sliced into fixed-size blocks, each block's run list deduplicated
//! into a leaf pool, and the block index split into a two-level index of
//! deduplicated second-level tables.  Construction proves that decoding
//! the finished table reproduces the raw table exactly.

mod class;
mod ident;
mod props;
mod raw;
mod runs;
mod table;
mod viz;

pub use class::IDENTIFIER_CONTINUE;
pub use class::IDENTIFIER_OTHER;
pub use class::IDENTIFIER_START;
pub use class::UnicodeIdentifierClass;
pub use class::value_is_continue;
pub use class::value_is_start;
pub use ident::continue_ok;
pub use ident::is_identifier;
pub use ident::is_joiner;
pub use ident::spec_is_identifier;
pub use ident::str_is_identifier;
pub use props::Error;
pub use props::PropertyRange;
pub use props::SpecLine;
pub use props::SpecRange;
pub use props::classify_line;
pub use props::error_models;
pub use props::parse;
pub use props::parse_range;
pub use props::props_continue;
pub use props::props_start;
pub use props::spec_parse;
pub use props::spec_parse_range;
pub use raw::CODEPOINT_LIMIT;
pub use raw::MAX_CODEPOINT;
pub use raw::RawTable;
pub use raw::SCALAR_LIMIT;
pub use raw::build_raw_table;
pub use raw::props_table;
pub use runs::Run;
pub use runs::build_runs;
pub use runs::expand_runs;
pub use runs::lemma_run_round_trip;
pub use runs::run_value_at;
pub use runs::runs_match;
pub use runs::runs_maximal;
pub use runs::runs_wf;
pub use table::BLOCK_COUNT;
pub use table::BLOCK_SIZE;
pub use table::CompactTable;
pub use table::LOWER_BITS;
pub use table::SHIFT;
pub use table::TOP_BITS;
pub use table::ascii_class;
pub use table::ascii_table;
pub use table::lemma_ascii_agreement;
pub use table::lemma_bounded_range_totality;
pub use table::lemma_ground_truth_equivalence;
pub use table::unicode_identifier_class;
pub use viz::Class;
pub use viz::ColorRun;
pub use viz::Rgb;
pub use viz::Stats;
pub use viz::class_of_value;
pub use viz::compute_stats;
pub use viz::count_stat;
pub use viz::pixel_class;
pub use viz::row_color_runs;
pub use viz::run_matches;
