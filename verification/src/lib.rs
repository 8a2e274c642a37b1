//! Knuth-Morris-Pratt substring search.
//!
//! [`prepare`] builds a prefix table for a needle; [`search`] scans a
//! haystack for the first occurrence of the needle, using that table to
//! avoid re-examining haystack bytes after a mismatch.

mod model;
mod scan;
mod table;

pub use model::entries_sound;
pub use model::fallback_len;
pub use model::first_match;
pub use model::first_match_from;
pub use model::is_border;
pub use model::is_match_at;
pub use model::lemma_first_match_absent;
pub use model::lemma_first_match_from;
pub use model::lemma_first_match_of;
pub use model::opt_model;
pub use model::table_complete;
pub use model::table_model;
pub use model::table_sound;
pub use scan::lemma_prepared_scan_equals_first_match;
pub use scan::lemma_scan_equals_first_match;
pub use scan::scan_from;
pub use scan::search;
pub use table::entry_is_longest_border;
pub use table::lemma_table_correct_implications;
pub use table::lemma_table_correct_unique;
pub use table::prepare;
pub use table::table_correct;
pub use table::PrefixTable;
