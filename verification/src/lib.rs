//! Tallies how often each keycode occurs in a text of keycode lines and renders
//! the totals, by key label, as a brace-delimited record.
//!
//! The text is cut into one part per worker ([`split_to_thread_data`]), the lines
//! of each part are counted by key ([`count_lines`]), the partial counts are
//! folded into one map ([`FrequencyMap::merge`]) and the map is rendered
//! ([`render`]). [`tally`] runs the counting for all parts in turn.
//!
//! The keys of a map are handed out in the order in which they were first
//! counted, so the same input always gives the same report.

pub mod config;
pub mod frequency;
pub mod labels;
pub mod partition;
pub mod report;
pub mod tally;
pub mod text;

pub use config::Config;
pub use frequency::{count_keys, FrequencyMap};
pub use labels::key_label;
pub use partition::{checked_split, split_to_thread_data, splits_cleanly, PartitionError};
pub use report::{render, unknown_keycode_message, Report};
pub use tally::{count_lines, tally};
