//! Renumbering of sparse labels.
//!
//! A text holds one record a line: an identifier, then labels, which are
//! numbers. This library counts how often each label occurs over all records,
//! keeps the labels that occur at least a given number of times, gives the
//! kept labels the numbers `0, 1, 2, ...` in ascending order, and writes each
//! record down again with the new numbers of its kept labels. It also gives
//! the mapping from new numbers back to old labels.
//!
//! [`Counter`] counts, [`Remap`] holds the renumbering and rewrites, and
//! [`remap_lines`] does the whole on lines held in memory. The module `laws`
//! states what holds of every renumbering.

pub mod counter;
pub mod decimal;
pub mod laws;
pub mod pipeline;
pub mod record;
pub mod remap;
pub mod selection;
pub mod sorting;
pub mod text;

pub use counter::Counter;
pub use decimal::{format_label, parse_label};
pub use pipeline::{remap_lines, RemapError, Remapped};
pub use record::{format_record, parse_record, ParseError, Record};
pub use remap::Remap;
