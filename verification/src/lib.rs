//! Word-frequency tokenizer and known/unknown vocabulary classifier.
//!
//! The tokenizer splits text into maximal runs of Unicode letters and digits,
//! optionally joined across a single apostrophe or plus sign, lower-cases each
//! token, and aggregates the tokens into a frequency table ordered by
//! descending count.  The classifier partitions the distinct tokens of such a
//! table into the words a learner already knows and those still unknown, and
//! computes summary statistics.  A small in-memory model of the vocabulary
//! store specifies how inserting, resolving and linking words behaves.

pub mod classify;
pub mod store;
pub mod text;
pub mod tokenizer;
