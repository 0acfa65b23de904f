//! A subword-vocabulary learner and tokenizer.
//!
//! The library learns a vocabulary from a text corpus by greedy
//! pair-frequency merging and segments text into tokens drawn from that
//! vocabulary.  Every operation is specified over character sequences and
//! verified: adjacency counting, deterministic tie-breaking, non-overlapping
//! merge application, and priority-ordered greedy segmentation.

pub mod counter;
pub mod rewrite;
pub mod segment;
pub mod selector;
pub mod split;
pub mod table;
pub mod text;
pub mod train;
pub mod vocab;
