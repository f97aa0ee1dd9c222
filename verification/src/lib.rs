//! Per-key minimum, mean and maximum over a flat text file of `key;value`
//! records.
//!
//! A batch is one pass over the bytes of the input: the scanner in `scan`
//! hands out the records, `decimal` reads each value as a number of tenths,
//! the trie in `trie` keeps the running `stats` of each key, and `format`
//! writes the store out as one line with its keys in ascending `order`.
//! `batch` puts the pass together, `split` and `trie::merging` let the input
//! be taken in by parts.
//!
//! What each function does is stated in its contract and proved. `model`
//! says what aggregation means apart from any data structure, and `laws`
//! holds what follows for every input. One call leaves the crate, the one
//! into `atoi` in `decimal`; what is believed of it is said there.

pub mod ascii;
pub mod batch;
mod bits;
pub mod decimal;
pub mod error;
pub mod format;
pub mod laws;
pub mod model;
pub mod order;
pub mod scan;
pub mod split;
pub mod stats;
pub mod trie;
