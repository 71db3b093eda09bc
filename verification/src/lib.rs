//! Keyboard typo variants.
//!
//! For a word, an adjacency map over characters and a depth, the library
//! produces every string that results from replacing at most `depth` of the
//! word's characters by a keyboard neighbour. The set of variants is specified
//! in `variants`, computed in `generator`, and gathered per chunk of input
//! words in `batch`.

pub mod adjacency;
pub mod batch;
pub mod depth;
pub mod generator;
pub mod text;
pub mod variant_set;
pub mod variants;
