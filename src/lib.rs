//! Unicode text primitives: BCP-47 language identifier parsing, canonical
//! decomposition and composition over code point tries, and grapheme cluster
//! segmentation driven by rule tables.

pub mod langid;
pub mod normalizer;
pub mod round_trip;
pub mod segmenter;
pub mod subtag_iter;
pub mod subtags;
pub mod trie;
pub mod variants;
