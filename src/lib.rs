//! Approximate string lookup by character trigrams.
//!
//! Strings are cut into padded trigrams, gathered into a trie of fixed
//! depth, written as a compact binary file, and searched by merging the
//! posting lists of a query's trigrams into weighted Jaccard scores.
pub mod trigram;
pub mod trie;
pub mod builder;
pub mod codec;
pub mod index;
pub mod score;

pub use trigram::{with_trigrams, count_trigrams, trigrams_of_chars, normalize};
pub use trie::{Leaf, Branch, Entry};
pub use builder::NgramsBuilder;
pub use codec::{FormatError, SearchError, WriteError};
pub use score::{Match, Threshold};
pub use index::Ngrams;
