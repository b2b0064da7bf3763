//! A word finder: a prefix-tree lexicon and the enumeration of every
//! arrangement of every subset of a hand of letters.

mod graph;
pub mod permute;
pub mod powerset;
pub mod search;
pub mod text;
mod tree;
pub mod trie;
pub mod wordlist;
pub mod wordset;

pub use permute::MAX_LETTERS;
pub use powerset::powerset;
pub use search::find_words;
pub use search::note_word;
pub use search::SearchError;
pub use trie::Trie;
pub use wordlist::lexicon_from_lines;
