//! A suffix trie over the word sequences of a text corpus, the analytics
//! derived from it, and a diagonal enumerator of multi-dimensional indices.

pub mod rule;
pub mod string_handlers;
pub mod tree;
pub mod tree_lemmas;
pub mod trie;
