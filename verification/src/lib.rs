//! A generalized suffix automaton over a vocabulary, with a greedy
//! longest-match tokenizer built on top of it.
//!
//! The automaton is built from a trie, or from anything that can be walked
//! like one, and reads every substring of every word of the vocabulary. The
//! tokenizer cuts an input into the longest words of the vocabulary; it
//! reads its answers off persistent ropes that hang on the states of the
//! automaton.
pub mod sam;
pub mod sam_extend;
pub mod sam_model;
pub mod sam_order;
pub mod sam_paths;
pub mod table;
pub mod trie;
pub mod trie_alike;
pub mod trie_model;
pub mod utils;
