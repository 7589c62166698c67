//! What the tokenizer is built from: the persistent treap, the rope on it,
//! and the data that hangs on the states of an automaton.
pub mod rope;
pub mod suffix_model;
pub mod suffixwise;
pub mod tokenize;
pub mod treap;
pub mod vocab;
