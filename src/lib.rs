//! A prefix trie: a map from finite sequences of tokens to values, with
//! prefix queries, pruning removal and enumeration of every stored key.

mod adapter;
mod item;
pub mod laws;
mod token;
mod trie;

pub use item::{pairs, IterItem};
pub use token::Token;
pub use trie::Trie;
