//! An in-memory associative container with exact-key lookup and partial
//! ("prefix") lookup over the ASCII keyword tokens found inside each key.
//!
//! The tokenizer lives in [`tokenizer`]; the container itself, with its
//! exact-key index and inverted keyword index, lives in [`keyword_map`].

pub mod keyword_map;
pub mod tokenizer;

pub use keyword_map::KeywordMap;
pub use keyword_map::Match;
pub use tokenizer::Keywords;
