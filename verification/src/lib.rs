//! Pattern-based hyphenation: a weighted trie of digit-annotated patterns,
//! a corpus that turns pattern weights into permissible break offsets, and
//! a text hyphenator that renders breaks with a configurable mark.

pub mod corpus;
pub mod hyphen;
pub mod hyphenate;
pub mod text;
pub mod trie;
