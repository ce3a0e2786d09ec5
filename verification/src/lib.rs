//! A prefix tree (trie) over lowercase ASCII words.
//!
//! The trie supports inserting a word, enumerating every stored word, and
//! enumerating the stored words that begin with a given prefix.  Every
//! operation is specified against a mathematical model of the tree: a
//! membership predicate saying which words are stored, and a sequence
//! giving the exact order in which enumeration reports them.

pub mod laws;
pub mod trie;
