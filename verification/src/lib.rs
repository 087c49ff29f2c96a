//! An in-memory index that resolves partially-specified or differently-rooted
//! file paths against a corpus of canonical file paths.
//!
//! Paths are tokenized into `/`-separated components, normalized (`.` and `..`
//! resolved without filesystem access), and read basename-first; the index is
//! a trie over these reversed component sequences.  Lookups favor the deepest
//! exact match and may extend an under-specified query through an unambiguous
//! chain of the index ("forced completion") once enough components matched.

pub mod filetree;
