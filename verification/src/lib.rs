//! Word lookup and spelling suggestions over a prefix tree.
//!
//! [`data_structures::Trie`] holds a set of words; [`spellchecker::SpellChecker`]
//! finds the words of a text that a vocabulary lacks and proposes words of the
//! vocabulary that begin alike.
pub mod data_structures;
pub mod order;
pub mod spellchecker;
pub mod text;
