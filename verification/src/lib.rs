//! Regex synthesis core: turns a deterministic finite automaton that
//! recognises a finite set of strings into a concise regular-expression
//! tree, simplifying along the way by factoring common affixes, merging
//! single-codepoint alternatives into character classes, and absorbing
//! optional repetitions.

pub mod config;
pub mod grapheme;
pub mod ast;
pub mod ops;
pub mod laws;
pub mod dfa;
pub mod render;
