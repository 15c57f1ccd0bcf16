//! Finite automata and regular expressions over integer alphabets.
//!
//! The crate represents nondeterministic and deterministic finite automata
//! and regular-expression syntax trees, builds automata from expressions,
//! converts between the representations, and computes boolean language
//! algebra (union, intersection, difference, complement, equivalence).
//! States and symbols are `u64` values; composite constructions keep state
//! identifiers collision-free by reindexing each operand into a disjoint
//! dense integer range.

pub mod table;
pub mod regex;
pub mod nfa;
pub mod dfa;
pub mod conversions;
