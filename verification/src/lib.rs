//! Verified grading oracles for small text exercises.
//!
//! [`automata`] compiles an alternation pattern into a finite automaton,
//! writes and reads automata as directed-graph text, and decides whether a
//! submitted graph text describes the same language as a pattern.
//! [`hello_world`] shouts every second word of a sentence.

pub mod automata;
pub mod hello_world;
pub mod text;
