//! Pattern-to-automaton exercise: compiler, graph-text codec, liveness
//! analysis and the equivalence check.

pub mod compile;
pub mod dead;
pub mod derive;
pub mod dot;
pub mod encode;
pub mod equiv;
pub mod generate;
pub mod grade;
pub mod language;
pub mod laws;
pub mod lexer;
pub mod live;
pub mod model;
pub mod parser;
pub mod paths;
pub mod roundtrip;

pub use compile::{automata_edges_from_word, split_and_collect, PatternError};
pub use derive::derive_nodes;
pub use dot::{dot_to_petgraph, ParsedGraph};
pub use encode::edges_to_dot;
pub use generate::{pattern_from_picks, word_count, word_length};
pub use equiv::{alphabet, equivalent, first_divergence, transition, Divergence};
pub use grade::{compare, first_root, states_of, AutomataEnv, Input, Output, Verdict};
pub use lexer::ParseError;
pub use live::compute_live;
pub use model::{Edge, Node};
