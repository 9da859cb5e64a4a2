//! Compiler for a small textual language that describes named states and
//! character-driven transitions, producing a nondeterministic finite
//! automaton as per-state transition tables.
//!
//! The pipeline is strictly linear: source text is tokenized by the lexer,
//! the token stream is parsed into an ordered list of state definitions,
//! and the resolver turns those definitions into the final map from state
//! name to transition table. All identifier text is deduplicated through an
//! explicit [`string_interning::Interner`] that the caller owns and passes
//! to every stage.

pub mod automata;
pub mod laws;
pub mod lexer;
pub mod machine;
pub mod statements;
pub mod states;
pub mod string_interning;
pub mod syntax;
mod text;
pub mod tokens;

pub use string_interning::{intern, intern_get_str, InternedString, Interner};
