//! Fuzzy matching of a target string against a pattern within an edit budget.
//!
//! Two engines answer the same question: [`nondeterministic::Automaton`]
//! searches every edit path on demand, and [`deterministic::Automaton`]
//! walks a transition table that is built once from the pattern and budget.
pub mod nondeterministic;
pub mod deterministic;
