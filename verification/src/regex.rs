//! The regular-expression engine: parser, automaton graph, and the
//! NFA / DFA construction pipeline.

pub mod automaton;
pub mod transform;
