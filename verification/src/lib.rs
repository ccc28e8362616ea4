//! A small regular-expression engine.
//!
//! A pattern is parsed into a postfix operator sequence, compiled into a
//! nondeterministic finite automaton (Thompson construction), determinized
//! by subset construction, and the resulting deterministic automaton answers
//! whether an input string is accepted.

pub mod regex;
