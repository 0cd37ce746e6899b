//! Compiles named regular-expression patterns into one nondeterministic
//! automaton and scans text into tokens by longest match.
pub mod regex;

pub mod nfa;
pub mod lexer;
