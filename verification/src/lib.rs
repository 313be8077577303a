//! A small regular-expression engine: a recursive-descent parser builds an
//! abstract syntax tree, a Thompson-style compiler flattens it into an
//! automaton of indexed instructions, and a breadth-first simulation decides
//! whether an input string is fully matched, in time linear in the product of
//! pattern size and input length.

pub mod chars;
pub mod regex;
pub mod regex_dfa;
pub mod regex_nfa;
