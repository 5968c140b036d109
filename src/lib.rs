//! Subset construction from an epsilon-NFA to a DFA, and a maximal-munch
//! scanner that drives such a DFA over text.

pub mod lexer;
pub mod nfa;
pub mod records;
pub mod stateset;
pub mod subset;
pub mod tokens;
