//! SLR analysis of a context-free grammar: rules are parsed from text, the
//! LR(0) automaton is built, and every state with a reduce conflict is checked
//! for resolvability with lookahead `k = 1, 2, ...`.
pub mod grammar;
pub mod automaton;
pub mod lookahead;
pub mod conflicts;
pub mod laws;
pub mod checks;
pub mod report;
