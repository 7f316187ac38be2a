//! Three small symbolic-computation tools with verified cores: first-order
//! term unification, rewriting of regular expressions by normalisation rules,
//! and the construction of an LR(0) automaton whose reduce conflicts are
//! checked against FIRST/FOLLOW sets of growing lookahead.
pub mod text;
pub mod slr;
pub mod normalize;
pub mod unification;
