//! Normalisation of regular expressions by rewriting rules `left = right`:
//! a subexpression that unifies with the left side of a rule (the rule's
//! letters that do not occur in the expression are variables) is replaced by
//! the right side under the unifier, until no rule applies.
pub mod regex;
pub mod unify;
pub mod separate;
pub mod solve;
pub mod laws;
