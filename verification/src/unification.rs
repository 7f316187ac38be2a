//! First-order unification by the Martelli–Montanari method: two terms
//! built from constructors and variables are equated, the equations are
//! solved step by step, and the solved system is reported.
pub mod term;
pub mod system;
pub mod separate;
pub mod solve;
pub mod parse;
pub mod laws;
