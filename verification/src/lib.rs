//! Precomputations over a shared term graph: named outputs that one party
//! evaluates in order, each able to read the outputs bound before it.
//!
//! [`term`] holds the graph of terms, [`eval`] what a term evaluates to,
//! [`cache`] the memoized evaluator, [`deps`] the free variables a term
//! depends on, [`precomp`] the precomputation itself, and [`staging`] what
//! holds of evaluating one precomputation after another.

pub mod term;
pub mod names;
pub mod lists;
pub mod eval;
pub mod cache;
pub mod deps;
pub mod precomp;
pub mod staging;

pub use crate::cache::ValueCache;
pub use crate::eval::EvalError;
pub use crate::precomp::{DuplicateOutput, PreComp};
pub use crate::term::{Op, Sort, Term, TermGraph, Value};
