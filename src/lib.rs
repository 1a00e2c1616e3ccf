//! Tape compilation and choice-driven simplification for implicit-surface
//! expressions.
//!
//! A scheduled expression is lowered into a single-assignment tape
//! ([`ssa::SsaTape::new`]); a simplification pass then drops the clauses that
//! a vector of `min` / `max` choices makes dead, renumbers the survivors and,
//! in the same walk, assigns registers under a register limit
//! ([`ssa::SsaTape::simplify`]). [`tape::Tape`] bundles both forms.

pub mod op;
mod allocator;
pub mod ssa;
mod pass;
pub mod scheduled;
mod builder;
pub mod tape;
