//! Identify genomic regions enriched in de-novo mutations.
//!
//! The pipeline enumerates every possible point mutation in each annotated
//! region together with its probability, sums those probabilities into
//! expected counts, draws Monte-Carlo realizations of mutation counts to
//! build an empirical null distribution, classifies observed variants by
//! consequence, and scores each (region, consequence) pair with a one-sided
//! right-tail p-value.
//!
//! Probabilities are held as exact decimal fixed-point integers
//! (`FRAC_UNIT` units to one), so sums of many tiny per-site probabilities
//! accumulate without rounding, and all text artifacts are byte strings.

pub mod annotation;
pub mod compare;
pub mod classify;
pub mod counts;
pub mod enumerate;
pub mod error;
pub mod expect;
pub mod interval;
pub mod io;
pub mod mutation_type;
pub mod observed;
pub mod sample;
pub mod serialize;
pub mod text;
pub mod transform;

pub use mutation_type::MutationType;
