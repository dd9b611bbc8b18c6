//! Simplification of constraint expressions over partially known values.
//!
//! A policy query about a resource whose identity is not yet known ends in a
//! conjunction of constraints on a variable instead of a concrete answer.
//! This crate rewrites such a conjunction to a small canonical form.
//!
//! `terms`, `bindings` and `oracle` hold the data. `rules` says as
//! mathematics what the rewriting gives; `simplify` runs it on one term and
//! `present` on the bindings of a result. `laws`, `idempotence` and
//! `termination` prove what holds of the rules for every term, and
//! `orderly` tells of a term beforehand that it will be simplified.
pub mod bindings;
pub mod error;
pub mod idempotence;
pub mod laws;
pub mod oracle;
pub mod orderly;
pub mod prepare;
pub mod present;
pub mod rename;
pub mod rules;
pub mod simplify;
pub mod termination;
pub mod terms;
