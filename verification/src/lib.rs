//! Difficulty ordering for flashcards ("gems").
//!
//! A gem is a flashcard that tests several atomic sub-concepts ("facets") at
//! once.  The library maintains a collection of gems together with derived
//! indices (gems grouped by their count of still-unknown facets, and a reverse
//! index from facet name to the gems that still lack it), and repeatedly
//! nominates a small, high-value facet set to learn next, propagating each
//! nomination across all affected gems while keeping the indices consistent.
#![verifier::loop_isolation(false)]

pub mod assoc;
pub mod basic;
pub mod collection;
pub mod freq;
pub mod gem;
pub mod ids;
pub mod select;

