//! A bit-decomposition range-check gadget, modelled and verified.
//!
//! The heart of the crate is a running-sum decomposition of a field value
//! into fixed-width chunks, each validated against a tagged lookup table,
//! with a shift-and-recheck step for a final partial chunk.  The field, the
//! witness region and the constraint system are modelled over plain
//! integers, so the whole soundness argument is checked by the verifier:
//! the region a truthful witness writes satisfies every constraint, and the
//! region an untruthful one writes never does.
//!
//! Alongside the gadget lives a small exercise runner: the pure part of a
//! learner's exercise tracker, judging completion state from source text.

pub mod bits;
pub mod constraints;
pub mod decompose;
pub mod exercise;
pub mod field;
pub mod region;
pub mod table;
