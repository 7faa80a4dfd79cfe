//! Cycle detection for deterministic iterated functions, and a skip-ahead
//! evaluator that uses what it finds (`orbit`, `cycle_detection`); grid
//! directions (`grid`); searches over monotone predicates (`bisect`);
//! byte-level text parsing (`text`); and the puzzle solvers built on them
//! (`potions`, `inscriptions`, `digging`, `nails`, `dance`, `plans`,
//! `pyramid`, `stamps`, `runes`, `termites`).

pub mod orbit;
pub mod cycle_detection;
pub mod grid;
pub mod bisect;
pub mod text;
pub mod potions;
pub mod inscriptions;
pub mod digging;
pub mod nails;
pub mod dance;
pub mod plans;
pub mod pyramid;
pub mod stamps;
pub mod runes;
pub mod termites;
