//! Minimum-cost paths over a digit grid under a movement discipline.
//!
//! The crate models a rectangular grid of per-cell entry costs (digits 0-9)
//! and finds the cheapest path from a start cell to a goal cell, where the
//! path may never reverse its previous move and must respect run-length
//! rules: the basic discipline caps straight runs at 3 steps, the ultra
//! discipline caps them at 10 and additionally forbids turning before 4
//! consecutive steps in the current direction.

pub mod dirs;
pub mod discipline;
pub mod grid;
pub mod laws;
pub mod paths;
pub mod search;
pub mod solve;
pub mod util;
