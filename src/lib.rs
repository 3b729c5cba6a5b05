//! Triangular peg-solitaire: board geometry, precomputed jump tables, an
//! exhaustive branch-and-bound search for the cheapest solution, and a
//! move-notation report.

pub mod tri_pos;
pub mod table;
pub mod ledger;
pub mod search;
pub mod report;
