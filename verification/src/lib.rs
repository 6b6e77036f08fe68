//! Exhaustive search for symmetric cycle assignments.
//!
//! For a problem size `n`, one more than a multiple of four, the labels
//! `1..n` come in inverse pairs `i` and `n - i`. The search builds two
//! sequences of labels, seeded with `1` and `2`, that hold a quarter of the
//! labels each, such that the table of successors derived from the sequences
//! claims no edge between two labels twice.
//!
//! - [`model`]: what an assignment implies: table entries, claimed edges.
//! - [`state`]: the search state and its consistency.
//! - [`table`]: writes to the derived table, with conflict detection and undo.
//! - [`derive`]: how the derived table grows and shrinks with the sequences.
//! - [`extend`]: appending a label to a sequence, and taking it away again.
//! - [`search`]: the backtracking search.
//! - [`collect`]: branches of the search, and merging what they find.
//! - [`output`]: the text line of a solution.
//! - [`laws`]: what holds of the search as a whole.
//! - [`table_proofs`], [`search_proofs`]: the lemmas behind the two.

pub mod collect;
pub mod derive;
pub mod extend;
pub mod laws;
pub mod model;
pub mod output;
pub mod search;
pub mod search_proofs;
pub mod state;
pub mod table;
pub mod table_proofs;

pub use crate::state::{Cycle, CyclePermuter, CycleSet};
