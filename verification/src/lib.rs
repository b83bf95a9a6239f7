//! A two-dimensional cellular automaton following Conway's life rule.
//!
//! The grid is a central arena of cells addressed by a stable integer id
//! (the arena index). Each cell caches its Moore-neighborhood adjacency as
//! plain coordinate/id links that are resolved at read time through the
//! owning board, so the cyclic neighbor relation never needs cell-to-cell
//! references. A simulation step is split into a read-only compute phase,
//! which evaluates the life rule for every relevant cell against a fixed
//! snapshot of the current generation, and a commit phase, which writes the
//! computed flags back and advances the generation counter by exactly one.
//! Restricting the compute phase to the relevant cells — every alive cell
//! and each of its neighbors — is proved sound: one full step advances
//! every cell of the board by the life rule.
//!
//! Beside the board engine, `cell_manager` holds a flat-list variant of
//! the same rule that looks neighbors up by position at evaluation time
//! instead of through a prebuilt adjacency graph.

pub mod board;
pub mod cell;
pub mod cell_manager;
