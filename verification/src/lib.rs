//! Exhaustive analysis of finite two-player race games: exploration builds a
//! deduplicated graph of every state reachable from a root, and a memoized,
//! cycle-aware backward induction assigns each state a forced win for one
//! side, a draw, or a contradiction verdict.

/// Shared vocabulary: positions, outcomes, turns, canonical state codes, and
/// the state-transition contract a game variant supplies.
pub mod commons;

/// A vector-backed association from codes to values, read as a map in
/// specifications.
pub mod code_map;

/// The analysis engine: graph store, explorer, solver, and the laws of its
/// decision rule.
pub mod analysis;

/// A concrete variant: the three-piece race board with jumps.
pub mod board3;

/// A degenerate variant for driving the solver over hand-built graphs.
pub mod tag_board;

/// An exploration engine that also records each state's predecessors.
pub mod search;
