//! A move-selection engine for a falling-block puzzle: the board and piece
//! model, the placement and line-clearing rules, the board statistics that an
//! evaluator scores, and the search that picks a placement.

pub mod bag;
pub mod board;
pub mod engine;
pub mod pieces;
pub mod pos;
pub mod search;
pub mod stats;
pub mod text;
