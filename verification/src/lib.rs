//! A mine-deduction puzzle engine: a dual-grid board (hidden ground truth and
//! player-visible state), flood-fill and chord revelation mechanics, and a
//! two-tier solver (deterministic flagging/chording to a fixed point, then
//! bounded exhaustive enumeration of bomb patterns over the frontier).

pub mod board;
pub mod cell;
pub mod cellgrid;
pub mod codec;
pub mod counting;
pub mod grid;
pub mod solve;
pub mod soundness;
pub mod strategy;
pub mod utils;

pub use board::GameBoard;
pub use cell::Cell;
pub use grid::{CellsIter, CellsIterValue, Grid};
pub use strategy::strategy_simple;
pub use utils::unflatten;
