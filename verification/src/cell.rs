//! The closed set of cell states shared by the ground-truth grid and the
//! player-visible grid.

use vstd::prelude::*;

verus! {

/// One cell of a board grid.
///
/// `Number(n)` is a revealed cell whose 8-neighborhood holds `n` bombs
/// (`0 <= n <= 8` on any well-formed board), `Bomb` is a ground-truth bomb,
/// `Flag` is a player-asserted bomb, `Unknown` is an unrevealed cell, and
/// `Asterix` is a display-only marker that the text encoding reserves.
#[derive(Clone, Copy, Debug, PartialEq, Eq, Structural)]
pub enum Cell {
    Number(u8),
    Flag,
    Bomb,
    Unknown,
    Asterix,
}

impl Cell {
    /// A cell value that the text encoding can represent.
    pub open spec fn is_token(self) -> bool {
        match self {
            Cell::Number(n) => n <= 8,
            _ => true,
        }
    }
}

} // verus!
