//! Data model of the game: fields, the board, and the game status.

use vstd::prelude::*;

verus! {

/// A field of a board, which can be empty (`None`)
/// or hold the symbol of a player (`Some`).
pub type Field = Option<char>;

/// A line of a board: one row, one column, or one diagonal,
/// holding the board size's number of fields.
pub type Line = Vec<Field>;

/// A move to make on the board: a one-based field index together
/// with a player symbol.
pub type Move = (u8, char);

/// Current status of a game.
#[derive(Copy, Clone, Debug, Eq, PartialEq)]
pub enum Status {
    Draw,
    StillPlaying,
    SomeoneWon(char),
}

/// Smallest board size on which a line-based win is meaningful.
pub const MIN_BOARD_SIZE: u8 = 3;

/// Largest board size whose field count still fits the `u8` move index.
pub const MAX_BOARD_SIZE: u8 = 15;

/// An `N x N` grid of fields, stored in row-major order.
pub struct Board {
    /// Number of rows and columns (`N`).
    pub size: u8,
    /// The `N * N` fields, row by row.
    pub cells: Vec<Field>,
}

impl Board {
    /// A board is well formed when its size is in the supported range
    /// and it holds exactly `size * size` fields.
    pub open spec fn wf(self) -> bool {
        &&& MIN_BOARD_SIZE <= self.size <= MAX_BOARD_SIZE
        &&& self.cells@.len() == (self.size as int) * (self.size as int)
    }

    /// The field in row `r`, column `c` (both zero-based).
    pub open spec fn at(self, r: int, c: int) -> Field {
        self.cells@[r * (self.size as int) + c]
    }

    /// True when every field of the board is empty.
    pub open spec fn all_empty(self) -> bool {
        forall|i: int| 0 <= i < self.cells@.len() ==> self.cells@[i] is None
    }
}

} // verus!
