use vstd::prelude::*;

verus! {

/// Number of lines (and columns) of the board.
pub const BOARD_SIZE: usize = 15;

/// Number of cells of the board.
pub const BOARD_CELLS: usize = 225;

} // verus!
