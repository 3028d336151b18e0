//! Sizes and limits shared by every part of the engine.

use vstd::prelude::*;

verus! {

/// Number of rows, and of columns, of the board.
pub const FIELD_SIZE: usize = 9;

/// Number of cells of the board.
pub const CELL_COUNT: usize = 81;

/// Number of circle colours; a colour is a value in `0..CIRCLE_KINDS`.
pub const CIRCLE_KINDS: i32 = 7;

/// Number of circles that a refill adds to the preview.
pub const CIRCLES_PER_TURN: usize = 3;

/// Content of a cell that holds no circle.
pub const EMPTY: i32 = -1;

/// Whether `(row, col)` names a cell of the board.
pub open spec fn in_bounds(row: int, col: int) -> bool {
    0 <= row < FIELD_SIZE && 0 <= col < FIELD_SIZE
}

/// Whether `pos` names a cell of the board.
pub open spec fn on_board(pos: (usize, usize)) -> bool {
    pos.0 < FIELD_SIZE && pos.1 < FIELD_SIZE
}

/// Place of the cell at `pos` in row-major order.
pub open spec fn cell_index(pos: (usize, usize)) -> int {
    pos.0 * 9 + pos.1
}

/// The cell at place `k` in row-major order.
pub open spec fn cell_at_index(k: int) -> (usize, usize) {
    ((k / 9) as usize, (k % 9) as usize)
}

/// A board seen as rows of cell contents: `EMPTY` or a colour.
pub type Grid = Seq<Seq<int>>;

/// A grid has `FIELD_SIZE` rows of `FIELD_SIZE` cells, each empty or holding a colour.
pub open spec fn grid_wf(g: Grid) -> bool {
    &&& g.len() == FIELD_SIZE
    &&& forall|r: int| 0 <= r < FIELD_SIZE ==> (#[trigger] g[r]).len() == FIELD_SIZE
    &&& forall|r: int, c: int|
        0 <= r < FIELD_SIZE && 0 <= c < FIELD_SIZE ==> EMPTY <= #[trigger] g[r][c] < CIRCLE_KINDS
}

/// Content of the cell at `pos`.
pub open spec fn cell(g: Grid, pos: (usize, usize)) -> int {
    g[pos.0 as int][pos.1 as int]
}

/// Whether the cell at `pos` holds no circle.
pub open spec fn is_free(g: Grid, pos: (usize, usize)) -> bool {
    cell(g, pos) == EMPTY
}

/// The grid `g` with the content of the cell at `pos` replaced by `value`.
pub open spec fn grid_set(g: Grid, pos: (usize, usize), value: int) -> Grid {
    g.update(pos.0 as int, g[pos.0 as int].update(pos.1 as int, value))
}

/// The grid whose cells are all empty.
pub open spec fn empty_grid() -> Grid {
    Seq::new(FIELD_SIZE as nat, |r: int| Seq::new(FIELD_SIZE as nat, |c: int| EMPTY as int))
}

} // verus!
