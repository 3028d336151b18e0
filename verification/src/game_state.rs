//! The board, its cells and the preview batch, with the operations that read
//! and write single cells and count the free ones.

use vstd::prelude::*;
use crate::common::{
    cell_at_index, cell_index, empty_grid, grid_set, grid_wf, is_free, on_board, Grid, CELL_COUNT,
    CIRCLE_KINDS, EMPTY, FIELD_SIZE,
};

verus! {

/// Content of one cell: `EMPTY` or a colour in `0..CIRCLE_KINDS`.
#[derive(Clone, Copy, Debug, PartialEq, Eq, Structural)]
pub struct CellState(pub i32);

impl CellState {
    /// Whether the content is `EMPTY` or a colour.
    pub open spec fn valid(&self) -> bool {
        EMPTY <= self.0 < CIRCLE_KINDS
    }

    /// The content of a cell without a circle.
    pub fn empty() -> (cell: CellState)
        ensures
            cell.0 == EMPTY,
    {
        CellState(EMPTY)
    }

    /// Whether the cell holds no circle.
    pub fn is_empty(&self) -> (free: bool)
        ensures
            free == (self.0 == EMPTY),
    {
        self.0 == EMPTY
    }
}

impl Default for CellState {
    fn default() -> (cell: CellState)
        ensures
            cell.0 == EMPTY,
    {
        CellState(EMPTY)
    }
}

/// A circle of the preview: the colour `kind` that is to appear at `(row, col)`.
#[derive(Clone, Copy, Debug, PartialEq, Eq, Structural)]
pub struct FutureCircle {
    pub kind: i32,
    pub row: usize,
    pub col: usize,
}

impl FutureCircle {
    /// The cell that the circle is to appear in.
    pub open spec fn pos(&self) -> (usize, usize) {
        (self.row, self.col)
    }

    /// The circle lies on the board and has a colour.
    pub open spec fn valid(&self) -> bool {
        &&& self.row < FIELD_SIZE
        &&& self.col < FIELD_SIZE
        &&& 0 <= self.kind < CIRCLE_KINDS
    }
}

/// A preview batch holds valid circles at pairwise distinct cells.
pub open spec fn preview_wf(batch: Seq<FutureCircle>) -> bool {
    &&& forall|i: int| 0 <= i < batch.len() ==> (#[trigger] batch[i]).valid()
    &&& forall|i: int, j: int|
        0 <= i < j < batch.len() ==> (#[trigger] batch[i]).pos() != (#[trigger] batch[j]).pos()
}

/// The board and the batch of circles that the next refill puts on it.
pub struct GameState {
    pub cells: Vec<Vec<CellState>>,
    pub future_circles: Vec<FutureCircle>,
}

impl View for GameState {
    type V = Grid;

    /// The board as rows of cell contents.
    open spec fn view(&self) -> Grid {
        Seq::new(
            self.cells@.len(),
            |r: int| Seq::new(self.cells@[r]@.len(), |c: int| self.cells@[r]@[c].0 as int),
        )
    }
}

/// Number of free cells among the first `k` cells in row-major order.
pub open spec fn free_before(g: Grid, k: int) -> nat
    decreases k,
{
    if k <= 0 {
        0
    } else {
        free_before(g, k - 1) + if is_free(g, cell_at_index(k - 1)) {
            1nat
        } else {
            0nat
        }
    }
}

/// Number of free cells of the board.
pub open spec fn free_count(g: Grid) -> nat {
    free_before(g, CELL_COUNT as int)
}

/// Whether `pos` is the free cell with `idx` free cells before it in row-major order.
pub open spec fn is_nth_free(g: Grid, idx: int, pos: (usize, usize)) -> bool {
    &&& on_board(pos)
    &&& is_free(g, pos)
    &&& free_before(g, cell_index(pos)) == idx
}

/// The count of free cells does not shrink along the row-major order and is bounded by the
/// number of cells passed.
pub proof fn lemma_free_before_monotonic(g: Grid, i: int, j: int)
    requires
        0 <= i <= j,
    ensures
        free_before(g, i) <= free_before(g, j),
        free_before(g, j) - free_before(g, i) <= j - i,
    decreases j - i,
{
    if i < j {
        lemma_free_before_monotonic(g, i, j - 1);
    }
}

/// Two free cells with the same number of free cells before them are one cell.
pub proof fn lemma_nth_free_unique(g: Grid, idx: int, a: (usize, usize), b: (usize, usize))
    requires
        is_nth_free(g, idx, a),
        is_nth_free(g, idx, b),
    ensures
        a == b,
{
    let ka = cell_index(a);
    let kb = cell_index(b);
    if ka < kb {
        lemma_free_before_monotonic(g, ka + 1, kb);
        assert(cell_at_index(ka) == a);
    } else if kb < ka {
        lemma_free_before_monotonic(g, kb + 1, ka);
        assert(cell_at_index(kb) == b);
    }
}

/// The empty board has as many free cells before a place as there are cells before it.
pub proof fn lemma_free_before_empty(k: int)
    requires
        0 <= k <= CELL_COUNT,
    ensures
        free_before(empty_grid(), k) == k,
    decreases k,
{
    if k > 0 {
        lemma_free_before_empty(k - 1);
        assert(on_board(cell_at_index(k - 1)));
    }
}

/// Filling the free cell at `pos` takes one from the count of free cells behind it and leaves
/// the count before it as it was.
pub proof fn lemma_free_before_fill(g: Grid, pos: (usize, usize), value: int, k: int)
    requires
        grid_wf(g),
        on_board(pos),
        is_free(g, pos),
        value != EMPTY,
        0 <= k <= CELL_COUNT,
    ensures
        free_before(grid_set(g, pos, value), k) == free_before(g, k) - if cell_index(pos) < k {
            1int
        } else {
            0int
        },
    decreases k,
{
    if k > 0 {
        lemma_free_before_fill(g, pos, value, k - 1);
        let here = cell_at_index(k - 1);
        let r = here.0 as int;
        let c = here.1 as int;
        assert(on_board(here) && cell_index(here) == k - 1);
        assert(g[r].len() == FIELD_SIZE);
        if here == pos {
            assert(grid_set(g, pos, value)[r][c] == value);
        } else {
            assert(grid_set(g, pos, value)[r][c] == g[r][c]);
        }
    }
}

impl Default for GameState {
    /// The empty board with an empty preview.
    fn default() -> (state: GameState)
        ensures
            state.wf(),
            state@ == empty_grid(),
            state.future_circles@.len() == 0,
    {
        let mut cells: Vec<Vec<CellState>> = Vec::new();
        let mut row: usize = 0;
        while row < FIELD_SIZE
            invariant
                row <= FIELD_SIZE,
                cells@.len() == row,
                forall|r: int| 0 <= r < row ==> (#[trigger] cells@[r])@.len() == FIELD_SIZE,
                forall|r: int, c: int|
                    0 <= r < row && 0 <= c < FIELD_SIZE ==> (#[trigger] cells@[r]@[c]).0 == EMPTY,
            decreases FIELD_SIZE - row,
        {
            let mut row_cells: Vec<CellState> = Vec::new();
            let mut col: usize = 0;
            while col < FIELD_SIZE
                invariant
                    col <= FIELD_SIZE,
                    row_cells@.len() == col,
                    forall|c: int| 0 <= c < col ==> (#[trigger] row_cells@[c]).0 == EMPTY,
                decreases FIELD_SIZE - col,
            {
                row_cells.push(CellState::default());
                col = col + 1;
            }
            cells.push(row_cells);
            row = row + 1;
        }
        let state = GameState { cells, future_circles: Vec::new() };
        proof {
            assert forall|r: int| 0 <= r < FIELD_SIZE implies #[trigger] state@[r] =~= empty_grid()[r] by {
                assert(state.cells@[r]@.len() == FIELD_SIZE);
            }
            assert(state@ =~= empty_grid());
        }
        state
    }
}

impl GameState {
    /// The board has the right shape, every cell is empty or holds a colour, and the preview
    /// is a valid batch.
    pub open spec fn wf(&self) -> bool {
        &&& grid_wf(self@)
        &&& preview_wf(self.future_circles@)
    }

    /// Checks a value that was put together field by field: whether the board has the right
    /// shape, every cell is empty or holds a colour, and the preview is a valid batch.
    pub fn is_well_formed(&self) -> (ok: bool)
        ensures
            ok == self.wf(),
    {
        if self.cells.len() != FIELD_SIZE {
            return false;
        }
        let mut row: usize = 0;
        while row < FIELD_SIZE
            invariant
                row <= FIELD_SIZE,
                self.cells@.len() == FIELD_SIZE,
                forall|r: int| 0 <= r < row ==> (#[trigger] self.cells@[r])@.len() == FIELD_SIZE,
                forall|r: int, c: int|
                    0 <= r < row && 0 <= c < FIELD_SIZE ==> (#[trigger] self.cells@[r]@[c]).valid(),
            decreases FIELD_SIZE - row,
        {
            if self.cells[row].len() != FIELD_SIZE {
                proof {
                    assert(self@[row as int].len() != FIELD_SIZE);
                }
                return false;
            }
            let mut col: usize = 0;
            while col < FIELD_SIZE
                invariant
                    row < FIELD_SIZE,
                    col <= FIELD_SIZE,
                    self.cells@.len() == FIELD_SIZE,
                    self.cells@[row as int]@.len() == FIELD_SIZE,
                    forall|c: int| 0 <= c < col ==> (#[trigger] self.cells@[row as int]@[c]).valid(),
                decreases FIELD_SIZE - col,
            {
                let kind = self.cells[row][col].0;
                if kind < EMPTY || kind >= CIRCLE_KINDS {
                    proof {
                        assert(self@[row as int][col as int] == kind);
                    }
                    return false;
                }
                col = col + 1;
            }
            row = row + 1;
        }
        proof {
            assert forall|r: int, c: int|
                0 <= r < FIELD_SIZE && 0 <= c < FIELD_SIZE implies EMPTY <= #[trigger] self@[r][c]
                < CIRCLE_KINDS by {
                assert(self.cells@[r]@[c].valid());
            }
            assert(grid_wf(self@));
        }
        let count = self.future_circles.len();
        let mut i: usize = 0;
        while i < count
            invariant
                count == self.future_circles@.len(),
                i <= count,
                forall|a: int| 0 <= a < i ==> (#[trigger] self.future_circles@[a]).valid(),
                forall|a: int, b: int|
                    0 <= a < b < i ==> (#[trigger] self.future_circles@[a]).pos()
                        != (#[trigger] self.future_circles@[b]).pos(),
            decreases count - i,
        {
            let circle = self.future_circles[i];
            if circle.row >= FIELD_SIZE || circle.col >= FIELD_SIZE || circle.kind < 0
                || circle.kind >= CIRCLE_KINDS {
                proof {
                    assert(!self.future_circles@[i as int].valid());
                }
                return false;
            }
            let mut j: usize = 0;
            while j < i
                invariant
                    count == self.future_circles@.len(),
                    i < count,
                    j <= i,
                    circle == self.future_circles@[i as int],
                    forall|a: int|
                        0 <= a < j ==> (#[trigger] self.future_circles@[a]).pos() != circle.pos(),
                decreases i - j,
            {
                let other = self.future_circles[j];
                if other.row == circle.row && other.col == circle.col {
                    proof {
                        assert(self.future_circles@[j as int].pos() == self.future_circles@[i as int].pos());
                    }
                    return false;
                }
                j = j + 1;
            }
            i = i + 1;
        }
        true
    }

    /// Content of the cell at `pos`.
    pub fn get(&self, pos: (usize, usize)) -> (cell: CellState)
        requires
            self.wf(),
            on_board(pos),
        ensures
            cell.0 == self@[pos.0 as int][pos.1 as int],
            cell.valid(),
    {
        assert(self@[pos.0 as int].len() == FIELD_SIZE);
        assert(self@[pos.0 as int][pos.1 as int] == self.cells@[pos.0 as int]@[pos.1 as int].0);
        self.cells[pos.0][pos.1]
    }

    /// Replaces the content of the cell at `pos` and leaves every other cell and the preview as
    /// they are.
    pub fn set(&mut self, pos: (usize, usize), state: CellState)
        requires
            old(self).wf(),
            on_board(pos),
            state.valid(),
        ensures
            final(self).wf(),
            final(self)@ == grid_set(old(self)@, pos, state.0 as int),
            final(self).future_circles == old(self).future_circles,
    {
        assert(self@[pos.0 as int].len() == FIELD_SIZE);
        self.cells[pos.0][pos.1] = state;
        proof {
            let g0 = old(self)@;
            let g1 = self@;
            assert(g1.len() == g0.len());
            assert forall|r: int| 0 <= r < g1.len() implies #[trigger] g1[r] =~= grid_set(
                g0,
                pos,
                state.0 as int,
            )[r] by {
                assert(g0[r].len() == FIELD_SIZE);
            }
            assert(g1 =~= grid_set(g0, pos, state.0 as int));
            assert forall|r: int, c: int|
                0 <= r < FIELD_SIZE && 0 <= c < FIELD_SIZE implies EMPTY <= #[trigger] g1[r][c]
                < CIRCLE_KINDS by {
                assert(EMPTY <= g0[r][c] < CIRCLE_KINDS);
            }
        }
    }

    /// Counts the free cells of the board.
    pub fn get_free_count(&self) -> (count: usize)
        requires
            self.wf(),
        ensures
            count == free_count(self@),
            count <= CELL_COUNT,
    {
        let mut result: usize = 0;
        let mut row: usize = 0;
        while row < FIELD_SIZE
            invariant
                self.wf(),
                row <= FIELD_SIZE,
                result == free_before(self@, cell_index((row, 0))),
                result <= cell_index((row, 0)),
            decreases FIELD_SIZE - row,
        {
            let mut col: usize = 0;
            while col < FIELD_SIZE
                invariant
                    self.wf(),
                    row < FIELD_SIZE,
                    col <= FIELD_SIZE,
                    result == free_before(self@, cell_index((row, col))),
                    result <= cell_index((row, col)),
                decreases FIELD_SIZE - col,
            {
                assert(cell_at_index(cell_index((row, col))) == (row, col));
                if self.get((row, col)).is_empty() {
                    result = result + 1;
                }
                col = col + 1;
            }
            row = row + 1;
        }
        result
    }

    /// Finds the free cell that has `idx` free cells before it in row-major order.
    pub fn get_nth_free(&self, idx: usize) -> (pos: (usize, usize))
        requires
            self.wf(),
            idx < free_count(self@),
        ensures
            is_nth_free(self@, idx as int, pos),
    {
        let mut cur_free: usize = 0;
        let mut row: usize = 0;
        while row < FIELD_SIZE
            invariant
                self.wf(),
                idx < free_count(self@),
                row <= FIELD_SIZE,
                cur_free == free_before(self@, cell_index((row, 0))),
                cur_free <= idx,
            decreases FIELD_SIZE - row,
        {
            let mut col: usize = 0;
            while col < FIELD_SIZE
                invariant
                    self.wf(),
                    idx < free_count(self@),
                    row < FIELD_SIZE,
                    col <= FIELD_SIZE,
                    cur_free == free_before(self@, cell_index((row, col))),
                    cur_free <= idx,
                decreases FIELD_SIZE - col,
            {
                assert(cell_at_index(cell_index((row, col))) == (row, col));
                if self.get((row, col)).is_empty() {
                    if cur_free == idx {
                        return (row, col);
                    }
                    cur_free = cur_free + 1;
                }
                col = col + 1;
            }
            row = row + 1;
        }
        proof {
            assert(cur_free == free_count(self@));
        }
        vstd::pervasive::unreached()
    }

    /// Empties the cell at `pos`.
    pub fn clear(&mut self, pos: (usize, usize))
        requires
            old(self).wf(),
            on_board(pos),
        ensures
            final(self).wf(),
            final(self)@ == grid_set(old(self)@, pos, EMPTY as int),
            final(self).future_circles == old(self).future_circles,
    {
        self.set(pos, CellState(EMPTY));
    }
}

} // verus!
