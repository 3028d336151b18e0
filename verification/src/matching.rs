//! Run detection: finding the straight runs of five circles of one colour
//! and taking them off the board.

use vstd::prelude::*;
use crate::common::{
    cell_at_index, cell_index, empty_grid, grid_wf, in_bounds, on_board, Grid, CELL_COUNT,
    CIRCLE_KINDS, EMPTY, FIELD_SIZE,
};
use crate::game_state::GameState;
use crate::table::{table_at, table_get, table_new, table_shaped, table_store};

verus! {

/// Whether the five cells that start at `(r, c)` and go on by `(dr, dc)` lie on the board and
/// hold circles of one colour.
pub open spec fn is_run(g: Grid, r: int, c: int, dr: int, dc: int) -> bool {
    &&& in_bounds(r, c)
    &&& in_bounds(r + 4 * dr, c + 4 * dc)
    &&& g[r][c] != EMPTY
    &&& g[r + dr][c + dc] == g[r][c]
    &&& g[r + 2 * dr][c + 2 * dc] == g[r][c]
    &&& g[r + 3 * dr][c + 3 * dc] == g[r][c]
    &&& g[r + 4 * dr][c + 4 * dc] == g[r][c]
}

/// Whether the cell at `(r, c)` is one of the five cells of a run that goes by `(dr, dc)`.
pub open spec fn lies_in(g: Grid, r: int, c: int, dr: int, dc: int) -> bool {
    ||| is_run(g, r, c, dr, dc)
    ||| is_run(g, r - dr, c - dc, dr, dc)
    ||| is_run(g, r - 2 * dr, c - 2 * dc, dr, dc)
    ||| is_run(g, r - 3 * dr, c - 3 * dc, dr, dc)
    ||| is_run(g, r - 4 * dr, c - 4 * dc, dr, dc)
}

/// Whether the cell at `(r, c)` belongs to a run in a column, a row or one of the two
/// diagonals.  The four directions are those in which the scan looks: up, left, down-right and
/// up-right; a run in the opposite direction is the same run seen from its other end.
#[verifier::opaque]
pub open spec fn in_run(g: Grid, r: int, c: int) -> bool {
    ||| lies_in(g, r, c, -1, 0)
    ||| lies_in(g, r, c, 0, -1)
    ||| lies_in(g, r, c, 1, 1)
    ||| lies_in(g, r, c, -1, 1)
}

/// Whether some five cells in a row, a column or a diagonal of the board hold circles of one
/// colour.
pub open spec fn has_run(g: Grid) -> bool {
    exists|r: int, c: int, dr: int, dc: int|
        -1 <= dr <= 1 && -1 <= dc <= 1 && (dr != 0 || dc != 0) && #[trigger] is_run(
            g,
            r,
            c,
            dr,
            dc,
        )
}

/// The board after every cell that belongs to a run has been emptied.
pub open spec fn cleared_grid(g: Grid) -> Grid {
    Seq::new(
        FIELD_SIZE as nat,
        |r: int|
            Seq::new(
                FIELD_SIZE as nat,
                |c: int|
                    if in_run(g, r, c) {
                        EMPTY as int
                    } else {
                        g[r][c]
                    },
            ),
    )
}

/// The cells among the first `k` in row-major order that `keep` holds of, in that order.
pub open spec fn cells_before(keep: spec_fn((usize, usize)) -> bool, k: int) -> Seq<(usize, usize)>
    decreases k,
{
    if k <= 0 {
        Seq::empty()
    } else {
        let rest = cells_before(keep, k - 1);
        let last = cell_at_index(k - 1);
        if keep(last) {
            rest.push(last)
        } else {
            rest
        }
    }
}

/// The test that picks the cells of `g` that belong to a run.
pub open spec fn run_test(g: Grid) -> spec_fn((usize, usize)) -> bool {
    |pos: (usize, usize)| in_run(g, pos.0 as int, pos.1 as int)
}

/// The cells of the board that belong to a run, in row-major order.
pub open spec fn run_cells(g: Grid) -> Seq<(usize, usize)> {
    cells_before(run_test(g), CELL_COUNT as int)
}

/// `cells_before` lists the cells before `k` that `keep` holds of, in row-major order, each
/// once.
pub proof fn lemma_cells_before(keep: spec_fn((usize, usize)) -> bool, k: int)
    requires
        0 <= k <= CELL_COUNT,
    ensures
        cells_before(keep, k).len() <= k,
        forall|pos: (usize, usize)|
            #[trigger] cells_before(keep, k).contains(pos) <==> on_board(pos) && cell_index(pos)
                < k && keep(pos),
        forall|i: int, j: int|
            0 <= i < j < cells_before(keep, k).len() ==> cell_index(
                #[trigger] cells_before(keep, k)[i],
            ) < cell_index(#[trigger] cells_before(keep, k)[j]),
    decreases k,
{
    let now = cells_before(keep, k);
    if k > 0 {
        lemma_cells_before(keep, k - 1);
        let rest = cells_before(keep, k - 1);
        let last = cell_at_index(k - 1);
        assert(on_board(last) && cell_index(last) == k - 1);
        assert forall|pos: (usize, usize)| on_board(pos) && cell_index(pos) == k - 1 implies pos
            == last by {}
        if keep(last) {
            assert(now == rest.push(last));
            assert(now[rest.len() as int] == last);
            assert forall|i: int| 0 <= i < rest.len() implies now[i] == rest[i] && cell_index(
                #[trigger] rest[i],
            ) < k - 1 by {
                assert(rest.contains(rest[i]));
            }
            assert forall|pos: (usize, usize)| #[trigger] now.contains(pos) <==> on_board(pos)
                && cell_index(pos) < k && keep(pos) by {
                if now.contains(pos) {
                    let i = choose|i: int| 0 <= i < now.len() && now[i] == pos;
                    if i < rest.len() {
                        assert(rest[i] == pos);
                        assert(rest.contains(pos));
                    }
                }
                if on_board(pos) && cell_index(pos) < k && keep(pos) {
                    if cell_index(pos) < k - 1 {
                        assert(rest.contains(pos));
                        let i = choose|i: int| 0 <= i < rest.len() && rest[i] == pos;
                        assert(now[i] == pos);
                    } else {
                        assert(pos == last);
                    }
                }
            }
            assert forall|i: int, j: int| 0 <= i < j < now.len() implies cell_index(
                #[trigger] now[i],
            ) < cell_index(#[trigger] now[j]) by {
                assert(now[i] == rest[i]);
                if j < rest.len() {
                    assert(now[j] == rest[j]);
                }
            }
        } else {
            assert(now == rest);
            assert forall|pos: (usize, usize)| #[trigger] now.contains(pos) <==> on_board(pos)
                && cell_index(pos) < k && keep(pos) by {
                assert(rest.contains(pos) <==> on_board(pos) && cell_index(pos) < k - 1 && keep(
                    pos,
                ));
            }
        }
    } else {
        assert forall|pos: (usize, usize)| !(#[trigger] now.contains(pos)) by {}
    }
}

/// The cells that belong to a run are listed once each, in row-major order, and no other
/// cell is.
pub proof fn lemma_run_cells(g: Grid)
    ensures
        run_cells(g).len() <= CELL_COUNT,
        forall|pos: (usize, usize)|
            #[trigger] run_cells(g).contains(pos) <==> on_board(pos) && in_run(
                g,
                pos.0 as int,
                pos.1 as int,
            ),
        forall|i: int, j: int|
            0 <= i < j < run_cells(g).len() ==> cell_index(#[trigger] run_cells(g)[i])
                < cell_index(#[trigger] run_cells(g)[j]),
{
    lemma_cells_before(run_test(g), CELL_COUNT as int);
}

/// After the cells of all runs have been emptied, no five cells in a row, a column or a
/// diagonal hold circles of one colour.
pub proof fn lemma_cleared_grid_has_no_run(g: Grid)
    requires
        grid_wf(g),
    ensures
        grid_wf(cleared_grid(g)),
        !has_run(cleared_grid(g)),
{
    let h = cleared_grid(g);
    assert forall|r: int, c: int, dr: int, dc: int|
        -1 <= dr <= 1 && -1 <= dc <= 1 && (dr != 0 || dc != 0) implies !#[trigger] is_run(
        h,
        r,
        c,
        dr,
        dc,
    ) by {
        if is_run(h, r, c, dr, dc) {
            reveal(in_run);
            let (r1, c1) = (r + dr, c + dc);
            let (r2, c2) = (r + 2 * dr, c + 2 * dc);
            let (r3, c3) = (r + 3 * dr, c + 3 * dc);
            let (r4, c4) = (r + 4 * dr, c + 4 * dc);
            assert(in_bounds(r1, c1) && in_bounds(r2, c2) && in_bounds(r3, c3));
            assert(h[r][c] == g[r][c] && !in_run(g, r, c));
            assert(h[r1][c1] == g[r1][c1]);
            assert(h[r2][c2] == g[r2][c2]);
            assert(h[r3][c3] == g[r3][c3]);
            assert(h[r4][c4] == g[r4][c4] && !in_run(g, r4, c4));
            assert(is_run(g, r, c, dr, dc));
            assert(is_run(g, r4, c4, -dr, -dc));
            if dr == 0 {
                if dc == -1 {
                    assert(lies_in(g, r, c, 0, -1));
                } else {
                    assert(lies_in(g, r4, c4, 0, -1));
                }
            } else if dc == 0 {
                if dr == -1 {
                    assert(lies_in(g, r, c, -1, 0));
                } else {
                    assert(lies_in(g, r4, c4, -1, 0));
                }
            } else if dr == dc {
                if dr == 1 {
                    assert(lies_in(g, r, c, 1, 1));
                } else {
                    assert(lies_in(g, r4, c4, 1, 1));
                }
            } else {
                if dr == -1 {
                    assert(lies_in(g, r, c, -1, 1));
                } else {
                    assert(lies_in(g, r4, c4, -1, 1));
                }
            }
        }
    }
}

/// A board that differs from `g` in that the listed cells of the runs are empty is the board
/// after every cell of a run has been emptied.
pub proof fn lemma_cleared_by_run_cells(g: Grid, h: Grid)
    requires
        grid_wf(g),
        grid_wf(h),
        forall|pos: (usize, usize)|
            on_board(pos) ==> #[trigger] h[pos.0 as int][pos.1 as int] == if run_cells(g).contains(
                pos,
            ) {
                EMPTY as int
            } else {
                g[pos.0 as int][pos.1 as int]
            },
    ensures
        h == cleared_grid(g),
{
    lemma_run_cells(g);
    assert forall|r: int| 0 <= r < FIELD_SIZE implies #[trigger] h[r] =~= cleared_grid(g)[r] by {
        assert forall|c: int| 0 <= c < FIELD_SIZE implies h[r][c] == cleared_grid(g)[r][c] by {
            let pos = (r as usize, c as usize);
            assert(on_board(pos));
            assert(h[pos.0 as int][pos.1 as int] == h[r][c]);
        }
    }
    assert(h =~= cleared_grid(g));
}

/// On a board without a run no cell belongs to a run.
pub proof fn lemma_no_run_no_cell(g: Grid)
    requires
        !has_run(g),
    ensures
        forall|r: int, c: int| !in_run(g, r, c),
{
    reveal(in_run);
}

/// On a board without a run, emptying the cells of all runs changes nothing, and no cell
/// is listed as belonging to a run.
pub proof fn lemma_no_run_nothing_cleared(g: Grid)
    requires
        grid_wf(g),
        !has_run(g),
    ensures
        cleared_grid(g) == g,
        run_cells(g) == Seq::<(usize, usize)>::empty(),
{
    lemma_no_run_no_cell(g);
    assert(cleared_grid(g) =~~= g);
    lemma_run_cells(g);
    let cells = run_cells(g);
    if cells.len() > 0 {
        assert(cells.contains(cells[0]));
    }
    assert(cells =~= Seq::<(usize, usize)>::empty());
}

/// Whether the cells of `s` stand in strictly rising row-major order.
pub open spec fn cells_rising(s: Seq<(usize, usize)>) -> bool {
    forall|i: int, j: int| 0 <= i < j < s.len() ==> cell_index(#[trigger] s[i]) < cell_index(#[trigger] s[j])
}

/// Two lists of cells in strictly rising row-major order that contain the same cells are one
/// list.
pub proof fn lemma_rising_cells_unique(a: Seq<(usize, usize)>, b: Seq<(usize, usize)>)
    requires
        cells_rising(a),
        cells_rising(b),
        forall|pos: (usize, usize)| a.contains(pos) <==> b.contains(pos),
    ensures
        a == b,
    decreases a.len(),
{
    if a.len() == 0 {
        if b.len() > 0 {
            assert(b.contains(b[0]));
        }
        assert(a =~= b);
    } else {
        assert(a.contains(a[0]));
        assert(b.len() > 0);
        let x = a[a.len() - 1];
        let y = b[b.len() - 1];
        assert(a.contains(x) && b.contains(y));
        let jx = choose|j: int| 0 <= j < b.len() && b[j] == x;
        let jy = choose|j: int| 0 <= j < a.len() && a[j] == y;
        if jx < b.len() - 1 {
            assert(cell_index(b[jx]) < cell_index(b[b.len() - 1]));
        }
        if jy < a.len() - 1 {
            assert(cell_index(a[jy]) < cell_index(a[a.len() - 1]));
        }
        assert(x == y);
        let a1 = a.drop_last();
        let b1 = b.drop_last();
        assert forall|pos: (usize, usize)| a1.contains(pos) <==> b1.contains(pos) by {
            if a1.contains(pos) {
                let i = choose|i: int| 0 <= i < a1.len() && a1[i] == pos;
                assert(a[i] == pos && cell_index(a[i]) < cell_index(a[a.len() - 1]));
                assert(a.contains(pos));
                let j = choose|j: int| 0 <= j < b.len() && b[j] == pos;
                assert(j < b.len() - 1);
                assert(b1[j] == pos);
            }
            if b1.contains(pos) {
                let i = choose|i: int| 0 <= i < b1.len() && b1[i] == pos;
                assert(b[i] == pos && cell_index(b[i]) < cell_index(b[b.len() - 1]));
                assert(b.contains(pos));
                let j = choose|j: int| 0 <= j < a.len() && a[j] == pos;
                assert(j < a.len() - 1);
                assert(a1[j] == pos);
            }
        }
        assert(cells_rising(a1)) by {
            assert forall|i: int, j: int| 0 <= i < j < a1.len() implies cell_index(
                #[trigger] a1[i],
            ) < cell_index(#[trigger] a1[j]) by {
                assert(a1[i] == a[i] && a1[j] == a[j]);
            }
        }
        assert(cells_rising(b1)) by {
            assert forall|i: int, j: int| 0 <= i < j < b1.len() implies cell_index(
                #[trigger] b1[i],
            ) < cell_index(#[trigger] b1[j]) by {
                assert(b1[i] == b[i] && b1[j] == b[j]);
            }
        }
        lemma_rising_cells_unique(a1, b1);
        assert(a =~= a1.push(x));
        assert(b =~= b1.push(y));
    }
}

/// The board that is empty but for five circles of the colour `kind` side by side in the row
/// `row`, the first of them in the column `col`.
pub open spec fn row_of_five(row: int, col: int, kind: int) -> Grid {
    Seq::new(
        FIELD_SIZE as nat,
        |r: int|
            Seq::new(
                FIELD_SIZE as nat,
                |c: int|
                    if r == row && col <= c < col + 5 {
                        kind
                    } else {
                        EMPTY as int
                    },
            ),
    )
}

/// The five cells of `row_of_five`, in row-major order.
pub open spec fn five_cells(row: int, col: int) -> Seq<(usize, usize)> {
    Seq::new(5, |i: int| (row as usize, (col + i) as usize))
}

/// On a board that holds nothing but five circles of one colour side by side, the cells of
/// the runs are those five, and emptying them leaves the empty board.
pub proof fn lemma_row_of_five(row: int, col: int, kind: int)
    requires
        0 <= row < FIELD_SIZE,
        0 <= col <= FIELD_SIZE - 5,
        0 <= kind < CIRCLE_KINDS,
    ensures
        grid_wf(row_of_five(row, col, kind)),
        run_cells(row_of_five(row, col, kind)) == five_cells(row, col),
        cleared_grid(row_of_five(row, col, kind)) == empty_grid(),
{
    let g = row_of_five(row, col, kind);
    let five = five_cells(row, col);
    assert forall|r: int, c: int| in_bounds(r, c) implies (in_run(g, r, c) <==> r == row && col
        <= c < col + 5) by {
        reveal(in_run);
        if r == row && col <= c < col + 5 {
            assert(is_run(g, row, col + 4, 0, -1));
            assert(lies_in(g, r, c, 0, -1));
        }
    }
    lemma_run_cells(g);
    assert forall|pos: (usize, usize)| run_cells(g).contains(pos) <==> five.contains(pos) by {
        if five.contains(pos) {
            let i = choose|i: int| 0 <= i < five.len() && five[i] == pos;
            assert(on_board(pos) && in_bounds(pos.0 as int, pos.1 as int));
        }
        if run_cells(g).contains(pos) {
            assert(in_bounds(pos.0 as int, pos.1 as int));
            assert(five[pos.1 - col] == pos);
        }
    }
    lemma_rising_cells_unique(run_cells(g), five);
    assert forall|r: int| 0 <= r < FIELD_SIZE implies #[trigger] cleared_grid(g)[r] =~= empty_grid()[r] by {
        assert forall|c: int| 0 <= c < FIELD_SIZE implies cleared_grid(g)[r][c] == EMPTY by {
            assert(in_bounds(r, c));
        }
    }
    assert(cleared_grid(g) =~= empty_grid());
}

/// Emptying the cells of all runs a second time changes nothing more.
pub proof fn lemma_clearing_twice(g: Grid)
    requires
        grid_wf(g),
    ensures
        cleared_grid(cleared_grid(g)) == cleared_grid(g),
        run_cells(cleared_grid(g)) == Seq::<(usize, usize)>::empty(),
{
    lemma_cleared_grid_has_no_run(g);
    lemma_no_run_nothing_cleared(cleared_grid(g));
}

/// Row step of the direction `k` in which the scan looks: up, left, down-right, up-right.
pub open spec fn run_dr(k: int) -> int {
    if k == 0 {
        -1
    } else if k == 1 {
        0
    } else if k == 2 {
        1
    } else {
        -1
    }
}

/// Column step of the direction `k` in which the scan looks.
pub open spec fn run_dc(k: int) -> int {
    if k == 0 {
        0
    } else if k == 1 {
        -1
    } else {
        1
    }
}

/// The five cells that start at `(r, c)` and go on by `(dr, dc)`.
pub open spec fn line_cells(r: int, c: int, dr: int, dc: int) -> Seq<(usize, usize)> {
    seq![
        (r as usize, c as usize),
        ((r + dr) as usize, (c + dc) as usize),
        ((r + 2 * dr) as usize, (c + 2 * dc) as usize),
        ((r + 3 * dr) as usize, (c + 3 * dc) as usize),
        ((r + 4 * dr) as usize, (c + 4 * dc) as usize),
    ]
}

/// `j` steps of `d`, for a step `d` of -1, 0 or 1.
spec fn steps(d: int, j: int) -> int {
    if d == 0 {
        0
    } else if d > 0 {
        j
    } else {
        -j
    }
}

/// Whether the scan, which is about to look from `(row, col)` in direction `k`, has looked
/// from `(r0, c0)` in direction `k0`.
spec fn scanned(r0: int, c0: int, k0: int, row: int, col: int, k: int) -> bool {
    r0 < row || (r0 == row && (c0 < col || (c0 == col && k0 < k)))
}

/// Whether the five cells that start at `(r0, c0)` and go on in direction `k` are a run.
spec fn window_run(g: Grid, r0: int, c0: int, k: int) -> bool {
    is_run(g, r0, c0, run_dr(k), run_dc(k))
}

/// Whether the cell at `(r, c)` is marked.
spec fn mark_at(m: Vec<Vec<bool>>, r: int, c: int) -> bool {
    m@[r]@[c]
}

/// Whether the five cells that start at `(r, c)` and go on by `(dr, dc)` are marked.
spec fn all_marked(m: Vec<Vec<bool>>, r: int, c: int, dr: int, dc: int) -> bool {
    &&& mark_at(m, r, c)
    &&& mark_at(m, r + dr, c + dc)
    &&& mark_at(m, r + 2 * dr, c + 2 * dc)
    &&& mark_at(m, r + 3 * dr, c + 3 * dc)
    &&& mark_at(m, r + 4 * dr, c + 4 * dc)
}

/// What holds of the marks while the scan is about to look from `(row, col)` in direction
/// `k`: only cells of runs are marked, and the cells of every run that the scan has looked at
/// are.
spec fn marks_inv(g: Grid, m: Vec<Vec<bool>>, row: int, col: int, k: int) -> bool {
    &&& table_shaped(m)
    &&& forall|r: int, c: int| in_bounds(r, c) && #[trigger] mark_at(m, r, c) ==> in_run(g, r, c)
    &&& forall|r0: int, c0: int, k0: int|
        in_bounds(r0, c0) && 0 <= k0 < 4 && scanned(r0, c0, k0, row, col, k) && #[trigger] window_run(
            g,
            r0,
            c0,
            k0,
        ) ==> all_marked(m, r0, c0, run_dr(k0), run_dc(k0))
}

/// Each of the five cells of a run in one of the directions of the scan belongs to a run.
proof fn lemma_line_in_run(g: Grid, r: int, c: int, k: int)
    requires
        0 <= k < 4,
        window_run(g, r, c, k),
    ensures
        in_run(g, r, c),
        in_run(g, r + run_dr(k), c + run_dc(k)),
        in_run(g, r + 2 * run_dr(k), c + 2 * run_dc(k)),
        in_run(g, r + 3 * run_dr(k), c + 3 * run_dc(k)),
        in_run(g, r + 4 * run_dr(k), c + 4 * run_dc(k)),
{
    reveal(in_run);
    let dr = run_dr(k);
    let dc = run_dc(k);
    assert(lies_in(g, r, c, dr, dc));
    assert(lies_in(g, r + dr, c + dc, dr, dc));
    assert(lies_in(g, r + 2 * dr, c + 2 * dc, dr, dc));
    assert(lies_in(g, r + 3 * dr, c + 3 * dc, dr, dc));
    assert(lies_in(g, r + 4 * dr, c + 4 * dc, dr, dc));
}

/// The scan has found a run from `(row, col)` in direction `k` and has marked its cells.
proof fn lemma_mark(
    g: Grid,
    m0: Vec<Vec<bool>>,
    m1: Vec<Vec<bool>>,
    row: int,
    col: int,
    k: int,
    line: Seq<(usize, usize)>,
)
    requires
        grid_wf(g),
        marks_inv(g, m0, row, col, k),
        in_bounds(row, col),
        0 <= k < 4,
        window_run(g, row, col, k),
        line == line_cells(row, col, run_dr(k), run_dc(k)),
        table_shaped(m1),
        forall|pos: (usize, usize)|
            on_board(pos) ==> (#[trigger] table_at(m1, pos) <==> table_at(m0, pos) || line.contains(
                pos,
            )),
    ensures
        marks_inv(g, m1, row, col, k + 1),
{
    let dr = run_dr(k);
    let dc = run_dc(k);
    assert(line[0] == (row as usize, col as usize));
    assert(line[1] == ((row + dr) as usize, (col + dc) as usize));
    assert(line[2] == ((row + 2 * dr) as usize, (col + 2 * dc) as usize));
    assert(line[3] == ((row + 3 * dr) as usize, (col + 3 * dc) as usize));
    assert(line[4] == ((row + 4 * dr) as usize, (col + 4 * dc) as usize));
    assert forall|r: int, c: int| in_bounds(r, c) implies (#[trigger] mark_at(m1, r, c)
        <==> mark_at(m0, r, c) || line.contains((r as usize, c as usize))) by {
        let pos = (r as usize, c as usize);
        assert(on_board(pos));
        assert(table_at(m1, pos) == mark_at(m1, r, c));
        assert(table_at(m0, pos) == mark_at(m0, r, c));
    }
    assert forall|r: int, c: int| in_bounds(r, c) && #[trigger] mark_at(m1, r, c) implies in_run(
        g,
        r,
        c,
    ) by {
        if !mark_at(m0, r, c) {
            let pos = (r as usize, c as usize);
            let i = choose|i: int| 0 <= i < line.len() && line[i] == pos;
            assert(line[i] == pos);
            lemma_line_in_run(g, row, col, k);
        }
    }
    assert(all_marked(m1, row, col, dr, dc)) by {
        assert(line.contains(line[0]));
        assert(line.contains(line[1]));
        assert(line.contains(line[2]));
        assert(line.contains(line[3]));
        assert(line.contains(line[4]));
    }
    assert forall|r0: int, c0: int, k0: int|
        in_bounds(r0, c0) && 0 <= k0 < 4 && scanned(r0, c0, k0, row, col, k + 1)
            && #[trigger] window_run(g, r0, c0, k0) implies all_marked(
        m1,
        r0,
        c0,
        run_dr(k0),
        run_dc(k0),
    ) by {
        if scanned(r0, c0, k0, row, col, k) {
            assert(all_marked(m0, r0, c0, run_dr(k0), run_dc(k0)));
        }
    }
}

/// After the scan has looked from every cell in every direction, the marked cells are the
/// cells of the runs.
proof fn lemma_marks_complete(g: Grid, m: Vec<Vec<bool>>)
    requires
        grid_wf(g),
        marks_inv(g, m, FIELD_SIZE as int, 0, 0),
    ensures
        forall|pos: (usize, usize)|
            on_board(pos) ==> (#[trigger] table_at(m, pos) <==> in_run(
                g,
                pos.0 as int,
                pos.1 as int,
            )),
{
    assert forall|pos: (usize, usize)| on_board(pos) implies (#[trigger] table_at(m, pos)
        <==> in_run(g, pos.0 as int, pos.1 as int)) by {
        let r = pos.0 as int;
        let c = pos.1 as int;
        assert(table_at(m, pos) == mark_at(m, r, c));
        if in_run(g, r, c) {
            reveal(in_run);
            assert(run_dr(0) == -1 && run_dc(0) == 0 && run_dr(1) == 0 && run_dc(1) == -1);
            assert(run_dr(2) == 1 && run_dc(2) == 1 && run_dr(3) == -1 && run_dc(3) == 1);
            let k = if lies_in(g, r, c, -1, 0) {
                0int
            } else if lies_in(g, r, c, 0, -1) {
                1int
            } else if lies_in(g, r, c, 1, 1) {
                2int
            } else {
                3int
            };
            let dr = run_dr(k);
            let dc = run_dc(k);
            assert(lies_in(g, r, c, dr, dc));
            if is_run(g, r, c, dr, dc) {
                assert(window_run(g, r, c, k));
            } else if is_run(g, r - dr, c - dc, dr, dc) {
                assert(window_run(g, r - dr, c - dc, k));
            } else if is_run(g, r - 2 * dr, c - 2 * dc, dr, dc) {
                assert(window_run(g, r - 2 * dr, c - 2 * dc, k));
            } else if is_run(g, r - 3 * dr, c - 3 * dc, dr, dc) {
                assert(window_run(g, r - 3 * dr, c - 3 * dc, k));
            } else {
                assert(window_run(g, r - 4 * dr, c - 4 * dc, k));
            }
        }
    }
}

/// Whether one of the first `i` of `cells` is the cell at `pos`.
spec fn listed(cells: Seq<(usize, usize)>, i: int, pos: (usize, usize)) -> bool {
    exists|j: int| 0 <= j < i && cells[j] == pos
}

/// A cell is one of the first `i + 1` of `cells` exactly if it is one of the first `i` or
/// the one at `i`; and it is one of all of them exactly if `cells` contains it.
proof fn lemma_listed(cells: Seq<(usize, usize)>, i: int, pos: (usize, usize))
    requires
        0 <= i < cells.len(),
    ensures
        listed(cells, i + 1, pos) <==> listed(cells, i, pos) || cells[i] == pos,
        listed(cells, cells.len() as int, pos) <==> cells.contains(pos),
{
    if listed(cells, i + 1, pos) {
        let j = choose|j: int| 0 <= j < i + 1 && cells[j] == pos;
        if j < i {
            assert(listed(cells, i, pos));
        }
    }
    if listed(cells, i, pos) {
        let j = choose|j: int| 0 <= j < i && cells[j] == pos;
        assert(0 <= j < i + 1 && cells[j] == pos);
    }
}

/// The steps of direction `k` as numbers to compute with.
fn run_delta(k: usize) -> (delta: (i32, i32))
    requires
        k < 4,
    ensures
        delta.0 == run_dr(k as int),
        delta.1 == run_dc(k as int),
{
    if k == 0 {
        (-1, 0)
    } else if k == 1 {
        (0, -1)
    } else if k == 2 {
        (1, 1)
    } else {
        (-1, 1)
    }
}

/// Marks the cells of `line`.
fn mark_line(marked: &mut Vec<Vec<bool>>, line: &Vec<(usize, usize)>)
    requires
        table_shaped(*old(marked)),
        forall|i: int| 0 <= i < line@.len() ==> on_board(#[trigger] line@[i]),
    ensures
        table_shaped(*final(marked)),
        forall|pos: (usize, usize)|
            on_board(pos) ==> (#[trigger] table_at(*final(marked), pos) <==> table_at(
                *old(marked),
                pos,
            ) || line@.contains(pos)),
{
    let mut i: usize = 0;
    while i < line.len()
        invariant
            i <= line@.len(),
            table_shaped(*marked),
            forall|j: int| 0 <= j < line@.len() ==> on_board(#[trigger] line@[j]),
            forall|pos: (usize, usize)|
                on_board(pos) ==> (#[trigger] table_at(*marked, pos) <==> table_at(
                    *old(marked),
                    pos,
                ) || listed(line@, i as int, pos)),
        decreases line@.len() - i,
    {
        let ghost before = *marked;
        let cell_pos = line[i];
        table_store(marked, cell_pos, true);
        proof {
            assert forall|pos: (usize, usize)| on_board(pos) implies (#[trigger] table_at(
                *marked,
                pos,
            ) <==> table_at(*old(marked), pos) || listed(line@, i + 1, pos)) by {
                lemma_listed(line@, i as int, pos);
                if pos != cell_pos {
                    assert(table_at(*marked, pos) == table_at(before, pos));
                }
            }
        }
        i = i + 1;
    }
    proof {
        assert forall|pos: (usize, usize)| on_board(pos) implies (#[trigger] table_at(
            *marked,
            pos,
        ) <==> table_at(*old(marked), pos) || line@.contains(pos)) by {
            if line@.len() > 0 {
                lemma_listed(line@, 0, pos);
            }
        }
    }
}

impl GameState {
    /// Looks whether the five cells that start at `from` and go on by `delta` are a run, and
    /// lists them if they are.
    pub fn get_line(&self, from: (usize, usize), delta: (i32, i32)) -> (line: Option<
        Vec<(usize, usize)>,
    >)
        requires
            self.wf(),
            on_board(from),
            -1 <= delta.0 <= 1,
            -1 <= delta.1 <= 1,
        ensures
            line.is_some() <==> is_run(
                self@,
                from.0 as int,
                from.1 as int,
                delta.0 as int,
                delta.1 as int,
            ),
            line matches Some(cells) ==> cells@ == line_cells(
                from.0 as int,
                from.1 as int,
                delta.0 as int,
                delta.1 as int,
            ),
    {
        let last: i32 = 4;
        let to = (from.0 as i32 + delta.0 * last, from.1 as i32 + delta.1 * last);
        if to.0 < 0 || to.0 >= FIELD_SIZE as i32 || to.1 < 0 || to.1 >= FIELD_SIZE as i32 {
            return None;
        }
        let target_kind = self.get(from).0;
        if target_kind == EMPTY {
            return None;
        }
        let ghost r0 = from.0 as int;
        let ghost c0 = from.1 as int;
        let ghost dr = delta.0 as int;
        let ghost dc = delta.1 as int;
        let mut result: Vec<(usize, usize)> = Vec::with_capacity(5);
        let mut idx: i32 = 0;
        while idx < 5
            invariant
                self.wf(),
                on_board(from),
                r0 == from.0,
                c0 == from.1,
                dr == delta.0,
                dc == delta.1,
                -1 <= dr <= 1,
                -1 <= dc <= 1,
                in_bounds(r0 + 4 * dr, c0 + 4 * dc),
                target_kind == self@[r0][c0],
                target_kind != EMPTY,
                0 <= idx <= 5,
                result@.len() == idx,
                forall|j: int|
                    0 <= j < idx ==> {
                        let pos = #[trigger] result@[j];
                        &&& pos.0 == r0 + steps(dr, j)
                        &&& pos.1 == c0 + steps(dc, j)
                        &&& self@[pos.0 as int][pos.1 as int] == target_kind
                    },
            decreases 5 - idx,
        {
            proof {
                assert(delta.0 * idx == steps(dr, idx as int)) by (nonlinear_arith)
                    requires
                        -1 <= delta.0 <= 1,
                        dr == delta.0,
                        steps(dr, idx as int) == if dr == 0 {
                            0
                        } else if dr > 0 {
                            idx as int
                        } else {
                            -idx
                        },
                ;
                assert(delta.1 * idx == steps(dc, idx as int)) by (nonlinear_arith)
                    requires
                        -1 <= delta.1 <= 1,
                        dc == delta.1,
                        steps(dc, idx as int) == if dc == 0 {
                            0
                        } else if dc > 0 {
                            idx as int
                        } else {
                            -idx
                        },
                ;
            }
            let pos = (
                (from.0 as i32 + delta.0 * idx) as usize,
                (from.1 as i32 + delta.1 * idx) as usize,
            );
            result.push(pos);
            if self.get(pos).0 != target_kind {
                return None;
            }
            idx = idx + 1;
        }
        proof {
            assert(result@[0].0 == r0 && result@[0].1 == c0);
            assert(result@[1].0 == r0 + dr && result@[1].1 == c0 + dc);
            assert(result@[2].0 == r0 + 2 * dr && result@[2].1 == c0 + 2 * dc);
            assert(result@[3].0 == r0 + 3 * dr && result@[3].1 == c0 + 3 * dc);
            assert(result@[4].0 == r0 + 4 * dr && result@[4].1 == c0 + 4 * dc);
            assert(result@ =~= line_cells(r0, c0, dr, dc));
        }
        Some(result)
    }

    /// Lists the cells that belong to a run of five circles of one colour in a row, a column
    /// or a diagonal, in row-major order, each once.
    pub fn find_disappearing_circles(&self) -> (cells: Vec<(usize, usize)>)
        requires
            self.wf(),
        ensures
            cells@ == run_cells(self@),
    {
        let mut marked: Vec<Vec<bool>> = table_new(false);
        let mut row: usize = 0;
        proof {
            assert forall|r: int, c: int| in_bounds(r, c) implies !#[trigger] mark_at(
                marked,
                r,
                c,
            ) by {
                assert(!table_at(marked, (r as usize, c as usize)));
            }
        }
        while row < FIELD_SIZE
            invariant
                self.wf(),
                row <= FIELD_SIZE,
                marks_inv(self@, marked, row as int, 0, 0),
            decreases FIELD_SIZE - row,
        {
            let mut col: usize = 0;
            while col < FIELD_SIZE
                invariant
                    self.wf(),
                    row < FIELD_SIZE,
                    col <= FIELD_SIZE,
                    marks_inv(self@, marked, row as int, col as int, 0),
                decreases FIELD_SIZE - col,
            {
                let mut k: usize = 0;
                while k < 4
                    invariant
                        self.wf(),
                        row < FIELD_SIZE,
                        col < FIELD_SIZE,
                        k <= 4,
                        marks_inv(self@, marked, row as int, col as int, k as int),
                    decreases 4 - k,
                {
                    let delta = run_delta(k);
                    match self.get_line((row, col), delta) {
                        Some(line) => {
                            let ghost before = marked;
                            mark_line(&mut marked, &line);
                            proof {
                                lemma_mark(
                                    self@,
                                    before,
                                    marked,
                                    row as int,
                                    col as int,
                                    k as int,
                                    line@,
                                );
                            }
                        },
                        None => {},
                    }
                    k = k + 1;
                }
                col = col + 1;
            }
            row = row + 1;
        }
        proof {
            lemma_marks_complete(self@, marked);
        }
        let ghost keep = run_test(self@);
        let mut cells: Vec<(usize, usize)> = Vec::new();
        let mut row: usize = 0;
        while row < FIELD_SIZE
            invariant
                row <= FIELD_SIZE,
                table_shaped(marked),
                keep == run_test(self@),
                forall|pos: (usize, usize)|
                    on_board(pos) ==> (#[trigger] table_at(marked, pos) <==> keep(pos)),
                cells@ == cells_before(keep, cell_index((row, 0))),
            decreases FIELD_SIZE - row,
        {
            let mut col: usize = 0;
            while col < FIELD_SIZE
                invariant
                    row < FIELD_SIZE,
                    col <= FIELD_SIZE,
                    table_shaped(marked),
                    forall|pos: (usize, usize)|
                        on_board(pos) ==> (#[trigger] table_at(marked, pos) <==> keep(pos)),
                    cells@ == cells_before(keep, cell_index((row, col))),
                decreases FIELD_SIZE - col,
            {
                assert(cell_at_index(cell_index((row, col))) == (row, col));
                if table_get(&marked, (row, col)) {
                    cells.push((row, col));
                }
                col = col + 1;
            }
            row = row + 1;
        }
        cells
    }

    /// Empties the listed cells and leaves every other cell and the preview as they are.
    pub fn clear_cells(&mut self, cells: &Vec<(usize, usize)>)
        requires
            old(self).wf(),
            forall|j: int| 0 <= j < cells@.len() ==> on_board(#[trigger] cells@[j]),
        ensures
            final(self).wf(),
            final(self).future_circles == old(self).future_circles,
            forall|pos: (usize, usize)|
                on_board(pos) ==> #[trigger] final(self)@[pos.0 as int][pos.1 as int]
                    == if cells@.contains(pos) {
                    EMPTY as int
                } else {
                    old(self)@[pos.0 as int][pos.1 as int]
                },
    {
        let mut i: usize = 0;
        while i < cells.len()
            invariant
                self.wf(),
                i <= cells@.len(),
                forall|j: int| 0 <= j < cells@.len() ==> on_board(#[trigger] cells@[j]),
                self.future_circles == old(self).future_circles,
                forall|pos: (usize, usize)|
                    on_board(pos) ==> #[trigger] self@[pos.0 as int][pos.1 as int] == if listed(
                        cells@,
                        i as int,
                        pos,
                    ) {
                        EMPTY as int
                    } else {
                        old(self)@[pos.0 as int][pos.1 as int]
                    },
            decreases cells@.len() - i,
        {
            let ghost before = self@;
            let cell_pos = cells[i];
            self.clear(cell_pos);
            proof {
                assert forall|pos: (usize, usize)| on_board(pos) implies #[trigger] self@[pos.0 as int][pos.1 as int]
                    == if listed(cells@, i + 1, pos) {
                    EMPTY as int
                } else {
                    old(self)@[pos.0 as int][pos.1 as int]
                } by {
                    lemma_listed(cells@, i as int, pos);
                    if pos != cell_pos {
                        assert(self@[pos.0 as int][pos.1 as int] == before[pos.0 as int][pos.1 as int]);
                    }
                }
            }
            i = i + 1;
        }
        proof {
            assert forall|pos: (usize, usize)| on_board(pos) implies #[trigger] self@[pos.0 as int][pos.1 as int]
                == if cells@.contains(pos) {
                EMPTY as int
            } else {
                old(self)@[pos.0 as int][pos.1 as int]
            } by {
                if cells@.len() > 0 {
                    lemma_listed(cells@, 0, pos);
                }
            }
        }
    }

    /// Takes every run of five circles of one colour off the board.
    ///
    /// The whole board is scanned first and the cells of all runs are emptied afterwards, so
    /// that runs which cross are taken off together.  The result lists the emptied cells in
    /// row-major order, each once.  Afterwards the board holds no run, and a board that held
    /// none is left as it was.
    pub fn process_disappearing_circles(&mut self) -> (cells: Vec<(usize, usize)>)
        requires
            old(self).wf(),
        ensures
            final(self).wf(),
            cells@ == run_cells(old(self)@),
            final(self)@ == cleared_grid(old(self)@),
            final(self).future_circles == old(self).future_circles,
            !has_run(final(self)@),
            !has_run(old(self)@) ==> cells@.len() == 0 && final(self)@ == old(self)@,
    {
        let cells = self.find_disappearing_circles();
        proof {
            lemma_run_cells(self@);
            assert forall|j: int| 0 <= j < cells@.len() implies on_board(#[trigger] cells@[j]) by {
                assert(cells@.contains(cells@[j]));
            }
        }
        self.clear_cells(&cells);
        proof {
            let g = old(self)@;
            lemma_cleared_by_run_cells(g, self@);
            lemma_cleared_grid_has_no_run(g);
            if !has_run(g) {
                lemma_no_run_nothing_cleared(g);
            }
        }
        cells
    }
}

} // verus!
