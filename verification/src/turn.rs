//! The turn cycle: selection, move, resolution of runs, refill, and the end
//! of the game, as one state machine that outside events drive.

use vstd::prelude::*;
use crate::common::{
    empty_grid, grid_set, grid_wf, is_free, on_board, Grid, CELL_COUNT, CIRCLES_PER_TURN,
    CIRCLE_KINDS, EMPTY, FIELD_SIZE,
};
use crate::game_state::{
    free_count, lemma_free_before_empty, preview_wf, FutureCircle, GameState,
};
use crate::matching::{
    cleared_grid, lemma_cleared_by_run_cells, lemma_row_of_five, lemma_run_cells, row_of_five,
    run_cells,
};
use crate::path::{is_found_path, reachable};
use crate::refill::{committed, lemma_committed, written};

verus! {

/// The animations whose end the presentation reports.
#[derive(Clone, Copy, Debug, PartialEq, Eq, Structural)]
pub enum AnimationKind {
    /// A circle has arrived at the end of its way.
    Move,
    /// The circles of the cleared runs have vanished.
    Disappear,
}

/// Where the turn cycle stands.
#[derive(Debug, PartialEq, Eq)]
pub enum TurnState {
    /// The player has to pick a circle.
    AwaitingSelection,
    /// The player has picked the circle at this cell.
    Selected((usize, usize)),
    /// A circle is on its way; the way is listed from its goal back to its start.
    Moving(Vec<(usize, usize)>),
    /// The runs are to be taken off the board.
    Resolving,
    /// The preview is to be put on the board and the next one drawn.
    Refilling,
    /// No room was left for a preview.  The game is over and every input is ignored.
    GameOver,
}

/// A circle that was taken off the board: the colour `kind` that was at `(row, col)`.
#[derive(Clone, Copy, Debug, PartialEq, Eq, Structural)]
pub struct ClearedCircle {
    pub kind: i32,
    pub row: usize,
    pub col: usize,
}

/// What follows for the presentation from the end of an animation.
#[derive(Debug, PartialEq, Eq)]
pub enum TurnAction {
    /// The event did not fit the state and was ignored.
    Ignored,
    /// The circle has arrived and the runs are to be resolved: `resolve` is the next step.
    Resolve,
    /// These circles of the preview were put on the board; the preview is a new one, or
    /// empty if the game is over.
    Refilled(Vec<FutureCircle>),
}

/// The board with its preview, the state of the turn cycle and the score.
pub struct TurnController {
    pub board: GameState,
    pub state: TurnState,
    pub score: u64,
    /// What one cleared circle adds to the score.
    pub points_per_cell: u64,
}

/// The score after `cleared` circles were taken off: `points` more for each of them, but no
/// more than a `u64` holds.
pub open spec fn score_after(score: u64, cleared: nat, points: u64) -> u64 {
    if score + cleared * points > u64::MAX {
        u64::MAX
    } else {
        (score + cleared * points) as u64
    }
}

/// The circles of the runs of `g`, in row-major order, each with the colour that it has on
/// `g`.
pub open spec fn cleared_circles(g: Grid) -> Seq<ClearedCircle> {
    Seq::new(
        run_cells(g).len(),
        |i: int|
            ClearedCircle {
                kind: g[run_cells(g)[i].0 as int][run_cells(g)[i].1 as int] as i32,
                row: run_cells(g)[i].0,
                col: run_cells(g)[i].1,
            },
    )
}

/// The score never falls, and where the sum fits a `u64` it grows by `points` for each
/// cleared circle.
pub proof fn lemma_score_after(score: u64, cleared: nat, points: u64)
    ensures
        score_after(score, cleared, points) >= score,
        score + cleared * points <= u64::MAX ==> score_after(score, cleared, points) == score
            + cleared * points,
{
    assert(cleared * points >= 0) by (nonlinear_arith)
        requires
            cleared >= 0,
            points >= 0,
    ;
}

/// What resolving does on a board that holds nothing but five circles of the colour `kind`
/// side by side: the five are reported with their colour, the board is left empty, and where
/// the sum fits a `u64` the score grows by five times the points for a circle.
pub proof fn lemma_resolve_row_of_five(row: int, col: int, kind: int, score: u64, points: u64)
    requires
        0 <= row < FIELD_SIZE,
        0 <= col <= FIELD_SIZE - 5,
        0 <= kind < CIRCLE_KINDS,
    ensures
        grid_wf(row_of_five(row, col, kind)),
        cleared_circles(row_of_five(row, col, kind)) == Seq::new(
            5,
            |i: int| ClearedCircle { kind: kind as i32, row: row as usize, col: (col + i) as usize },
        ),
        cleared_grid(row_of_five(row, col, kind)) == empty_grid(),
        score + 5 * points <= u64::MAX ==> score_after(
            score,
            cleared_circles(row_of_five(row, col, kind)).len(),
            points,
        ) == score + 5 * points,
{
    let g = row_of_five(row, col, kind);
    lemma_row_of_five(row, col, kind);
    lemma_score_after(score, 5, points);
    assert(cleared_circles(g) =~= Seq::new(
        5,
        |i: int| ClearedCircle { kind: kind as i32, row: row as usize, col: (col + i) as usize },
    ));
}

/// The board after the circle at `from` was moved to the cell at `to`.
pub open spec fn moved_grid(g: Grid, from: (usize, usize), to: (usize, usize)) -> Grid {
    grid_set(grid_set(g, to, g[from.0 as int][from.1 as int]), from, EMPTY as int)
}

/// The state after a refill that left `free` cells free: the game is over if they are too
/// few for a preview.
pub open spec fn state_after_refill(free: nat) -> TurnState {
    if free < CIRCLES_PER_TURN {
        TurnState::GameOver
    } else {
        TurnState::AwaitingSelection
    }
}

/// On a board on which the circles of `batch` lie in free cells, the first `k` of them are
/// all put, and every cell but theirs stays as it is.
pub proof fn lemma_all_written(g: Grid, batch: Seq<FutureCircle>, k: int)
    requires
        grid_wf(g),
        preview_wf(batch),
        forall|i: int| 0 <= i < batch.len() ==> is_free(g, (#[trigger] batch[i]).pos()),
        0 <= k <= batch.len(),
    ensures
        written(g, batch, k).len() == k,
        grid_wf(committed(g, batch, k)),
        forall|i: int| k <= i < batch.len() ==> is_free(
            committed(g, batch, k),
            (#[trigger] batch[i]).pos(),
        ),
    decreases k,
{
    if k > 0 {
        lemma_all_written(g, batch, k - 1);
        lemma_committed(g, batch, k);
        let h = committed(g, batch, k - 1);
        let circle = batch[k - 1];
        assert(is_free(h, circle.pos()));
        assert(circle.valid());
        assert forall|i: int| k <= i < batch.len() implies is_free(
            committed(g, batch, k),
            (#[trigger] batch[i]).pos(),
        ) by {
            assert(batch[k - 1].pos() != batch[i].pos());
            assert(is_free(h, batch[i].pos()));
            assert(batch[i].valid());
            assert(h[batch[i].row as int].len() == FIELD_SIZE);
        }
    }
}

/// Copies a way.
fn copy_path(path: &Vec<(usize, usize)>) -> (copy: Vec<(usize, usize)>)
    ensures
        copy@ == path@,
{
    let mut copy: Vec<(usize, usize)> = Vec::new();
    let mut i: usize = 0;
    while i < path.len()
        invariant
            i <= path@.len(),
            copy@ == path@.take(i as int),
        decreases path@.len() - i,
    {
        copy.push(path[i]);
        proof {
            assert(copy@ =~= path@.take(i + 1));
        }
        i = i + 1;
    }
    proof {
        assert(path@.take(path@.len() as int) =~= path@);
    }
    copy
}

impl TurnController {
    /// The board is well formed, and a selected cell is on the board and holds a circle.
    pub open spec fn wf(&self) -> bool {
        &&& self.board.wf()
        &&& self.state matches TurnState::Selected(pos) ==> on_board(pos) && !is_free(
            self.board@,
            pos,
        )
    }

    /// Starts a game: on the empty board a first preview is drawn, it is put on the board,
    /// and the preview for the first turn is drawn.  The player then sees one batch of
    /// circles and one preview.
    pub fn new(points_per_cell: u64) -> (game: TurnController)
        ensures
            game.wf(),
            game.state == TurnState::AwaitingSelection,
            game.score == 0,
            game.points_per_cell == points_per_cell,
            free_count(game.board@) == CELL_COUNT - CIRCLES_PER_TURN,
            game.board.future_circles@.len() == CIRCLES_PER_TURN,
            forall|i: int|
                0 <= i < game.board.future_circles@.len() ==> is_free(
                    game.board@,
                    (#[trigger] game.board.future_circles@[i]).pos(),
                ),
    {
        let mut game = TurnController {
            board: GameState::default(),
            state: TurnState::Refilling,
            score: 0,
            points_per_cell,
        };
        proof {
            lemma_free_before_empty(CELL_COUNT as int);
        }
        let first = game.refill();
        let ghost batch = game.board.future_circles@;
        proof {
            lemma_all_written(empty_grid(), batch, batch.len() as int);
            lemma_committed(empty_grid(), batch, batch.len() as int);
        }
        game.state = TurnState::Refilling;
        let second = game.refill();
        game
    }

    /// Takes a click on the cell at `pos`.
    ///
    /// While a circle is awaited, a click on a circle selects it.  While a circle is
    /// selected, a click on a circle selects that one, and a click on an empty cell that the
    /// selected circle can get to moves the circle there at once and returns its way, listed
    /// from the goal back to the start.  Every other click changes nothing.
    pub fn select_or_move(&mut self, pos: (usize, usize)) -> (way: Option<Vec<(usize, usize)>>)
        requires
            old(self).wf(),
        ensures
            final(self).wf(),
            final(self).score == old(self).score,
            final(self).points_per_cell == old(self).points_per_cell,
            final(self).board.future_circles == old(self).board.future_circles,
            match old(self).state {
                TurnState::AwaitingSelection => {
                    &&& way is None
                    &&& final(self).board@ == old(self).board@
                    &&& final(self).state == if on_board(pos) && !is_free(old(self).board@, pos) {
                        TurnState::Selected(pos)
                    } else {
                        TurnState::AwaitingSelection
                    }
                },
                TurnState::Selected(from) => {
                    if !on_board(pos) {
                        &&& way is None
                        &&& *final(self) == *old(self)
                    } else if !is_free(old(self).board@, pos) {
                        &&& way is None
                        &&& final(self).board@ == old(self).board@
                        &&& final(self).state == TurnState::Selected(pos)
                    } else if !reachable(old(self).board@, from, pos) {
                        &&& way is None
                        &&& *final(self) == *old(self)
                    } else {
                        &&& way matches Some(path)
                        &&& is_found_path(old(self).board@, from, pos, path@)
                        &&& final(self).state matches TurnState::Moving(kept)
                        &&& kept@ == path@
                        &&& final(self).board@ == moved_grid(old(self).board@, from, pos)
                    }
                },
                _ => way is None && *final(self) == *old(self),
            },
    {
        if pos.0 >= FIELD_SIZE || pos.1 >= FIELD_SIZE {
            return None;
        }
        match &self.state {
            TurnState::AwaitingSelection => {
                if !self.board.get(pos).is_empty() {
                    self.state = TurnState::Selected(pos);
                }
                None
            },
            TurnState::Selected(selected) => {
                let from = *selected;
                if !self.board.get(pos).is_empty() {
                    self.state = TurnState::Selected(pos);
                    return None;
                }
                match self.board.find_path(from, pos) {
                    Some(path) => {
                        let circle = self.board.get(from);
                        self.board.set(pos, circle);
                        self.board.clear(from);
                        let way = copy_path(&path);
                        self.state = TurnState::Moving(path);
                        Some(way)
                    },
                    None => None,
                }
            },
            _ => None,
        }
    }

    /// Does the work of the state `Resolving`: takes every run off the board, adds
    /// `points_per_cell` to the score for each circle taken, and goes on to `Refilling`.  The
    /// result lists the circles taken, each with the colour it had.  In every other state
    /// nothing happens and the result is empty.
    pub fn resolve(&mut self) -> (cleared: Vec<ClearedCircle>)
        requires
            old(self).wf(),
        ensures
            final(self).wf(),
            final(self).points_per_cell == old(self).points_per_cell,
            final(self).board.future_circles == old(self).board.future_circles,
            old(self).state is Resolving ==> {
                &&& cleared@ == cleared_circles(old(self).board@)
                &&& final(self).board@ == cleared_grid(old(self).board@)
                &&& final(self).score == score_after(
                    old(self).score,
                    cleared@.len(),
                    old(self).points_per_cell,
                )
                &&& final(self).score >= old(self).score
                &&& final(self).state == TurnState::Refilling
            },
            !(old(self).state is Resolving) ==> cleared@.len() == 0 && *final(self) == *old(self),
    {
        match &self.state {
            TurnState::Resolving => {},
            _ => {
                return Vec::new();
            },
        }
        let cells = self.board.find_disappearing_circles();
        proof {
            lemma_run_cells(self.board@);
            assert forall|j: int| 0 <= j < cells@.len() implies on_board(#[trigger] cells@[j]) by {
                assert(cells@.contains(cells@[j]));
            }
        }
        let mut cleared: Vec<ClearedCircle> = Vec::new();
        let mut i: usize = 0;
        while i < cells.len()
            invariant
                self.board.wf(),
                self.board@ == old(self).board@,
                cells@ == run_cells(self.board@),
                forall|j: int| 0 <= j < cells@.len() ==> on_board(#[trigger] cells@[j]),
                i <= cells@.len(),
                cleared@.len() == i,
                forall|j: int|
                    0 <= j < i ==> #[trigger] cleared@[j] == cleared_circles(self.board@)[j],
            decreases cells@.len() - i,
        {
            let pos = cells[i];
            cleared.push(ClearedCircle { kind: self.board.get(pos).0, row: pos.0, col: pos.1 });
            i = i + 1;
        }
        proof {
            assert(cleared@ =~= cleared_circles(self.board@));
        }
        self.board.clear_cells(&cells);
        proof {
            lemma_cleared_by_run_cells(old(self).board@, self.board@);
        }
        let count = cleared.len() as u128;
        let points = self.points_per_cell as u128;
        assert(count * points <= 81 * 0xffff_ffff_ffff_ffff) by (nonlinear_arith)
            requires
                0 <= count <= 81,
                0 <= points <= 0xffff_ffff_ffff_ffff,
        ;
        let total: u128 = self.score as u128 + count * points;
        if total > u64::MAX as u128 {
            self.score = u64::MAX;
        } else {
            self.score = total as u64;
        }
        self.state = TurnState::Refilling;
        cleared
    }

    /// Does the work of the state `Refilling`: puts the circles of the preview on the board,
    /// each only if its cell is still free, and draws the next preview.  If the board has too
    /// few free cells for a preview, the game is over; else the next circle is awaited.  The
    /// result lists the circles that were put.  In every other state nothing happens and the
    /// result is empty.
    pub fn refill(&mut self) -> (put: Vec<FutureCircle>)
        requires
            old(self).wf(),
        ensures
            final(self).wf(),
            final(self).points_per_cell == old(self).points_per_cell,
            final(self).score == old(self).score,
            old(self).state is Refilling ==> {
                &&& put@ == written(
                    old(self).board@,
                    old(self).board.future_circles@,
                    old(self).board.future_circles@.len() as int,
                )
                &&& final(self).board@ == committed(
                    old(self).board@,
                    old(self).board.future_circles@,
                    old(self).board.future_circles@.len() as int,
                )
                &&& final(self).state == state_after_refill(free_count(final(self).board@))
                &&& final(self).state is GameOver ==> final(self).board.future_circles@.len() == 0
                &&& final(self).state is AwaitingSelection ==> {
                    &&& final(self).board.future_circles@.len() == CIRCLES_PER_TURN
                    &&& forall|i: int|
                        0 <= i < final(self).board.future_circles@.len() ==> is_free(
                            final(self).board@,
                            (#[trigger] final(self).board.future_circles@[i]).pos(),
                        )
                }
            },
            !(old(self).state is Refilling) ==> put@.len() == 0 && *final(self) == *old(self),
    {
        match &self.state {
            TurnState::Refilling => {},
            _ => {
                return Vec::new();
            },
        }
        let put = self.board.commit_future_circles();
        match self.board.random_future_circles(CIRCLES_PER_TURN) {
            Ok(()) => {
                self.state = TurnState::AwaitingSelection;
            },
            Err(_) => {
                self.state = TurnState::GameOver;
            },
        }
        put
    }

    /// Takes the report that an animation has ended.
    ///
    /// When the circle on its way has arrived, the state becomes `Resolving` and nothing else
    /// changes; the work of that state is left to `resolve`.  When the vanishing of the
    /// cleared circles is reported while the refill is due, the board is refilled, as `refill`
    /// does it, and the circles put on it are returned; the vanishing has to be reported also
    /// when no circle was cleared.  A report that does not fit the state changes nothing.
    pub fn animation_complete(&mut self, kind: AnimationKind) -> (action: TurnAction)
        requires
            old(self).wf(),
        ensures
            final(self).wf(),
            final(self).points_per_cell == old(self).points_per_cell,
            final(self).score == old(self).score,
            old(self).state is Moving && kind is Move ==> {
                &&& action is Resolve
                &&& final(self).state == TurnState::Resolving
                &&& final(self).board == old(self).board
            },
            old(self).state is Refilling && kind is Disappear ==> {
                &&& action matches TurnAction::Refilled(put)
                &&& put@ == written(
                    old(self).board@,
                    old(self).board.future_circles@,
                    old(self).board.future_circles@.len() as int,
                )
                &&& final(self).board@ == committed(
                    old(self).board@,
                    old(self).board.future_circles@,
                    old(self).board.future_circles@.len() as int,
                )
                &&& final(self).state == state_after_refill(free_count(final(self).board@))
                &&& final(self).state is GameOver ==> final(self).board.future_circles@.len() == 0
                &&& final(self).state is AwaitingSelection ==> {
                    &&& final(self).board.future_circles@.len() == CIRCLES_PER_TURN
                    &&& forall|i: int|
                        0 <= i < final(self).board.future_circles@.len() ==> is_free(
                            final(self).board@,
                            (#[trigger] final(self).board.future_circles@[i]).pos(),
                        )
                }
            },
            !(old(self).state is Moving && kind is Move) && !(old(self).state is Refilling
                && kind is Disappear) ==> action is Ignored && *final(self) == *old(self),
    {
        match kind {
            AnimationKind::Move => {
                match &self.state {
                    TurnState::Moving(_) => {},
                    _ => {
                        return TurnAction::Ignored;
                    },
                }
                self.state = TurnState::Resolving;
                TurnAction::Resolve
            },
            AnimationKind::Disappear => {
                match &self.state {
                    TurnState::Refilling => {},
                    _ => {
                        return TurnAction::Ignored;
                    },
                }
                let put = self.refill();
                TurnAction::Refilled(put)
            },
        }
    }

    /// Checks a value that was put together field by field: whether the board is well formed
    /// and a selected cell is on the board and holds a circle.
    pub fn is_well_formed(&self) -> (ok: bool)
        ensures
            ok == self.wf(),
    {
        if !self.board.is_well_formed() {
            return false;
        }
        match &self.state {
            TurnState::Selected(pos) => {
                pos.0 < FIELD_SIZE && pos.1 < FIELD_SIZE && !self.board.get(*pos).is_empty()
            },
            _ => true,
        }
    }

    /// Whether the game is over.
    pub fn is_game_over(&self) -> (over: bool)
        ensures
            over == (self.state is GameOver),
    {
        match &self.state {
            TurnState::GameOver => true,
            _ => false,
        }
    }
}

} // verus!
