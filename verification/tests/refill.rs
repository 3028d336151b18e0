use color_lines::common::{CIRCLES_PER_TURN, CIRCLE_KINDS, FIELD_SIZE};
use color_lines::game_state::{CellState, FutureCircle, GameState};
use color_lines::refill::SpawnError;

fn full_but(free: &[(usize, usize)]) -> GameState {
    let mut board = GameState::default();
    for row in 0..FIELD_SIZE {
        for col in 0..FIELD_SIZE {
            if !free.contains(&(row, col)) {
                board.set((row, col), CellState(((2 * row + col) % 7) as i32));
            }
        }
    }
    board
}

fn check_batch(board: &GameState, count: usize) {
    assert_eq!(board.future_circles.len(), count);
    for (i, circle) in board.future_circles.iter().enumerate() {
        assert!(circle.row < FIELD_SIZE && circle.col < FIELD_SIZE);
        assert!(0 <= circle.kind && circle.kind < CIRCLE_KINDS);
        assert!(board.get((circle.row, circle.col)).is_empty());
        for other in &board.future_circles[..i] {
            assert_ne!((circle.row, circle.col), (other.row, other.col));
        }
    }
}

#[test]
fn draws_of_zero_pick_the_first_free_cells() {
    let mut board = GameState::default();
    board.set((0, 1), CellState(3));
    let result = board.future_circles_from_draws(&vec![0, 0, 0], &vec![4, 5, 6]);
    assert_eq!(result, Ok(()));
    assert_eq!(
        board.future_circles,
        vec![
            FutureCircle { kind: 4, row: 0, col: 0 },
            FutureCircle { kind: 5, row: 0, col: 2 },
            FutureCircle { kind: 6, row: 0, col: 3 },
        ]
    );
}

#[test]
fn draws_steer_the_shuffle() {
    let mut board = full_but(&[(0, 0), (2, 3), (4, 4), (6, 1), (8, 8)]);
    let result = board.future_circles_from_draws(&vec![2, 0, 1], &vec![0, 1, 2]);
    assert_eq!(result, Ok(()));
    assert_eq!(
        board.future_circles,
        vec![
            FutureCircle { kind: 0, row: 4, col: 4 },
            FutureCircle { kind: 1, row: 2, col: 3 },
            FutureCircle { kind: 2, row: 6, col: 1 },
        ]
    );
}

#[test]
fn a_draw_can_bring_back_an_entry_that_was_swapped_away() {
    let mut board = full_but(&[(1, 1), (3, 3), (5, 5), (7, 7)]);
    let result = board.future_circles_from_draws(&vec![3, 2, 1, 0], &vec![6, 5, 4, 3]);
    assert_eq!(result, Ok(()));
    assert_eq!(
        board.future_circles,
        vec![
            FutureCircle { kind: 6, row: 7, col: 7 },
            FutureCircle { kind: 5, row: 1, col: 1 },
            FutureCircle { kind: 4, row: 3, col: 3 },
            FutureCircle { kind: 3, row: 5, col: 5 },
        ]
    );
}

#[test]
fn draws_replace_the_old_preview() {
    let mut board = GameState::default();
    board.future_circles.push(FutureCircle { kind: 1, row: 8, col: 8 });
    assert_eq!(board.future_circles_from_draws(&vec![80], &vec![2]), Ok(()));
    assert_eq!(board.future_circles, vec![FutureCircle { kind: 2, row: 8, col: 8 }]);
    assert_eq!(board.future_circles_from_draws(&vec![], &vec![]), Ok(()));
    assert_eq!(board.future_circles, vec![]);
}

#[test]
fn more_draws_than_free_cells_fail() {
    let mut board = full_but(&[(0, 0), (8, 8)]);
    board.future_circles.push(FutureCircle { kind: 1, row: 0, col: 0 });
    let before = board.cells.clone();
    let result = board.future_circles_from_draws(&vec![0, 0, 0], &vec![1, 1, 1]);
    assert_eq!(result, Err(SpawnError::InsufficientFreeCells));
    assert_eq!(board.future_circles, vec![]);
    assert_eq!(board.cells, before);
}

#[test]
fn draws_leave_the_board_alone() {
    let mut board = full_but(&[(0, 0), (2, 3), (4, 4), (6, 1), (8, 8)]);
    let before = board.cells.clone();
    assert_eq!(board.future_circles_from_draws(&vec![4, 3, 2], &vec![0, 0, 0]), Ok(()));
    assert_eq!(board.cells, before);
}

#[test]
fn random_preview_on_the_empty_board() {
    let mut board = GameState::default();
    for _ in 0..50 {
        assert_eq!(board.random_future_circles(CIRCLES_PER_TURN), Ok(()));
        check_batch(&board, 3);
        assert_eq!(board.get_free_count(), 81);
    }
}

#[test]
fn random_preview_takes_every_free_cell_if_it_must() {
    let free = [(0, 0), (4, 7), (8, 8)];
    let mut board = full_but(&free);
    for _ in 0..50 {
        assert_eq!(board.random_future_circles(3), Ok(()));
        check_batch(&board, 3);
        let mut cells: Vec<(usize, usize)> =
            board.future_circles.iter().map(|c| (c.row, c.col)).collect();
        cells.sort();
        assert_eq!(cells, free.to_vec());
    }
}

#[test]
fn random_preview_of_many_circles() {
    let mut board = GameState::default();
    board.set((4, 4), CellState(1));
    assert_eq!(board.random_future_circles(80), Ok(()));
    check_batch(&board, 80);
    assert_eq!(board.random_future_circles(0), Ok(()));
    check_batch(&board, 0);
}

#[test]
fn random_preview_fails_with_two_free_cells() {
    let mut board = full_but(&[(3, 3), (5, 6)]);
    board.future_circles.push(FutureCircle { kind: 0, row: 3, col: 3 });
    let before = board.cells.clone();
    assert_eq!(board.get_free_count(), 2);
    assert_eq!(board.random_future_circles(3), Err(SpawnError::InsufficientFreeCells));
    assert_eq!(board.cells, before);
    assert_eq!(board.future_circles, vec![]);
    assert_eq!(board.random_future_circles(2), Ok(()));
    check_batch(&board, 2);
}

#[test]
fn random_preview_fails_on_a_full_board() {
    let mut board = full_but(&[]);
    assert_eq!(board.random_future_circles(1), Err(SpawnError::InsufficientFreeCells));
    assert_eq!(board.random_future_circles(0), Ok(()));
    assert_eq!(board.random_future_circles(usize::MAX), Err(SpawnError::InsufficientFreeCells));
}

#[test]
fn random_colours_cover_the_kinds() {
    let mut board = GameState::default();
    let mut seen = [false; 7];
    for _ in 0..40 {
        assert_eq!(board.random_future_circles(20), Ok(()));
        for circle in &board.future_circles {
            seen[circle.kind as usize] = true;
        }
    }
    assert_eq!(seen, [true; 7]);
}

#[test]
fn commit_puts_the_preview_on_the_board() {
    let mut board = GameState::default();
    board.future_circles = vec![
        FutureCircle { kind: 1, row: 0, col: 0 },
        FutureCircle { kind: 2, row: 4, col: 4 },
        FutureCircle { kind: 3, row: 8, col: 8 },
    ];
    let put = board.commit_future_circles();
    assert_eq!(put, board.future_circles);
    assert_eq!(board.get((0, 0)), CellState(1));
    assert_eq!(board.get((4, 4)), CellState(2));
    assert_eq!(board.get((8, 8)), CellState(3));
    assert_eq!(board.get_free_count(), 78);
}

#[test]
fn commit_passes_over_a_cell_that_was_taken() {
    let mut board = GameState::default();
    board.set((4, 4), CellState(6));
    board.future_circles = vec![
        FutureCircle { kind: 1, row: 0, col: 0 },
        FutureCircle { kind: 2, row: 4, col: 4 },
        FutureCircle { kind: 3, row: 8, col: 8 },
    ];
    let put = board.commit_future_circles();
    assert_eq!(
        put,
        vec![FutureCircle { kind: 1, row: 0, col: 0 }, FutureCircle { kind: 3, row: 8, col: 8 }]
    );
    assert_eq!(board.get((4, 4)), CellState(6));
    assert_eq!(board.get_free_count(), 78);
    assert_eq!(board.future_circles.len(), 3);
}

#[test]
fn commit_of_an_empty_preview_changes_nothing() {
    let mut board = GameState::default();
    board.set((1, 2), CellState(0));
    let before = board.cells.clone();
    assert_eq!(board.commit_future_circles(), vec![]);
    assert_eq!(board.cells, before);
}
