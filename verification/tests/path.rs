use color_lines::common::FIELD_SIZE;
use color_lines::game_state::{CellState, GameState};

fn grid_of(circles: &[(usize, usize, i32)]) -> GameState {
    let mut board = GameState::default();
    for &(row, col, kind) in circles {
        board.set((row, col), CellState(kind));
    }
    board
}

fn is_valid_way(board: &GameState, from: (usize, usize), to: (usize, usize), way: &[(usize, usize)]) -> bool {
    if way.is_empty() || way[0] != to || way[way.len() - 1] != from {
        return false;
    }
    for &pos in way {
        if pos.0 >= FIELD_SIZE || pos.1 >= FIELD_SIZE {
            return false;
        }
        if pos != from && !board.get(pos).is_empty() {
            return false;
        }
    }
    for pair in way.windows(2) {
        let dr = pair[0].0.abs_diff(pair[1].0);
        let dc = pair[0].1.abs_diff(pair[1].1);
        if dr + dc != 1 {
            return false;
        }
    }
    true
}

fn distances(board: &GameState, from: (usize, usize)) -> Vec<Vec<Option<usize>>> {
    let mut dist = vec![vec![None; FIELD_SIZE]; FIELD_SIZE];
    dist[from.0][from.1] = Some(0);
    let mut changed = true;
    while changed {
        changed = false;
        for row in 0..FIELD_SIZE {
            for col in 0..FIELD_SIZE {
                let Some(here) = dist[row][col] else { continue };
                let mut next = Vec::new();
                if row > 0 {
                    next.push((row - 1, col));
                }
                if row + 1 < FIELD_SIZE {
                    next.push((row + 1, col));
                }
                if col > 0 {
                    next.push((row, col - 1));
                }
                if col + 1 < FIELD_SIZE {
                    next.push((row, col + 1));
                }
                for pos in next {
                    if !board.get(pos).is_empty() {
                        continue;
                    }
                    let better = match dist[pos.0][pos.1] {
                        None => true,
                        Some(old) => old > here + 1,
                    };
                    if better {
                        dist[pos.0][pos.1] = Some(here + 1);
                        changed = true;
                    }
                }
            }
        }
    }
    dist
}

#[test]
fn way_to_the_own_cell_is_that_cell() {
    let board = grid_of(&[(4, 4, 2)]);
    assert_eq!(board.find_path((4, 4), (4, 4)), Some(vec![(4, 4)]));
    let empty = GameState::default();
    assert_eq!(empty.find_path((0, 0), (0, 0)), Some(vec![(0, 0)]));
}

#[test]
fn way_to_a_neighbour() {
    let board = grid_of(&[(4, 4, 2)]);
    assert_eq!(board.find_path((4, 4), (3, 4)), Some(vec![(3, 4), (4, 4)]));
    assert_eq!(board.find_path((4, 4), (5, 4)), Some(vec![(5, 4), (4, 4)]));
    assert_eq!(board.find_path((4, 4), (4, 3)), Some(vec![(4, 3), (4, 4)]));
    assert_eq!(board.find_path((4, 4), (4, 5)), Some(vec![(4, 5), (4, 4)]));
}

#[test]
fn way_along_a_row_is_straight() {
    let board = grid_of(&[(0, 0, 1)]);
    let way = board.find_path((0, 0), (0, 8)).unwrap();
    assert_eq!(
        way,
        vec![(0, 8), (0, 7), (0, 6), (0, 5), (0, 4), (0, 3), (0, 2), (0, 1), (0, 0)]
    );
}

#[test]
fn no_way_to_a_cell_with_a_circle() {
    let board = grid_of(&[(4, 4, 2), (4, 5, 3)]);
    assert_eq!(board.find_path((4, 4), (4, 5)), None);
    assert_eq!(board.find_path((4, 4), (4, 6)).map(|w| w.len()), Some(5));
}

#[test]
fn no_way_out_of_a_closed_corner() {
    let board = grid_of(&[(0, 0, 1), (0, 1, 2), (1, 0, 3)]);
    assert_eq!(board.find_path((0, 0), (5, 5)), None);
    assert_eq!(board.find_path((0, 0), (1, 1)), None);
    assert_eq!(board.find_path((0, 1), (1, 1)), Some(vec![(1, 1), (0, 1)]));
}

#[test]
fn no_way_into_a_walled_cell() {
    let board = grid_of(&[(3, 4, 1), (5, 4, 1), (4, 3, 1), (4, 5, 1), (0, 0, 2)]);
    assert_eq!(board.find_path((0, 0), (4, 4)), None);
    assert!(board.find_path((0, 0), (8, 8)).is_some());
}

#[test]
fn blocked_row_with_a_free_row_below_gives_a_detour() {
    let mut board = GameState::default();
    board.set((0, 4), CellState(3));
    let way = board.find_path((0, 0), (0, 8)).unwrap();
    assert!(is_valid_way(&board, (0, 0), (0, 8), &way));
    assert_eq!(way.len(), 11);
    assert_eq!(
        way,
        vec![
            (0, 8),
            (0, 7),
            (0, 6),
            (0, 5),
            (1, 5),
            (1, 4),
            (1, 3),
            (1, 2),
            (1, 1),
            (1, 0),
            (0, 0)
        ]
    );
}

#[test]
fn blocked_row_without_another_row_gives_no_way() {
    let mut board = GameState::default();
    board.set((0, 4), CellState(3));
    for col in 0..FIELD_SIZE {
        board.set((1, col), CellState(((col % 2) + 1) as i32));
    }
    assert_eq!(board.find_path((0, 0), (0, 8)), None);
    assert_eq!(board.find_path((0, 0), (0, 3)).map(|w| w.len()), Some(4));
}

#[test]
fn of_two_shortest_ways_the_one_that_starts_downwards_wins() {
    let board = GameState::default();
    assert_eq!(board.find_path((0, 0), (1, 1)), Some(vec![(1, 1), (1, 0), (0, 0)]));
    assert_eq!(board.find_path((1, 1), (0, 0)), Some(vec![(0, 0), (0, 1), (1, 1)]));
    assert_eq!(board.find_path((4, 4), (3, 5)), Some(vec![(3, 5), (3, 4), (4, 4)]));
    assert_eq!(board.find_path((4, 4), (5, 3)), Some(vec![(5, 3), (5, 4), (4, 4)]));
}

#[test]
fn tie_between_ways_goes_by_the_first_step_that_differs() {
    let board = GameState::default();
    assert_eq!(
        board.find_path((0, 0), (2, 2)),
        Some(vec![(2, 2), (2, 1), (2, 0), (1, 0), (0, 0)])
    );
    assert_eq!(
        board.find_path((2, 2), (0, 0)),
        Some(vec![(0, 0), (0, 1), (0, 2), (1, 2), (2, 2)])
    );
}

#[test]
fn start_counts_as_empty_whatever_it_holds() {
    let with_circle = grid_of(&[(2, 2, 5)]);
    let without = GameState::default();
    assert_eq!(with_circle.find_path((2, 2), (2, 6)), without.find_path((2, 2), (2, 6)));
    assert_eq!(with_circle.find_path((2, 2), (6, 2)), without.find_path((2, 2), (6, 2)));
}

#[test]
fn way_through_a_gap_in_a_wall() {
    let mut board = GameState::default();
    for row in 0..FIELD_SIZE {
        if row != 7 {
            board.set((row, 4), CellState(1));
        }
    }
    board.set((0, 0), CellState(2));
    let way = board.find_path((0, 0), (0, 8)).unwrap();
    assert!(is_valid_way(&board, (0, 0), (0, 8), &way));
    assert_eq!(way.len(), 7 + 8 + 7 + 1);
    assert!(way.contains(&(7, 4)));
}

#[test]
fn found_ways_are_valid_and_shortest_everywhere() {
    let mut board = GameState::default();
    let walls = [
        (1, 1), (1, 2), (1, 3), (2, 3), (3, 3), (3, 5), (4, 5), (5, 5), (5, 1), (6, 1),
        (7, 1), (7, 2), (7, 6), (6, 6), (6, 7), (0, 6), (1, 6), (8, 4), (3, 0), (3, 1),
    ];
    for (i, &(row, col)) in walls.iter().enumerate() {
        board.set((row, col), CellState((i % 7) as i32));
    }
    board.set((4, 2), CellState(6));
    let from = (4, 2);
    let dist = distances(&board, from);
    for row in 0..FIELD_SIZE {
        for col in 0..FIELD_SIZE {
            let found = board.find_path(from, (row, col));
            match dist[row][col] {
                None => assert_eq!(found, None),
                Some(steps) => {
                    let way = found.unwrap();
                    assert!(is_valid_way(&board, from, (row, col), &way));
                    assert_eq!(way.len(), steps + 1);
                },
            }
        }
    }
}

#[test]
fn search_leaves_the_board_alone() {
    let board = grid_of(&[(0, 0, 1), (3, 3, 2), (8, 8, 3)]);
    let before = board.cells.clone();
    let way = board.find_path((0, 0), (8, 7));
    assert!(way.is_some());
    assert_eq!(board.cells, before);
}
