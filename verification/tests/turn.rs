use color_lines::common::{CIRCLES_PER_TURN, FIELD_SIZE};
use color_lines::game_state::{CellState, FutureCircle, GameState};
use color_lines::turn::{AnimationKind, ClearedCircle, TurnAction, TurnController, TurnState};

fn game_of(circles: &[(usize, usize, i32)], state: TurnState, points: u64) -> TurnController {
    let mut board = GameState::default();
    for &(row, col, kind) in circles {
        board.set((row, col), CellState(kind));
    }
    TurnController { board, state, score: 0, points_per_cell: points }
}

fn crowded(free: &[(usize, usize)]) -> GameState {
    let mut board = GameState::default();
    for row in 0..FIELD_SIZE {
        for col in 0..FIELD_SIZE {
            if !free.contains(&(row, col)) {
                board.set((row, col), CellState(((2 * row + col) % 7) as i32));
            }
        }
    }
    board
}

fn check_preview(game: &TurnController) {
    let preview = &game.board.future_circles;
    assert_eq!(preview.len(), CIRCLES_PER_TURN);
    for (i, circle) in preview.iter().enumerate() {
        assert!(game.board.get((circle.row, circle.col)).is_empty());
        assert!(0 <= circle.kind && circle.kind < 7);
        for other in &preview[..i] {
            assert_ne!((circle.row, circle.col), (other.row, other.col));
        }
    }
}

#[test]
fn new_game_shows_three_circles_and_three_previews() {
    for _ in 0..20 {
        let game = TurnController::new(1);
        assert_eq!(game.state, TurnState::AwaitingSelection);
        assert_eq!(game.score, 0);
        assert_eq!(game.points_per_cell, 1);
        assert_eq!(game.board.get_free_count(), 78);
        assert!(!game.is_game_over());
        check_preview(&game);
    }
}

#[test]
fn click_on_a_circle_selects_it() {
    let mut game = game_of(&[(2, 3, 4)], TurnState::AwaitingSelection, 1);
    assert_eq!(game.select_or_move((2, 3)), None);
    assert_eq!(game.state, TurnState::Selected((2, 3)));
    assert_eq!(game.board.get((2, 3)), CellState(4));
}

#[test]
fn click_on_an_empty_cell_selects_nothing() {
    let mut game = game_of(&[(2, 3, 4)], TurnState::AwaitingSelection, 1);
    assert_eq!(game.select_or_move((5, 5)), None);
    assert_eq!(game.state, TurnState::AwaitingSelection);
}

#[test]
fn click_outside_the_board_is_ignored() {
    let mut game = game_of(&[(2, 3, 4)], TurnState::AwaitingSelection, 1);
    assert_eq!(game.select_or_move((9, 0)), None);
    assert_eq!(game.select_or_move((0, 9)), None);
    assert_eq!(game.state, TurnState::AwaitingSelection);
    game.state = TurnState::Selected((2, 3));
    assert_eq!(game.select_or_move((usize::MAX, 3)), None);
    assert_eq!(game.state, TurnState::Selected((2, 3)));
    assert_eq!(game.board.get((2, 3)), CellState(4));
}

#[test]
fn click_on_another_circle_selects_that_one() {
    let mut game = game_of(&[(2, 3, 4), (6, 6, 1)], TurnState::Selected((2, 3)), 1);
    let before = game.board.cells.clone();
    assert_eq!(game.select_or_move((6, 6)), None);
    assert_eq!(game.state, TurnState::Selected((6, 6)));
    assert_eq!(game.board.cells, before);
}

#[test]
fn click_on_the_selected_circle_keeps_it_selected() {
    let mut game = game_of(&[(2, 3, 4), (6, 6, 1)], TurnState::AwaitingSelection, 1);
    assert_eq!(game.select_or_move((2, 3)), None);
    let before = game.board.cells.clone();
    assert_eq!(game.select_or_move((2, 3)), None);
    assert_eq!(game.state, TurnState::Selected((2, 3)));
    assert_eq!(game.board.cells, before);
    assert_eq!(game.score, 0);
}

#[test]
fn click_on_a_cell_in_reach_moves_the_circle_at_once() {
    let mut game = game_of(&[(2, 3, 4)], TurnState::Selected((2, 3)), 1);
    let way = game.select_or_move((2, 5));
    assert_eq!(way, Some(vec![(2, 5), (2, 4), (2, 3)]));
    assert_eq!(game.state, TurnState::Moving(vec![(2, 5), (2, 4), (2, 3)]));
    assert_eq!(game.board.get((2, 3)), CellState(-1));
    assert_eq!(game.board.get((2, 5)), CellState(4));
    assert_eq!(game.board.get_free_count(), 80);
    assert_eq!(game.score, 0);
}

#[test]
fn click_on_a_cell_out_of_reach_is_ignored() {
    let mut game =
        game_of(&[(0, 0, 4), (0, 1, 1), (1, 0, 2)], TurnState::Selected((0, 0)), 1);
    let before = game.board.cells.clone();
    assert_eq!(game.select_or_move((5, 5)), None);
    assert_eq!(game.state, TurnState::Selected((0, 0)));
    assert_eq!(game.board.cells, before);
}

#[test]
fn clicks_are_ignored_while_a_circle_moves() {
    let mut game = game_of(&[(2, 3, 4), (6, 6, 1)], TurnState::Selected((2, 3)), 1);
    assert!(game.select_or_move((2, 5)).is_some());
    let before = game.board.cells.clone();
    assert_eq!(game.select_or_move((6, 6)), None);
    assert_eq!(game.select_or_move((0, 0)), None);
    assert_eq!(game.state, TurnState::Moving(vec![(2, 5), (2, 4), (2, 3)]));
    assert_eq!(game.board.cells, before);
}

#[test]
fn arrival_only_leads_to_resolving() {
    let mut game = game_of(
        &[(4, 2, 2), (4, 3, 2), (4, 4, 2), (4, 5, 2), (4, 6, 2), (0, 0, 5)],
        TurnState::Moving(vec![(4, 6), (5, 6)]),
        3,
    );
    game.score = 10;
    game.board.future_circles = vec![FutureCircle { kind: 1, row: 8, col: 8 }];
    let before = game.board.cells.clone();
    assert_eq!(game.animation_complete(AnimationKind::Move), TurnAction::Resolve);
    assert_eq!(game.state, TurnState::Resolving);
    assert_eq!(game.board.cells, before);
    assert_eq!(game.board.future_circles, vec![FutureCircle { kind: 1, row: 8, col: 8 }]);
    assert_eq!(game.score, 10);
}

#[test]
fn arrival_then_resolve_clears_the_runs_and_scores() {
    let mut game = game_of(
        &[(4, 2, 2), (4, 3, 2), (4, 4, 2), (4, 5, 2), (4, 6, 2), (0, 0, 5)],
        TurnState::Moving(vec![(4, 6), (5, 6)]),
        3,
    );
    game.score = 10;
    assert_eq!(game.animation_complete(AnimationKind::Move), TurnAction::Resolve);
    let cleared = game.resolve();
    assert_eq!(
        cleared,
        vec![
            ClearedCircle { kind: 2, row: 4, col: 2 },
            ClearedCircle { kind: 2, row: 4, col: 3 },
            ClearedCircle { kind: 2, row: 4, col: 4 },
            ClearedCircle { kind: 2, row: 4, col: 5 },
            ClearedCircle { kind: 2, row: 4, col: 6 },
        ]
    );
    assert_eq!(game.score, 25);
    assert_eq!(game.state, TurnState::Refilling);
    assert_eq!(game.board.get_free_count(), 80);
    assert_eq!(game.board.get((0, 0)), CellState(5));
}

#[test]
fn arrival_without_a_run_scores_nothing() {
    let mut game = game_of(
        &[(4, 2, 2), (4, 3, 2), (4, 4, 2), (4, 5, 2)],
        TurnState::Moving(vec![(4, 5), (5, 5)]),
        3,
    );
    game.score = 7;
    let before = game.board.cells.clone();
    assert_eq!(game.animation_complete(AnimationKind::Move), TurnAction::Resolve);
    assert_eq!(game.state, TurnState::Resolving);
    assert_eq!(game.resolve(), vec![]);
    assert_eq!(game.score, 7);
    assert_eq!(game.state, TurnState::Refilling);
    assert_eq!(game.board.cells, before);
}

#[test]
fn resolving_waits_for_resolve_alone() {
    let mut game = game_of(
        &[(4, 2, 2), (4, 3, 2), (4, 4, 2), (4, 5, 2), (4, 6, 2)],
        TurnState::Resolving,
        1,
    );
    assert_eq!(game.animation_complete(AnimationKind::Move), TurnAction::Ignored);
    assert_eq!(game.animation_complete(AnimationKind::Disappear), TurnAction::Ignored);
    assert_eq!(game.select_or_move((4, 2)), None);
    assert_eq!(game.refill(), vec![]);
    assert_eq!(game.state, TurnState::Resolving);
    assert_eq!(game.board.get_free_count(), 76);
    assert_eq!(game.resolve().len(), 5);
    assert_eq!(game.state, TurnState::Refilling);
}

#[test]
fn resolve_clears_five_and_adds_five_times_the_points() {
    let mut game = game_of(
        &[(4, 2, 2), (4, 3, 2), (4, 4, 2), (4, 5, 2), (4, 6, 2)],
        TurnState::Resolving,
        4,
    );
    let cleared = game.resolve();
    let cells: Vec<(usize, usize)> = cleared.iter().map(|c| (c.row, c.col)).collect();
    assert_eq!(cells, vec![(4, 2), (4, 3), (4, 4), (4, 5), (4, 6)]);
    assert!(cleared.iter().all(|c| c.kind == 2));
    assert_eq!(game.score, 20);
    assert_eq!(game.state, TurnState::Refilling);
    assert_eq!(game.board.get_free_count(), 81);
}

#[test]
fn resolve_reports_the_colour_of_each_circle() {
    let mut game = game_of(
        &[
            (0, 0, 1), (0, 1, 1), (0, 2, 1), (0, 3, 1), (0, 4, 1),
            (2, 8, 6), (3, 8, 6), (4, 8, 6), (5, 8, 6), (6, 8, 6), (7, 8, 6),
        ],
        TurnState::Resolving,
        1,
    );
    let cleared = game.resolve();
    assert_eq!(cleared.len(), 11);
    assert_eq!(cleared[0], ClearedCircle { kind: 1, row: 0, col: 0 });
    assert_eq!(cleared[4], ClearedCircle { kind: 1, row: 0, col: 4 });
    assert_eq!(cleared[5], ClearedCircle { kind: 6, row: 2, col: 8 });
    assert_eq!(cleared[10], ClearedCircle { kind: 6, row: 7, col: 8 });
    assert_eq!(game.score, 11);
}

#[test]
fn resolve_in_another_state_does_nothing() {
    let mut game = game_of(
        &[(4, 2, 2), (4, 3, 2), (4, 4, 2), (4, 5, 2), (4, 6, 2)],
        TurnState::AwaitingSelection,
        4,
    );
    assert_eq!(game.resolve(), vec![]);
    assert_eq!(game.score, 0);
    assert_eq!(game.state, TurnState::AwaitingSelection);
    assert_eq!(game.board.get_free_count(), 76);
}

#[test]
fn score_stops_at_the_largest_number() {
    let mut game = game_of(
        &[(4, 2, 2), (4, 3, 2), (4, 4, 2), (4, 5, 2), (4, 6, 2)],
        TurnState::Resolving,
        10,
    );
    game.score = u64::MAX - 49;
    game.resolve();
    assert_eq!(game.score, u64::MAX);

    let mut game = game_of(
        &[(4, 2, 2), (4, 3, 2), (4, 4, 2), (4, 5, 2), (4, 6, 2)],
        TurnState::Resolving,
        10,
    );
    game.score = u64::MAX - 50;
    game.resolve();
    assert_eq!(game.score, u64::MAX);

    let mut game = game_of(
        &[(4, 2, 2), (4, 3, 2), (4, 4, 2), (4, 5, 2), (4, 6, 2)],
        TurnState::Resolving,
        10,
    );
    game.score = u64::MAX - 51;
    game.resolve();
    assert_eq!(game.score, u64::MAX - 1);

    let mut game = game_of(
        &[(4, 2, 2), (4, 3, 2), (4, 4, 2), (4, 5, 2), (4, 6, 2)],
        TurnState::Resolving,
        u64::MAX,
    );
    game.resolve();
    assert_eq!(game.score, u64::MAX);
}

#[test]
fn refill_puts_the_preview_and_draws_the_next() {
    let mut game = game_of(&[(4, 4, 6)], TurnState::Refilling, 1);
    game.board.future_circles = vec![
        FutureCircle { kind: 1, row: 0, col: 0 },
        FutureCircle { kind: 2, row: 4, col: 4 },
        FutureCircle { kind: 3, row: 8, col: 8 },
    ];
    let put = game.refill();
    assert_eq!(
        put,
        vec![FutureCircle { kind: 1, row: 0, col: 0 }, FutureCircle { kind: 3, row: 8, col: 8 }]
    );
    assert_eq!(game.board.get((0, 0)), CellState(1));
    assert_eq!(game.board.get((4, 4)), CellState(6));
    assert_eq!(game.board.get((8, 8)), CellState(3));
    assert_eq!(game.board.get_free_count(), 78);
    assert_eq!(game.state, TurnState::AwaitingSelection);
    check_preview(&game);
}

#[test]
fn refill_does_not_resolve_runs() {
    let mut game = game_of(
        &[(4, 2, 2), (4, 3, 2), (4, 5, 2), (4, 6, 2)],
        TurnState::Refilling,
        1,
    );
    game.board.future_circles = vec![FutureCircle { kind: 2, row: 4, col: 4 }];
    let put = game.refill();
    assert_eq!(put, vec![FutureCircle { kind: 2, row: 4, col: 4 }]);
    for col in 2..7 {
        assert_eq!(game.board.get((4, col)), CellState(2));
    }
    assert_eq!(game.score, 0);
    assert_eq!(game.state, TurnState::AwaitingSelection);
}

#[test]
fn refill_with_two_free_cells_ends_the_game() {
    let board = crowded(&[(3, 3), (5, 6)]);
    let mut game =
        TurnController { board, state: TurnState::Refilling, score: 12, points_per_cell: 1 };
    let before = game.board.cells.clone();
    assert_eq!(game.refill(), vec![]);
    assert_eq!(game.state, TurnState::GameOver);
    assert!(game.is_game_over());
    assert_eq!(game.board.cells, before);
    assert_eq!(game.board.future_circles, vec![]);
    assert_eq!(game.score, 12);
}

#[test]
fn refill_that_fills_the_board_ends_the_game() {
    let mut board = crowded(&[(0, 0), (3, 3), (5, 6), (8, 8)]);
    board.future_circles = vec![
        FutureCircle { kind: 0, row: 3, col: 3 },
        FutureCircle { kind: 0, row: 0, col: 0 },
        FutureCircle { kind: 0, row: 8, col: 8 },
    ];
    let mut game =
        TurnController { board, state: TurnState::Refilling, score: 0, points_per_cell: 1 };
    assert_eq!(game.animation_complete(AnimationKind::Disappear), TurnAction::Refilled(vec![
        FutureCircle { kind: 0, row: 3, col: 3 },
        FutureCircle { kind: 0, row: 0, col: 0 },
        FutureCircle { kind: 0, row: 8, col: 8 },
    ]));
    assert_eq!(game.board.get_free_count(), 1);
    assert_eq!(game.state, TurnState::GameOver);
    assert_eq!(game.board.future_circles, vec![]);
}

#[test]
fn refill_with_three_free_cells_goes_on() {
    let board = crowded(&[(0, 0), (3, 3), (5, 6)]);
    let mut game =
        TurnController { board, state: TurnState::Refilling, score: 0, points_per_cell: 1 };
    assert_eq!(game.refill(), vec![]);
    assert_eq!(game.state, TurnState::AwaitingSelection);
    check_preview(&game);
}

#[test]
fn refill_in_another_state_does_nothing() {
    let mut game = game_of(&[], TurnState::Selected((0, 0)), 1);
    game.board.set((0, 0), CellState(1));
    game.board.future_circles = vec![FutureCircle { kind: 1, row: 5, col: 5 }];
    assert_eq!(game.refill(), vec![]);
    assert_eq!(game.state, TurnState::Selected((0, 0)));
    assert_eq!(game.board.get_free_count(), 80);
    assert_eq!(game.board.future_circles, vec![FutureCircle { kind: 1, row: 5, col: 5 }]);
}

#[test]
fn reports_that_do_not_fit_are_ignored() {
    let mut game = game_of(
        &[(4, 2, 2), (4, 3, 2), (4, 4, 2), (4, 5, 2), (4, 6, 2)],
        TurnState::AwaitingSelection,
        1,
    );
    assert_eq!(game.animation_complete(AnimationKind::Move), TurnAction::Ignored);
    assert_eq!(game.animation_complete(AnimationKind::Disappear), TurnAction::Ignored);
    assert_eq!(game.state, TurnState::AwaitingSelection);
    game.state = TurnState::Selected((4, 2));
    assert_eq!(game.animation_complete(AnimationKind::Move), TurnAction::Ignored);
    assert_eq!(game.state, TurnState::Selected((4, 2)));
    game.state = TurnState::Moving(vec![(4, 2)]);
    assert_eq!(game.animation_complete(AnimationKind::Disappear), TurnAction::Ignored);
    assert_eq!(game.state, TurnState::Moving(vec![(4, 2)]));
    game.state = TurnState::Refilling;
    assert_eq!(game.animation_complete(AnimationKind::Move), TurnAction::Ignored);
    assert_eq!(game.state, TurnState::Refilling);
    assert_eq!(game.board.get_free_count(), 76);
    assert_eq!(game.score, 0);
}

#[test]
fn nothing_happens_after_the_end() {
    let board = crowded(&[(3, 3), (5, 6)]);
    let mut game =
        TurnController { board, state: TurnState::GameOver, score: 3, points_per_cell: 1 };
    let before = game.board.cells.clone();
    assert_eq!(game.select_or_move((0, 0)), None);
    assert_eq!(game.select_or_move((3, 3)), None);
    assert_eq!(game.animation_complete(AnimationKind::Move), TurnAction::Ignored);
    assert_eq!(game.animation_complete(AnimationKind::Disappear), TurnAction::Ignored);
    assert_eq!(game.resolve(), vec![]);
    assert_eq!(game.refill(), vec![]);
    assert_eq!(game.state, TurnState::GameOver);
    assert_eq!(game.board.cells, before);
    assert_eq!(game.score, 3);
}

#[test]
fn a_whole_turn() {
    let mut game = game_of(
        &[(4, 2, 2), (4, 3, 2), (4, 4, 2), (4, 5, 2), (6, 6, 2), (0, 0, 1)],
        TurnState::AwaitingSelection,
        2,
    );
    game.board.future_circles = vec![
        FutureCircle { kind: 5, row: 4, col: 6 },
        FutureCircle { kind: 4, row: 8, col: 0 },
        FutureCircle { kind: 3, row: 8, col: 1 },
    ];
    assert_eq!(game.select_or_move((6, 6)), None);
    let way = game.select_or_move((4, 6)).unwrap();
    assert_eq!(way, vec![(4, 6), (5, 6), (6, 6)]);
    assert_eq!(game.animation_complete(AnimationKind::Move), TurnAction::Resolve);
    assert_eq!(game.state, TurnState::Resolving);
    assert_eq!(game.board.get((4, 6)), CellState(2));
    assert_eq!(game.score, 0);
    assert_eq!(game.resolve().len(), 5);
    assert_eq!(game.score, 10);
    assert_eq!(game.state, TurnState::Refilling);
    assert_eq!(game.select_or_move((0, 0)), None);
    assert_eq!(game.state, TurnState::Refilling);
    let action = game.animation_complete(AnimationKind::Disappear);
    assert_eq!(
        action,
        TurnAction::Refilled(vec![
            FutureCircle { kind: 5, row: 4, col: 6 },
            FutureCircle { kind: 4, row: 8, col: 0 },
            FutureCircle { kind: 3, row: 8, col: 1 },
        ])
    );
    assert_eq!(game.state, TurnState::AwaitingSelection);
    assert_eq!(game.board.get((4, 6)), CellState(5));
    assert_eq!(game.board.get((0, 0)), CellState(1));
    assert_eq!(game.board.get_free_count(), 77);
    check_preview(&game);
}

#[test]
fn a_game_played_at_random_keeps_its_rules() {
    let mut game = TurnController::new(1);
    let mut turns = 0;
    while !game.is_game_over() && turns < 400 {
        let mut from = None;
        let mut to = None;
        for row in 0..FIELD_SIZE {
            for col in 0..FIELD_SIZE {
                let pos = ((row * 5 + turns) % FIELD_SIZE, (col * 7 + turns * 2) % FIELD_SIZE);
                if game.board.get(pos).is_empty() {
                    if to.is_none() {
                        to = Some(pos);
                    }
                } else if from.is_none() {
                    from = Some(pos);
                }
            }
        }
        let (Some(from), Some(to)) = (from, to) else { break };
        assert_eq!(game.select_or_move(from), None);
        assert_eq!(game.state, TurnState::Selected(from));
        let before = game.score;
        match game.select_or_move(to) {
            Some(way) => {
                assert_eq!(way[0], to);
                assert_eq!(way[way.len() - 1], from);
                let cells = game.board.cells.clone();
                assert_eq!(game.animation_complete(AnimationKind::Move), TurnAction::Resolve);
                assert_eq!(game.state, TurnState::Resolving);
                assert_eq!(game.board.cells, cells);
                assert_eq!(game.score, before);
                let cleared = game.resolve();
                assert_eq!(game.state, TurnState::Refilling);
                assert_eq!(game.score, before + cleared.len() as u64);
                for circle in cleared {
                    assert!(game.board.get((circle.row, circle.col)).is_empty());
                }
                let free = game.board.get_free_count();
                match game.animation_complete(AnimationKind::Disappear) {
                    TurnAction::Refilled(put) => {
                        assert!(put.len() <= 3);
                        assert_eq!(game.board.get_free_count(), free - put.len());
                    },
                    other => panic!("unexpected action {:?}", other),
                }
                if game.is_game_over() {
                    assert!(game.board.get_free_count() < 3);
                } else {
                    assert_eq!(game.state, TurnState::AwaitingSelection);
                    check_preview(&game);
                }
            },
            None => {
                assert_eq!(game.state, TurnState::Selected(from));
                game.state = TurnState::AwaitingSelection;
            },
        }
        turns += 1;
    }
    assert!(turns > 0);
}
