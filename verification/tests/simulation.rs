use sudoku_solver::board::Cell;
use sudoku_solver::board::GameBoard;
use sudoku_solver::utils::Vec2D;
use sudoku_solver::wave_function_collapse::SolverStatus;
use sudoku_solver::wave_function_collapse::WaveFunction;

fn partially_filled_board() -> GameBoard {
    let mut gameboard = GameBoard::create_empty(3);
    gameboard.set_cell(Vec2D::new(0, 0), Cell::as_given(1));
    gameboard.set_cell(Vec2D::new(0, 1), Cell::as_given(2));
    gameboard.set_cell(Vec2D::new(0, 2), Cell::as_given(3));
    gameboard.set_cell(Vec2D::new(1, 1), Cell::as_given(4));
    gameboard
}

fn raw_values(wave_fn: &WaveFunction) -> Vec<Vec<usize>> {
    let size = wave_fn.state.gameboard.board_size();
    let mut rows: Vec<Vec<usize>> = Vec::new();
    for r in 0..size {
        let mut row: Vec<usize> = Vec::new();
        for c in 0..size {
            row.push(wave_fn.state.gameboard.cell_at(Vec2D::new(r, c)).value());
        }
        rows.push(row);
    }
    rows
}

fn candidate_total(wave_fn: &WaveFunction) -> usize {
    let size = wave_fn.state.gameboard.board_size();
    let mut total = 0;
    for r in 0..size {
        for c in 0..size {
            if let Some(candidates) = wave_fn.candidates_at(Vec2D::new(r, c)) {
                total += candidates.len();
            }
        }
    }
    total
}

#[test]
fn partially_filled_board_reaches_solved() {
    let mut wave_fn = WaveFunction::build(partially_filled_board());
    while wave_fn.status() != SolverStatus::Solved {
        if !wave_fn.simulate_generation() {
            assert!(wave_fn.backtrack_prev_frame());
        }
    }
    assert_eq!(wave_fn.status(), SolverStatus::Solved);
    assert_eq!(wave_fn.remaining(), 0);

    let raw = raw_values(&wave_fn);
    for r in 0..9 {
        for c in 0..9 {
            assert!(1 <= raw[r][c] && raw[r][c] <= 9);
        }
    }
    assert_eq!(raw[0][0], 1);
    assert_eq!(raw[0][1], 2);
    assert_eq!(raw[0][2], 3);
    assert_eq!(raw[1][1], 4);
    for r1 in 0..9 {
        for c1 in 0..9 {
            for r2 in 0..9 {
                for c2 in 0..9 {
                    if (r1, c1) == (r2, c2) {
                        continue;
                    }
                    let peers =
                        r1 == r2 || c1 == c2 || (r1 / 3 == r2 / 3 && c1 / 3 == c2 / 3);
                    if peers {
                        assert_ne!(raw[r1][c1], raw[r2][c2]);
                    }
                }
            }
        }
    }
}

#[test]
fn advance_is_idempotent_once_solved() {
    let mut wave_fn = WaveFunction::build(partially_filled_board());
    while wave_fn.status() != SolverStatus::Solved {
        if !wave_fn.simulate_generation() {
            assert!(wave_fn.backtrack_prev_frame());
        }
    }
    let raw = raw_values(&wave_fn);
    for _ in 0..5 {
        assert!(wave_fn.simulate_generation());
        assert_eq!(wave_fn.status(), SolverStatus::Solved);
        assert_eq!(raw_values(&wave_fn), raw);
    }
}

#[test]
fn frontier_matches_empty_cells() {
    let wave_fn = WaveFunction::build(partially_filled_board());
    assert_eq!(wave_fn.remaining(), 77);
    for r in 0..9 {
        for c in 0..9 {
            let pos = Vec2D::new(r, c);
            let unresolved = wave_fn.state.gameboard.cell_at(pos).value() == 0;
            assert_eq!(wave_fn.candidates_at(pos).is_some(), unresolved);
        }
    }
}

#[test]
fn candidates_are_range_minus_peer_values() {
    let wave_fn = WaveFunction::build(partially_filled_board());
    let raw = raw_values(&wave_fn);
    for r in 0..9 {
        for c in 0..9 {
            let candidates = match wave_fn.candidates_at(Vec2D::new(r, c)) {
                Some(candidates) => candidates,
                None => continue,
            };
            for v in 1..=9usize {
                let mut visible = false;
                for r2 in 0..9 {
                    for c2 in 0..9 {
                        if (r2, c2) == (r, c) {
                            continue;
                        }
                        let peers =
                            r == r2 || c == c2 || (r / 3 == r2 / 3 && c / 3 == c2 / 3);
                        if peers && raw[r2][c2] == v {
                            visible = true;
                        }
                    }
                }
                assert_eq!(candidates.contains(&v), !visible);
            }
        }
    }
}

#[test]
fn forced_backtrack_restores_board_and_frontier() {
    let mut wave_fn = WaveFunction::build(partially_filled_board());
    let raw_before = raw_values(&wave_fn);
    let remaining_before = wave_fn.remaining();
    let total_before = candidate_total(&wave_fn);

    assert!(wave_fn.simulate_generation());
    assert_eq!(wave_fn.remaining(), remaining_before - 1);

    assert!(wave_fn.force_backtrack_prev_frame());
    assert_eq!(raw_values(&wave_fn), raw_before);
    assert_eq!(wave_fn.remaining(), remaining_before);
    // the rollback snapshot differs from the pre-step state in exactly one
    // way: the candidate that was just tried is no longer offered
    assert_eq!(candidate_total(&wave_fn), total_before - 1);
}

#[test]
fn backtrack_is_a_no_op_while_active() {
    let mut wave_fn = WaveFunction::build(partially_filled_board());
    assert_eq!(wave_fn.status(), SolverStatus::Active);
    let raw_before = raw_values(&wave_fn);
    assert!(!wave_fn.backtrack_prev_frame());
    assert_eq!(raw_values(&wave_fn), raw_before);
    assert_eq!(wave_fn.remaining(), 77);
}

#[test]
fn forced_backtrack_without_history_fails() {
    let mut wave_fn = WaveFunction::build(partially_filled_board());
    assert!(!wave_fn.force_backtrack_prev_frame());
    assert_eq!(wave_fn.remaining(), 77);
}

#[test]
fn contradicted_board_reports_false() {
    // row 0 holds 1..=8 and the crossing column already holds 9: the last
    // cell of the row is left with no candidate at all
    let mut gameboard = GameBoard::create_empty(3);
    for c in 0..8 {
        gameboard.set_cell(Vec2D::new(0, c), Cell::as_given(c + 1));
    }
    gameboard.set_cell(Vec2D::new(5, 8), Cell::as_given(9));
    let mut wave_fn = WaveFunction::build(gameboard);
    assert_eq!(wave_fn.candidates_at(Vec2D::new(0, 8)), Some(vec![]));
    assert_eq!(wave_fn.status(), SolverStatus::Contradicted);
    let raw_before = raw_values(&wave_fn);
    assert!(!wave_fn.simulate_generation());
    assert_eq!(raw_values(&wave_fn), raw_before);
}

#[test]
fn advance_commits_the_most_constrained_cell() {
    let mut gameboard = GameBoard::create_empty(3);
    for c in 0..8 {
        gameboard.set_cell(Vec2D::new(0, c), Cell::as_given(c + 1));
    }
    let mut wave_fn = WaveFunction::build(gameboard);
    let candidates = wave_fn.candidates_at(Vec2D::new(0, 8)).unwrap();
    assert_eq!(candidates, vec![9]);
    assert!(wave_fn.simulate_generation());
    assert_eq!(wave_fn.state.gameboard.cell_at(Vec2D::new(0, 8)).value(), 9);
}
