use sudoku_solver::gameboard::GameBoard;
use sudoku_solver::utils::Vec2D;

fn to_rows(board: [[u8; 9]; 9]) -> Vec<Vec<u8>> {
    let mut rows: Vec<Vec<u8>> = Vec::new();
    for row in board.iter() {
        rows.push(row.to_vec());
    }
    rows
}

#[test]
fn has_correct_output() {
    let mut gameboard = GameBoard::new([
        [3, 0, 6, 5, 0, 8, 4, 0, 0],
        [5, 2, 0, 0, 0, 0, 0, 0, 0],
        [0, 8, 7, 0, 0, 0, 0, 3, 1],
        [0, 0, 3, 0, 1, 0, 0, 8, 0],
        [9, 0, 0, 8, 6, 3, 0, 0, 5],
        [0, 5, 0, 0, 9, 0, 6, 0, 0],
        [1, 3, 0, 0, 0, 0, 2, 5, 0],
        [0, 0, 0, 0, 0, 0, 0, 7, 4],
        [0, 0, 5, 2, 0, 6, 3, 0, 0],
    ]);

    gameboard.backtracking_solver();

    assert_eq!(
        gameboard.as_raw(),
        to_rows([
            [3, 1, 6, 5, 7, 8, 4, 9, 2],
            [5, 2, 9, 1, 3, 4, 7, 6, 8],
            [4, 8, 7, 6, 2, 9, 5, 3, 1],
            [2, 6, 3, 4, 1, 5, 9, 8, 7],
            [9, 7, 4, 8, 6, 3, 1, 2, 5],
            [8, 5, 1, 7, 9, 2, 6, 4, 3],
            [1, 3, 8, 9, 4, 7, 2, 5, 6],
            [6, 9, 2, 3, 5, 1, 8, 7, 4],
            [7, 4, 5, 2, 8, 6, 3, 1, 9],
        ])
    );
}

#[test]
fn invalid_grid_cannot_be_solved() {
    let board = [
        [3, 0, 6, 5, 0, 5, 4, 0, 0],
        [5, 2, 0, 0, 0, 0, 0, 0, 0],
        [0, 8, 7, 0, 0, 0, 0, 3, 1],
        [0, 0, 3, 0, 1, 0, 0, 8, 0],
        [9, 0, 0, 8, 6, 3, 0, 0, 5],
        [0, 5, 0, 0, 9, 0, 6, 0, 0],
        [1, 3, 0, 0, 0, 0, 2, 5, 0],
        [0, 0, 0, 0, 0, 0, 0, 7, 4],
        [0, 0, 5, 2, 0, 6, 3, 0, 0],
    ];

    let mut gameboard = GameBoard::new(board.clone());

    gameboard.backtracking_solver();

    assert_eq!(gameboard.as_raw(), to_rows(board));
}

#[test]
fn solver_reports_success_and_failure() {
    let mut solvable = GameBoard::new([
        [3, 0, 6, 5, 0, 8, 4, 0, 0],
        [5, 2, 0, 0, 0, 0, 0, 0, 0],
        [0, 8, 7, 0, 0, 0, 0, 3, 1],
        [0, 0, 3, 0, 1, 0, 0, 8, 0],
        [9, 0, 0, 8, 6, 3, 0, 0, 5],
        [0, 5, 0, 0, 9, 0, 6, 0, 0],
        [1, 3, 0, 0, 0, 0, 2, 5, 0],
        [0, 0, 0, 0, 0, 0, 0, 7, 4],
        [0, 0, 5, 2, 0, 6, 3, 0, 0],
    ]);
    assert!(solvable.backtracking_solver());

    let mut conflicted = GameBoard::new([
        [3, 0, 6, 5, 0, 5, 4, 0, 0],
        [5, 2, 0, 0, 0, 0, 0, 0, 0],
        [0, 8, 7, 0, 0, 0, 0, 3, 1],
        [0, 0, 3, 0, 1, 0, 0, 8, 0],
        [9, 0, 0, 8, 6, 3, 0, 0, 5],
        [0, 5, 0, 0, 9, 0, 6, 0, 0],
        [1, 3, 0, 0, 0, 0, 2, 5, 0],
        [0, 0, 0, 0, 0, 0, 0, 7, 4],
        [0, 0, 5, 2, 0, 6, 3, 0, 0],
    ]);
    assert!(!conflicted.backtracking_solver());
}

#[test]
fn solved_board_has_no_equal_peers() {
    let mut gameboard = GameBoard::new([
        [3, 0, 6, 5, 0, 8, 4, 0, 0],
        [5, 2, 0, 0, 0, 0, 0, 0, 0],
        [0, 8, 7, 0, 0, 0, 0, 3, 1],
        [0, 0, 3, 0, 1, 0, 0, 8, 0],
        [9, 0, 0, 8, 6, 3, 0, 0, 5],
        [0, 5, 0, 0, 9, 0, 6, 0, 0],
        [1, 3, 0, 0, 0, 0, 2, 5, 0],
        [0, 0, 0, 0, 0, 0, 0, 7, 4],
        [0, 0, 5, 2, 0, 6, 3, 0, 0],
    ]);
    assert!(gameboard.backtracking_solver());
    let raw = gameboard.as_raw();
    for r1 in 0..9 {
        for c1 in 0..9 {
            for r2 in 0..9 {
                for c2 in 0..9 {
                    if (r1, c1) == (r2, c2) {
                        continue;
                    }
                    let peers =
                        r1 == r2 || c1 == c2 || (r1 / 3 == r2 / 3 && c1 / 3 == c2 / 3);
                    if peers {
                        assert_ne!(raw[r1][c1], raw[r2][c2]);
                    }
                }
            }
        }
    }
}

#[test]
fn authoring_places_and_clears_givens() {
    let mut gameboard = GameBoard::default();
    gameboard.set_cell(Vec2D::new(1, 2), 5);
    assert_eq!(gameboard.as_raw()[1][2], 5);
    gameboard.set_cell(Vec2D::new(1, 2), 0);
    assert_eq!(gameboard.as_raw()[1][2], 0);
}
