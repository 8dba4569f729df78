use sudoku_solver::board::Cell;
use sudoku_solver::board::GameBoard;
use sudoku_solver::utils::Vec2D;
use sudoku_solver::wave_function_collapse::CellTile;

#[test]
fn vec2d_components_and_projection() {
    let mut pos = Vec2D::new(4, 7);
    assert_eq!(pos.x(), 4);
    assert_eq!(pos.y(), 7);
    assert_eq!(pos.project(9), 4 * 9 + 7);
    *pos.x_mut() = 2;
    *pos.y_mut() = 3;
    assert_eq!(pos.x(), 2);
    assert_eq!(pos.y(), 3);
    assert_eq!(pos.project(9), 2 * 9 + 3);
}

#[test]
fn vec2d_arithmetic() {
    let pos = Vec2D::new(4, 7);
    assert_eq!(pos.plus(Vec2D::new(2, 1)), Vec2D::new(6, 8));
    assert_eq!(pos.times(3), Vec2D::new(12, 21));
    assert_eq!(pos.divided_by(3), Vec2D::new(1, 2));
    assert_eq!(pos.divided_by(3).times(3), Vec2D::new(3, 6));
}

#[test]
fn cell_value_and_authoring() {
    assert_eq!(Cell::as_given(0), Cell::Empty);
    assert_eq!(Cell::as_given(5), Cell::Given(5));
    assert_eq!(Cell::Empty.value(), 0);
    assert_eq!(Cell::Given(3).value(), 3);
    assert_eq!(Cell::Guess(8).value(), 8);
}

#[test]
fn board_sizes_and_cells() {
    let mut board = GameBoard::create_empty(3);
    assert_eq!(board.board_size(), 9);
    assert_eq!(board.cell_at(Vec2D::new(4, 4)), Cell::Empty);
    board.set_cell(Vec2D::new(4, 4), Cell::as_given(6));
    assert_eq!(board.cell_at(Vec2D::new(4, 4)), Cell::Given(6));

    let small = GameBoard::create_empty(2);
    assert_eq!(small.board_size(), 4);
}

#[test]
fn box_positions_cover_the_sub_box() {
    let board = GameBoard::create_empty(3);
    assert_eq!(board.box_position(Vec2D::new(4, 7)), Vec2D::new(3, 6));
    let cells = board.box_cell_positions(Vec2D::new(4, 7));
    assert_eq!(cells.len(), 9);
    for r in 3..6 {
        for c in 6..9 {
            assert!(cells.contains(&Vec2D::new(r, c)));
        }
    }
}

#[test]
fn cell_tiles_compare_by_count_only() {
    // candidate sets are ranked and compared by cardinality alone: which
    // values remain plays no part
    assert!(CellTile(vec![1, 2, 3]) == CellTile(vec![7, 8, 9]));
    assert!(CellTile(vec![1, 2]) != CellTile(vec![1, 2, 3]));
    assert_eq!(CellTile(vec![4, 5]).len(), 2);
}
