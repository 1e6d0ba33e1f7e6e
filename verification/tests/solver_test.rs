use sudoku::board::Board;
use sudoku::run;
use sudoku::solvers::LeastoptionsFirstSolver;
use sudoku::solvers::PrimitiveSolver;
use sudoku::solvers::SolveSudoku;

#[test]
fn test_lrv_solves_default_puzzle() {
    let mut board = Board::new(None);
    let solver = LeastoptionsFirstSolver;
    assert_eq!(solver.solve(&mut board), true);
    assert_eq!(board.is_valid(), true);
    assert_eq!(
        board.get_row(0),
        ['5', '3', '4', '6', '7', '8', '9', '1', '2']
    );
    assert_eq!(
        board.get_row(8),
        ['3', '4', '5', '2', '8', '6', '1', '7', '9']
    );
}

#[test]
fn test_primitive_stalls_on_default_puzzle() {
    // The single-pass strategy writes the last candidate it examines
    // for each blank cell and never revisits, so it fails here.
    let mut board = Board::new(None);
    let solver = PrimitiveSolver;
    assert_eq!(solver.solve(&mut board), false);
    assert_eq!(board.is_valid(), false);
}

#[test]
fn test_run_reports_solver_result() {
    let mut board = Board::new(None);
    let solver = LeastoptionsFirstSolver;
    assert_eq!(run(&mut board, &solver), true);
    assert_eq!(board.is_valid(), true);
}

#[test]
fn test_reset_then_retry_other_strategy() {
    let mut board = Board::new(None);
    let first = PrimitiveSolver;
    assert_eq!(first.solve(&mut board), false);
    board.reset();
    assert_eq!(board.get_row(0), ['5', '3', '.', '.', '7', '.', '.', '.', '.']);
    let second = LeastoptionsFirstSolver;
    assert_eq!(second.solve(&mut board), true);
}

#[test]
fn test_solvers_never_touch_givens() {
    let mut board = Board::new(None);
    let solver = LeastoptionsFirstSolver;
    solver.solve(&mut board);
    let originals = [
        (0usize, 0usize, '5'),
        (0, 1, '3'),
        (1, 3, '1'),
        (4, 0, '4'),
        (8, 7, '7'),
        (8, 8, '9'),
    ];
    for (r, c, v) in originals {
        assert_eq!(board.get(r, c), v);
    }
}

#[test]
fn test_lrv_stalls_on_hard_puzzle() {
    // This puzzle needs search: the greedy strategy reaches a dead end,
    // stops without backtracking and reports failure.
    let hard: [[char; 9]; 9] = [
        ['8', '.', '.', '.', '.', '.', '.', '.', '.'],
        ['.', '.', '3', '6', '.', '.', '.', '.', '.'],
        ['.', '7', '.', '.', '9', '.', '2', '.', '.'],
        ['.', '5', '.', '.', '.', '7', '.', '.', '.'],
        ['.', '.', '.', '.', '4', '5', '7', '.', '.'],
        ['.', '.', '.', '1', '.', '.', '.', '3', '.'],
        ['.', '.', '1', '.', '.', '.', '.', '6', '8'],
        ['.', '.', '8', '5', '.', '.', '.', '1', '.'],
        ['.', '9', '.', '.', '.', '.', '4', '.', '.'],
    ];
    let mut board = Board::new(Some(hard));
    let solver = LeastoptionsFirstSolver;
    assert_eq!(solver.solve(&mut board), false);
    assert_eq!(board.is_valid(), false);
    // The givens are untouched even after a failed attempt.
    assert_eq!(board.get(0, 0), '8');
    assert_eq!(board.get(8, 6), '4');
}

#[test]
fn test_lrv_on_already_full_board() {
    // No blank cell means no possibility entries: the loop ends at
    // once and the verdict is the validity check alone.
    let solved: [[char; 9]; 9] = [
        ['5', '3', '4', '6', '7', '8', '9', '1', '2'],
        ['6', '7', '2', '1', '9', '5', '3', '4', '8'],
        ['1', '9', '8', '3', '4', '2', '5', '6', '7'],
        ['8', '5', '9', '7', '6', '1', '4', '2', '3'],
        ['4', '2', '6', '8', '5', '3', '7', '9', '1'],
        ['7', '1', '3', '9', '2', '4', '8', '5', '6'],
        ['9', '6', '1', '5', '3', '7', '2', '8', '4'],
        ['2', '8', '7', '4', '1', '9', '6', '3', '5'],
        ['3', '4', '5', '2', '8', '6', '1', '7', '9'],
    ];
    let mut board = Board::new(Some(solved));
    let solver = LeastoptionsFirstSolver;
    assert_eq!(solver.solve(&mut board), true);
}
