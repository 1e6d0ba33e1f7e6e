use sudoku::board::Board;

const ORIG_BOARD: [[char; 9]; 9] = [
    ['5', '3', '.', '.', '7', '.', '.', '.', '.'],
    ['6', '.', '.', '1', '9', '5', '.', '.', '.'],
    ['.', '9', '8', '.', '.', '.', '.', '6', '.'],
    ['8', '.', '.', '.', '6', '.', '.', '.', '3'],
    ['4', '.', '.', '8', '.', '3', '.', '.', '1'],
    ['7', '.', '.', '.', '2', '.', '.', '.', '6'],
    ['.', '6', '.', '.', '.', '.', '2', '8', '.'],
    ['.', '.', '.', '4', '1', '9', '.', '.', '5'],
    ['.', '.', '.', '.', '8', '.', '.', '7', '9'],
];

fn rows_of(board: &Board) -> [[char; 9]; 9] {
    let mut rows = [['.'; 9]; 9];
    for (i, row) in rows.iter_mut().enumerate() {
        *row = board.get_row(i);
    }
    rows
}

#[test]
fn new_board() {
    assert_eq!(rows_of(&Board::new(None)), ORIG_BOARD);
}

#[test]
fn test_reset() {
    let mut board = Board::new(None);
    board.update_val(0, 2, '1');
    board.reset();
    assert_eq!(rows_of(&board), ORIG_BOARD);
}

#[test]
fn test_update_false() {
    let mut board = Board::new(None);
    // There is already a value at 0,0
    assert_eq!(board.update_val(0, 2, '1'), true);
    assert_eq!(board.get(0, 2), '1');
}

#[test]
fn test_update_true() {
    let mut board = Board::new(None);
    // There is already a value at 0,0
    assert_eq!(board.update_val(0, 0, '1'), false);
}

#[test]
fn test_getrow() {
    let board = Board::new(None);
    // There is already a value at 0,0
    assert_eq!(
        board.get_row(0),
        ['5', '3', '.', '.', '7', '.', '.', '.', '.']
    );
}

#[test]
fn test_getcol() {
    let board = Board::new(None);
    // There is already a value at 0,0
    assert_eq!(
        board.get_col(0),
        ['5', '6', '.', '8', '4', '7', '.', '.', '.']
    );
}

#[test]
fn test_get_3x3_grid() {
    let board = Board::new(None);
    assert_eq!(
        board.get_grid((0, 0)),
        ['5', '3', '.', '6', '.', '.', '.', '9', '8']
    );

    assert_eq!(
        board.get_grid((2, 2)),
        ['2', '8', '.', '.', '.', '5', '.', '7', '9']
    );
}

#[test]
fn test_get_row_col_grid() {
    let board = Board::new(None);
    let (row, col, grid) = board.get_row_col_grid(8, 8);

    assert_eq!(row, ['.', '.', '.', '.', '8', '.', '.', '7', '9']);
    assert_eq!(col, ['.', '.', '.', '3', '1', '6', '.', '5', '9']);
    assert_eq!(grid, ['2', '8', '.', '.', '.', '5', '.', '7', '9']);
}

#[test]
fn test_valid_1() {
    let valid_board: [[char; 9]; 9] = [
        ['5', '3', '4', '6', '7', '8', '9', '1', '2'],
        ['6', '7', '2', '1', '9', '5', '3', '4', '8'],
        ['1', '9', '8', '3', '4', '2', '5', '6', '7'],
        ['8', '5', '9', '7', '6', '1', '4', '2', '3'],
        ['4', '2', '6', '8', '5', '3', '7', '9', '1'],
        ['7', '1', '3', '9', '2', '4', '8', '5', '6'],
        ['9', '6', '1', '5', '3', '7', '2', '8', '4'],
        ['2', '8', '7', '4', '1', '9', '6', '3', '5'],
        ['3', '4', '5', '2', '8', '6', '1', '7', '9'],
    ];

    let board = Board::new(Some(valid_board));
    // There is already a value at 0,0
    assert_eq!(board.is_valid(), true);
}

#[test]
fn test_invalid_1() {
    let valid_board: [[char; 9]; 9] = [
        ['5', '3', '4', '6', '7', '8', '9', '1', '2'],
        ['6', '7', '2', '1', '9', '5', '3', '4', '8'],
        ['1', '9', '8', '3', '4', '2', '5', '6', '7'],
        ['8', '5', '9', '7', '6', '1', '4', '2', '3'],
        ['4', '2', '6', '8', '5', '3', '7', '9', '1'],
        ['7', '1', '3', '9', '2', '4', '8', '5', '6'],
        ['9', '6', '1', '5', '3', '7', '2', '8', '4'],
        ['2', '8', '7', '4', '1', '9', '6', '3', '5'],
        ['3', '4', '5', '2', '8', '6', '1', '7', 'X'],
    ];

    let board = Board::new(Some(valid_board));
    // There is already a value at 0,0
    assert_eq!(board.is_valid(), false);
}

#[test]
fn test_invalid_2() {
    let valid_board: [[char; 9]; 9] = [
        ['5', '3', '4', '6', '7', '8', '9', '1', '9'],
        ['6', '7', '2', '1', '9', '5', '3', '4', '8'],
        ['1', '9', '8', '3', '4', '2', '5', '6', '7'],
        ['8', '5', '9', '7', '6', '1', '4', '2', '3'],
        ['4', '2', '6', '8', '5', '3', '7', '9', '1'],
        ['7', '1', '3', '9', '2', '4', '8', '5', '6'],
        ['9', '6', '1', '5', '3', '7', '2', '8', '4'],
        ['2', '8', '7', '4', '1', '9', '6', '3', '5'],
        ['3', '4', '5', '2', '8', '6', '1', '7', '9'],
    ];

    let board = Board::new(Some(valid_board));
    // There is already a value at 0,0
    assert_eq!(board.is_valid(), false);
}

#[test]
fn test_update_ignores_local_legality() {
    let mut board = Board::new(None);
    // '5' already sits in row 0, but the board does not police legality
    // on writes: only givens are protected.
    assert_eq!(board.update_val(0, 2, '5'), true);
    assert_eq!(board.get(0, 2), '5');
}

#[test]
fn test_queries_are_pure() {
    let board = Board::new(None);
    assert_eq!(board.get_row(4), board.get_row(4));
    assert_eq!(board.get_col(7), board.get_col(7));
    assert_eq!(board.get_grid((1, 2)), board.get_grid((1, 2)));
    let first = board.get_row_col_grid(3, 5);
    let second = board.get_row_col_grid(3, 5);
    assert_eq!(first, second);
}

#[test]
fn test_default_board_not_valid() {
    // A partially blank board never passes the check: blanks keep a
    // group from containing every digit.
    let board = Board::new(None);
    assert_eq!(board.is_valid(), false);
}

#[test]
fn test_solved_board_with_duplicate_in_last_cell() {
    // Identical to a solved grid except the last cell, which now
    // duplicates the '1' already in its box.
    let almost: [[char; 9]; 9] = [
        ['5', '3', '4', '6', '7', '8', '9', '1', '2'],
        ['6', '7', '2', '1', '9', '5', '3', '4', '8'],
        ['1', '9', '8', '3', '4', '2', '5', '6', '7'],
        ['8', '5', '9', '7', '6', '1', '4', '2', '3'],
        ['4', '2', '6', '8', '5', '3', '7', '9', '1'],
        ['7', '1', '3', '9', '2', '4', '8', '5', '6'],
        ['9', '6', '1', '5', '3', '7', '2', '8', '4'],
        ['2', '8', '7', '4', '1', '9', '6', '3', '5'],
        ['3', '4', '5', '2', '8', '6', '1', '7', '1'],
    ];
    let board = Board::new(Some(almost));
    assert_eq!(board.is_valid(), false);
}
