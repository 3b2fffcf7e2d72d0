use sudoku::sudoku_board::SudokuBoard;
use sudoku::sudoku_solver::BacktrackingSolver;

// A solvable configuration for use in tests.
fn solvable_config() -> [[u8; 9]; 9] {
    [
        [0, 0, 6, 0, 4, 0, 0, 9, 7],
        [0, 4, 0, 7, 3, 0, 0, 1, 0],
        [0, 1, 7, 0, 9, 2, 0, 3, 0],
        [6, 0, 0, 0, 7, 0, 0, 8, 0],
        [1, 0, 5, 0, 6, 0, 9, 0, 3],
        [0, 2, 0, 0, 1, 0, 0, 0, 6],
        [0, 5, 0, 9, 8, 0, 1, 6, 0],
        [0, 9, 0, 0, 5, 6, 0, 7, 0],
        [8, 6, 0, 0, 2, 0, 3, 0, 0],
    ]
}

// An unsolvable but valid configuration.
fn unsolvable_config() -> [[u8; 9]; 9] {
    [
        [1, 2, 3, 4, 5, 6, 7, 8, 0],
        [0, 0, 0, 0, 0, 0, 0, 0, 9], // The 9 here makes it impossible to place a 9 in the first row
        [0, 0, 0, 0, 0, 0, 0, 0, 0],
        [0, 0, 0, 0, 0, 0, 0, 0, 0],
        [0, 0, 0, 0, 0, 0, 0, 0, 0],
        [0, 0, 0, 0, 0, 0, 0, 0, 0],
        [0, 0, 0, 0, 0, 0, 0, 0, 0],
        [0, 0, 0, 0, 0, 0, 0, 0, 0],
        [0, 0, 0, 0, 0, 0, 0, 0, 0],
    ]
}

#[test]
fn test_backtrack_solver_success() {
    let board = SudokuBoard::from(solvable_config()).unwrap();
    assert!(BacktrackingSolver::run(&board).is_some());
}

#[test]
fn test_backtrack_solver_fail() {
    let board: SudokuBoard = SudokuBoard::from(unsolvable_config()).unwrap();
    assert!(BacktrackingSolver::run(&board).is_none());
}
