use sudoku::board::Board;
use sudoku::constraints::ConstraintSet;
use sudoku::solver::NoSolutionError;
use sudoku::solver::is_consistent;
use sudoku::solver::solve;

fn board_from(rows: [[u8; 9]; 9]) -> Board {
    let mut cells: Vec<u8> = Vec::new();
    for r in 0..9 {
        for c in 0..9 {
            cells.push(rows[r][c]);
        }
    }
    Board::from_cells(cells).unwrap()
}

fn assert_valid_solution(sol: &Board) {
    assert!(sol.is_filled());
    assert!(is_consistent(sol));
}

/// A fully filled valid grid: row r is the cyclic sequence starting at
/// 1 + 3*r + r/3 (the standard shifted pattern).
fn complete_grid() -> [[u8; 9]; 9] {
    let mut rows = [[0u8; 9]; 9];
    for r in 0..9 {
        for c in 0..9 {
            rows[r][c] = ((3 * r + r / 3 + c) % 9 + 1) as u8;
        }
    }
    rows
}

const PUZZLE: [[u8; 9]; 9] = [
    [5, 3, 0, 0, 7, 0, 0, 0, 0],
    [6, 0, 0, 1, 9, 5, 0, 0, 0],
    [0, 9, 8, 0, 0, 0, 0, 6, 0],
    [8, 0, 0, 0, 6, 0, 0, 0, 3],
    [4, 0, 0, 8, 0, 3, 0, 0, 1],
    [7, 0, 0, 0, 2, 0, 0, 0, 6],
    [0, 6, 0, 0, 0, 0, 2, 8, 0],
    [0, 0, 0, 4, 1, 9, 0, 0, 5],
    [0, 0, 0, 0, 8, 0, 0, 7, 9],
];

const PUZZLE_SOLUTION: [[u8; 9]; 9] = [
    [5, 3, 4, 6, 7, 8, 9, 1, 2],
    [6, 7, 2, 1, 9, 5, 3, 4, 8],
    [1, 9, 8, 3, 4, 2, 5, 6, 7],
    [8, 5, 9, 7, 6, 1, 4, 2, 3],
    [4, 2, 6, 8, 5, 3, 7, 9, 1],
    [7, 1, 3, 9, 2, 4, 8, 5, 6],
    [9, 6, 1, 5, 3, 7, 2, 8, 4],
    [2, 8, 7, 4, 1, 9, 6, 3, 5],
    [3, 4, 5, 2, 8, 6, 1, 7, 9],
];

#[test]
fn solves_known_puzzle_exactly() {
    let sol = solve(board_from(PUZZLE)).unwrap();
    for r in 0..9 {
        for c in 0..9 {
            assert_eq!(sol.get(r, c), PUZZLE_SOLUTION[r][c]);
        }
    }
}

#[test]
fn solution_is_valid_and_keeps_clues() {
    let sol = solve(board_from(PUZZLE)).unwrap();
    assert_valid_solution(&sol);
    for r in 0..9 {
        for c in 0..9 {
            if PUZZLE[r][c] != 0 {
                assert_eq!(sol.get(r, c), PUZZLE[r][c]);
            }
        }
    }
}

#[test]
fn empty_board_solves_to_valid_grid() {
    let sol = solve(Board::new()).unwrap();
    assert_valid_solution(&sol);
}

#[test]
fn solve_is_deterministic() {
    let first = solve(board_from(PUZZLE));
    let second = solve(board_from(PUZZLE));
    assert_eq!(first, second);
    let third = solve(Board::new());
    let fourth = solve(Board::new());
    assert_eq!(third, fourth);
}

#[test]
fn row_duplicate_has_no_solution() {
    let mut rows = [[0u8; 9]; 9];
    rows[0][0] = 5;
    rows[0][1] = 5;
    assert_eq!(solve(board_from(rows)), Err(NoSolutionError));
}

#[test]
fn column_duplicate_has_no_solution() {
    let mut rows = [[0u8; 9]; 9];
    rows[2][4] = 3;
    rows[7][4] = 3;
    assert_eq!(solve(board_from(rows)), Err(NoSolutionError));
}

#[test]
fn box_duplicate_has_no_solution() {
    let mut rows = [[0u8; 9]; 9];
    rows[0][0] = 8;
    rows[2][2] = 8;
    assert_eq!(solve(board_from(rows)), Err(NoSolutionError));
}

#[test]
fn consistent_but_unsolvable_fails() {
    // Row 0 holds 1..=8 and its last cell is empty; the 9 below it blocks
    // the only digit that could complete the row.
    let mut rows = [[0u8; 9]; 9];
    for c in 0..8 {
        rows[0][c] = (c + 1) as u8;
    }
    rows[1][8] = 9;
    let b = board_from(rows);
    assert!(is_consistent(&b));
    assert_eq!(solve(b), Err(NoSolutionError));
}

#[test]
fn already_complete_grid_is_returned_unchanged() {
    let rows = complete_grid();
    let input = board_from(rows);
    let sol = solve(board_from(rows)).unwrap();
    assert_eq!(sol, input);
}

#[test]
fn single_empty_cell_gets_its_only_legal_digit() {
    let mut rows = complete_grid();
    let missing = rows[0][6];
    assert_eq!(missing, 7);
    rows[0][6] = 0;
    let sol = solve(board_from(rows)).unwrap();
    assert_eq!(sol.get(0, 6), 7);
    for r in 0..9 {
        for c in 0..9 {
            if !(r == 0 && c == 6) {
                assert_eq!(sol.get(r, c), rows[r][c]);
            }
        }
    }
}

#[test]
fn from_cells_rejects_wrong_length() {
    assert!(Board::from_cells(vec![0u8; 80]).is_none());
    assert!(Board::from_cells(vec![0u8; 82]).is_none());
    assert!(Board::from_cells(Vec::new()).is_none());
}

#[test]
fn from_cells_rejects_out_of_range_value() {
    let mut cells = vec![0u8; 81];
    cells[40] = 10;
    assert!(Board::from_cells(cells).is_none());
    assert!(Board::from_cells(vec![9u8; 81]).is_some());
}

#[test]
fn board_accessors_round_trip() {
    let mut b = Board::new();
    assert_eq!(b.get(4, 7), 0);
    b.set_cell(4, 7, 6);
    assert_eq!(b.get(4, 7), 6);
    assert_eq!(b.get(4, 6), 0);
    b.set_cell(4, 7, 0);
    assert_eq!(b.get(4, 7), 0);
}

#[test]
fn masks_track_row_column_and_box() {
    let mut rows = [[0u8; 9]; 9];
    rows[0][0] = 5;
    rows[4][4] = 2;
    let b = board_from(rows);
    let cs = ConstraintSet::build(&b).unwrap();
    // 5 is blocked in row 0, column 0 and the top-left box.
    assert!(!cs.is_legal(0, 8, 5));
    assert!(!cs.is_legal(8, 0, 5));
    assert!(!cs.is_legal(2, 2, 5));
    // but not elsewhere, and other digits stay legal.
    assert!(cs.is_legal(3, 3, 5));
    assert!(cs.is_legal(0, 8, 6));
    // 2 is blocked in the middle row, column and box.
    assert!(!cs.is_legal(4, 0, 2));
    assert!(!cs.is_legal(0, 4, 2));
    assert!(!cs.is_legal(3, 5, 2));
    assert!(cs.is_legal(0, 0, 2));
}

#[test]
fn count_legal_counts_blocked_digits() {
    let mut rows = [[0u8; 9]; 9];
    rows[0][1] = 1;
    rows[0][2] = 2;
    rows[1][0] = 3;
    rows[2][1] = 4;
    let b = board_from(rows);
    let cs = ConstraintSet::build(&b).unwrap();
    // At (0,0) the digits 1, 2, 3 and 4 are blocked, leaving five.
    assert_eq!(cs.count_legal(0, 0), 5);
    // An untouched cell far away still has all nine digits.
    assert_eq!(cs.count_legal(6, 6), 9);
}

#[test]
fn build_reports_conflicts() {
    let mut rows = [[0u8; 9]; 9];
    rows[3][3] = 7;
    rows[3][8] = 7;
    assert!(ConstraintSet::build(&board_from(rows)).is_none());
    assert!(!is_consistent(&board_from(rows)));
    rows[3][8] = 6;
    assert!(ConstraintSet::build(&board_from(rows)).is_some());
    assert!(is_consistent(&board_from(rows)));
}
