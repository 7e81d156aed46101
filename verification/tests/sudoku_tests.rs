use sudoku::sudoku::{Sudoku, SudokuError};

/// The canonical example puzzle, row-major; 0 is a blank cell.
fn canonical_puzzle() -> [u8; 81] {
    [
        5, 3, 0, 0, 7, 0, 0, 0, 0, //
        6, 0, 0, 1, 9, 5, 0, 0, 0, //
        0, 9, 8, 0, 0, 0, 0, 6, 0, //
        8, 0, 0, 0, 6, 0, 0, 0, 3, //
        4, 0, 0, 8, 0, 3, 0, 0, 1, //
        7, 0, 0, 0, 2, 0, 0, 0, 6, //
        0, 6, 0, 0, 0, 0, 2, 8, 0, //
        0, 0, 0, 4, 1, 9, 0, 0, 5, //
        0, 0, 0, 0, 8, 0, 0, 7, 9,
    ]
}

/// The unique completion of the canonical example puzzle.
fn canonical_solution() -> [u8; 81] {
    [
        5, 3, 4, 6, 7, 8, 9, 1, 2, //
        6, 7, 2, 1, 9, 5, 3, 4, 8, //
        1, 9, 8, 3, 4, 2, 5, 6, 7, //
        8, 5, 9, 7, 6, 1, 4, 2, 3, //
        4, 2, 6, 8, 5, 3, 7, 9, 1, //
        7, 1, 3, 9, 2, 4, 8, 5, 6, //
        9, 6, 1, 5, 3, 7, 2, 8, 4, //
        2, 8, 7, 4, 1, 9, 6, 3, 5, //
        3, 4, 5, 2, 8, 6, 1, 7, 9,
    ]
}

fn to_nested(flat: &[u8; 81]) -> [[u8; 9]; 9] {
    let mut nested = [[0u8; 9]; 9];
    for r in 0..9 {
        for c in 0..9 {
            nested[r][c] = flat[r * 9 + c];
        }
    }
    nested
}

/// True iff every cell holds 1..=9 and no row, column or 3x3 box repeats a
/// digit.
fn is_valid_solution(g: &[u8; 81]) -> bool {
    for i in 0..81 {
        if g[i] < 1 || g[i] > 9 {
            return false;
        }
    }
    for i in 0..81 {
        for j in 0..81 {
            if i != j {
                let (ri, ci) = (i / 9, i % 9);
                let (rj, cj) = (j / 9, j % 9);
                let same_row = ri == rj;
                let same_col = ci == cj;
                let same_box = ri / 3 == rj / 3 && ci / 3 == cj / 3;
                if (same_row || same_col || same_box) && g[i] == g[j] {
                    return false;
                }
            }
        }
    }
    true
}

#[test]
fn empty_grid_is_all_zeros() {
    let s = Sudoku::create_empty();
    assert_eq!(s.grid(), [0u8; 81]);
    assert!(!s.is_solved());
}

#[test]
fn default_is_empty() {
    let s: Sudoku = Default::default();
    assert_eq!(s.grid(), [0u8; 81]);
    assert!(!s.is_solved());
}

#[test]
fn flat_construction_keeps_cells() {
    let s = Sudoku::create_from_flat(canonical_puzzle()).unwrap();
    assert_eq!(s.grid(), canonical_puzzle());
    assert!(!s.is_solved());
}

#[test]
fn round_trip_flatten() {
    let flat = canonical_puzzle();
    let nested = to_nested(&flat);
    let from_nested = Sudoku::create_from_nested(nested).unwrap();
    let from_flat = Sudoku::create_from_flat(flat).unwrap();
    assert_eq!(from_nested.grid(), from_flat.grid());
    assert!(from_nested.matches_flat(&from_flat.grid()));
}

#[test]
fn validation_accepts_all_in_range() {
    let mut flat = [9u8; 81];
    flat[13] = 0;
    assert!(Sudoku::create_from_flat(flat).is_ok());
}

#[test]
fn validation_rejects_one_cell_of_ten() {
    let mut flat = canonical_puzzle();
    flat[40] = 10;
    assert_eq!(
        Sudoku::create_from_flat(flat).unwrap_err(),
        SudokuError::InvalidCell
    );
}

#[test]
fn validation_rejects_ten_in_nested() {
    let mut nested = to_nested(&canonical_puzzle());
    nested[4][4] = 10;
    assert_eq!(
        Sudoku::create_from_nested(nested).unwrap_err(),
        SudokuError::InvalidCell
    );
}

#[test]
fn solve_is_idempotent_on_solved_grid() {
    let mut s = Sudoku::create_from_flat(canonical_puzzle()).unwrap();
    s.solve();
    assert!(s.is_solved());
    let once = s.grid();
    s.solve();
    assert!(s.is_solved());
    assert_eq!(s.grid(), once);
}

#[test]
fn solve_fills_the_empty_grid() {
    let mut s = Sudoku::create_empty();
    s.solve();
    assert!(s.is_solved());
    let g = s.grid();
    assert!(g.iter().all(|&v| (1..=9).contains(&v)));
    assert!(is_valid_solution(&g));
}

#[test]
fn solve_preserves_given_digits() {
    let puzzle = canonical_puzzle();
    let mut s = Sudoku::create_from_flat(puzzle).unwrap();
    s.solve();
    let g = s.grid();
    for i in 0..81 {
        if puzzle[i] != 0 {
            assert_eq!(g[i], puzzle[i]);
        }
    }
}

#[test]
fn unsolvable_grid_is_left_unchanged() {
    // A full valid solution, spoiled: cell 1 also holds 5 (so row 0 holds two
    // 5s), and the cell at row 3, column 1 — whose only fitting digit was 5 —
    // is blanked. The 5 already in column 1 blocks it, so no candidate fits
    // and the search exhausts at once.
    let mut flat = canonical_solution();
    flat[1] = 5;
    flat[3 * 9 + 1] = 0;
    let mut s = Sudoku::create_from_flat(flat).unwrap();
    s.solve();
    assert!(!s.is_solved());
    assert_eq!(s.grid(), flat);
}

#[test]
fn conflicting_givens_are_never_rechecked() {
    // A full valid solution, spoiled the same way, but with a blank whose
    // digit is still placeable: the search fills it and reports the grid
    // solved even though the two given 5s in row 0 still conflict.
    let mut flat = canonical_solution();
    flat[1] = 5;
    flat[2] = 0;
    let mut s = Sudoku::create_from_flat(flat).unwrap();
    s.solve();
    assert!(s.is_solved());
    let g = s.grid();
    assert_eq!(g[0], 5);
    assert_eq!(g[1], 5);
    assert_eq!(g[2], 4);
}

#[test]
fn solves_the_canonical_puzzle() {
    let mut s = Sudoku::create_from_flat(canonical_puzzle()).unwrap();
    s.solve();
    assert!(s.is_solved());
    let g = s.grid();
    assert!(g.iter().all(|&v| v != 0));
    assert!(is_valid_solution(&g));
    assert_eq!(g, canonical_solution());
}

#[test]
fn matches_flat_agrees_cell_for_cell() {
    let s = Sudoku::create_from_flat(canonical_puzzle()).unwrap();
    assert!(s.matches_flat(&canonical_puzzle()));
    let mut other = canonical_puzzle();
    other[80] = 1;
    assert!(!s.matches_flat(&other));
}

#[test]
fn matches_nested_agrees_cell_for_cell() {
    let s = Sudoku::create_from_flat(canonical_puzzle()).unwrap();
    assert!(s.matches_nested(&to_nested(&canonical_puzzle())));
    let mut other = to_nested(&canonical_puzzle());
    other[8][8] = 1;
    assert!(!s.matches_nested(&other));
}

#[test]
fn renders_blanks_as_underscores() {
    let s = Sudoku::create_empty();
    let line = "_ _ _ _ _ _ _ _ _\n";
    assert_eq!(s.render(), line.repeat(9));
}

#[test]
fn renders_digits_and_blanks() {
    let s = Sudoku::create_from_flat(canonical_puzzle()).unwrap();
    let rendered = s.render();
    let first_line = rendered.lines().next().unwrap();
    assert_eq!(first_line, "5 3 _ _ 7 _ _ _ _");
    assert_eq!(rendered.lines().count(), 9);
    assert!(rendered.ends_with('\n'));
}
