//! A 9×9 Sudoku grid together with a backtracking solver.
//!
//! The grid is stored as a `[u8; 81]` array in row-major order; `0` marks a
//! blank cell and `1..=9` are placed digits. The solver fills blank cells in
//! ascending index order, trying candidate digits in ascending order, and
//! stops at the first complete assignment it reaches.

use vstd::prelude::*;

verus! {

broadcast use vstd::array::group_array_axioms;

/// Every cell value of the grid lies in `0..=9`.
pub open spec fn grid_values_ok(g: Seq<u8>) -> bool {
    forall|i: int| 0 <= i < 81 ==> g[i] <= 9
}

/// The row (0..9) of the cell with linear index `i`.
pub open spec fn row_of(i: int) -> int {
    i / 9
}

/// The column (0..9) of the cell with linear index `i`.
pub open spec fn col_of(i: int) -> int {
    i % 9
}

/// The 3×3 box (0..9) of the cell with linear index `i`.
pub open spec fn box_of(i: int) -> int {
    (row_of(i) / 3) * 3 + col_of(i) / 3
}

/// Two cell indices share a row, a column, or a 3×3 box.
pub open spec fn same_unit(i: int, j: int) -> bool {
    row_of(i) == row_of(j) || col_of(i) == col_of(j) || box_of(i) == box_of(j)
}

/// No two distinct cells of a shared unit hold the same nonzero digit.
pub open spec fn consistent(g: Seq<u8>) -> bool {
    forall|i: int, j: int|
        0 <= i < 81 && 0 <= j < 81 && i != j && same_unit(i, j) && g[i] != 0 ==> g[i] != g[j]
}

/// Every cell of the grid holds a nonzero digit.
pub open spec fn full(g: Seq<u8>) -> bool {
    forall|i: int| 0 <= i < 81 ==> g[i] != 0
}

/// A complete, consistent assignment: all 81 cells hold digits `1..=9` and no
/// row, column or box repeats a digit.
pub open spec fn solved(g: Seq<u8>) -> bool {
    g.len() == 81 && grid_values_ok(g) && full(g) && consistent(g)
}

/// `s` agrees with `g` on every nonzero (given) cell of `g`.
pub open spec fn extends(s: Seq<u8>, g: Seq<u8>) -> bool {
    forall|i: int| 0 <= i < 81 && g[i] != 0 ==> s[i] == g[i]
}

/// Some solved grid completes `g` while keeping all of its given digits.
pub open spec fn solvable(g: Seq<u8>) -> bool {
    exists|s: Seq<u8>| solved(s) && extends(s, g)
}

/// Digit `n` may be written at cell `idx`: no cell sharing a unit with `idx`
/// already holds `n`.
pub open spec fn can_place(g: Seq<u8>, n: u8, idx: int) -> bool {
    forall|j: int| 0 <= j < 81 && same_unit(idx, j) ==> g[j] != n
}

/// Digit `n` appears nowhere in row `row`.
pub open spec fn row_has_no(g: Seq<u8>, n: u8, row: int) -> bool {
    forall|j: int| 0 <= j < 81 && row_of(j) == row ==> g[j] != n
}

/// Digit `n` appears nowhere in column `col`.
pub open spec fn col_has_no(g: Seq<u8>, n: u8, col: int) -> bool {
    forall|j: int| 0 <= j < 81 && col_of(j) == col ==> g[j] != n
}

/// Digit `n` appears nowhere in the 3×3 box numbered `b`.
pub open spec fn box_has_no(g: Seq<u8>, n: u8, b: int) -> bool {
    forall|j: int| 0 <= j < 81 && box_of(j) == b ==> g[j] != n
}

/// Writing a placeable digit into a blank cell keeps the grid consistent.
proof fn lemma_place_preserves_consistent(g: Seq<u8>, idx: int, n: u8)
    requires
        g.len() == 81,
        0 <= idx < 81,
        g[idx] == 0,
        1 <= n <= 9,
        consistent(g),
        can_place(g, n, idx),
    ensures
        consistent(g.update(idx, n)),
{
    let g2 = g.update(idx, n);
    assert forall|i: int, j: int|
        0 <= i < 81 && 0 <= j < 81 && i != j && same_unit(i, j) && g2[i] != 0 implies g2[i]
        != g2[j] by {
        if i == idx {
            assert(same_unit(idx, j));
            assert(g2[j] == g[j]);
        } else if j == idx {
            assert(same_unit(idx, i));
            assert(g2[i] == g[i]);
        } else {
            assert(g2[i] == g[i] && g2[j] == g[j]);
        }
    }
}

/// Every cell of a 9×9 nested grid lies in `0..=9`.
pub open spec fn nested_values_ok(rows: [[u8; 9]; 9]) -> bool {
    forall|r: int, c: int| 0 <= r < 9 && 0 <= c < 9 ==> rows@[r]@[c] <= 9
}

/// The row-major flattening of a 9×9 nested grid: row `r`, column `c` lands
/// at linear index `r*9 + c`.
pub open spec fn flatten_row_major(rows: [[u8; 9]; 9]) -> Seq<u8> {
    Seq::new(81, |i: int| rows@[i / 9]@[i % 9])
}

/// Law: a 9×9 nested grid passes validation exactly when its row-major
/// flattening does. Together with the constructors' contracts — building
/// from a nested grid yields `flatten_row_major` of it, building from a flat
/// array yields that array's cells — the two construction paths agree
/// cell-for-cell on every input.
pub proof fn lemma_flatten_round_trip(rows: [[u8; 9]; 9])
    ensures
        nested_values_ok(rows) <==> grid_values_ok(flatten_row_major(rows)),
{
    let flat = flatten_row_major(rows);
    if nested_values_ok(rows) {
        assert forall|i: int| 0 <= i < 81 implies flat[i] <= 9 by {
            assert(0 <= i / 9 < 9 && 0 <= i % 9 < 9);
        }
    }
    if grid_values_ok(flat) {
        assert forall|r: int, c: int| 0 <= r < 9 && 0 <= c < 9 implies rows@[r]@[c] <= 9 by {
            let i = r * 9 + c;
            assert(i / 9 == r && i % 9 == c);
            assert(flat[i] == rows@[r]@[c]);
        }
    }
}

/// The character showing one cell: `_` for a blank, the decimal digit
/// otherwise.
pub open spec fn render_cell(v: u8) -> char {
    if v == 0 {
        '_'
    } else if v == 1 {
        '1'
    } else if v == 2 {
        '2'
    } else if v == 3 {
        '3'
    } else if v == 4 {
        '4'
    } else if v == 5 {
        '5'
    } else if v == 6 {
        '6'
    } else if v == 7 {
        '7'
    } else if v == 8 {
        '8'
    } else {
        '9'
    }
}

/// The character at position `p` of the rendering: each of the nine lines
/// takes 18 characters — nine cells with single spaces between them and a
/// newline at the end.
pub open spec fn render_char_at(g: Seq<u8>, p: int) -> char {
    let o = p % 18;
    if o == 17 {
        '\n'
    } else if o % 2 == 1 {
        ' '
    } else {
        render_cell(g[(p / 18) * 9 + o / 2])
    }
}

/// The full nine-line rendering of a grid, 162 characters.
pub open spec fn render_spec(g: Seq<u8>) -> Seq<char> {
    Seq::new(162, |p: int| render_char_at(g, p))
}

/// Error returned when a supplied grid holds an out-of-range value.
#[derive(Clone, Copy, Debug, PartialEq, Eq, Structural)]
pub enum SudokuError {
    /// Some supplied cell value is greater than 9.
    InvalidCell,
}

/// A sudoku grid: 81 cells in row-major order plus a flag recording whether
/// the last search reached a complete assignment.
#[derive(Clone, Copy, Debug)]
pub struct Sudoku {
    grid: [u8; 81],
    is_solved: bool,
}

impl View for Sudoku {
    type V = Seq<u8>;

    closed spec fn view(&self) -> Seq<u8> {
        self.grid@
    }
}

impl Sudoku {
    /// The solved flag, as contracts speak of it.
    pub closed spec fn solved_flag(&self) -> bool {
        self.is_solved
    }

    /// Well-formedness: cells stay in `0..=9`, and the solved flag is set only
    /// once every cell is filled.
    pub open spec fn wf(&self) -> bool {
        &&& self@.len() == 81
        &&& grid_values_ok(self@)
        &&& (self.solved_flag() ==> full(self@))
    }

    /// Returns an all-blank, unsolved grid.
    pub fn create_empty() -> (s: Sudoku)
        ensures
            s.wf(),
            s@.len() == 81,
            forall|i: int| 0 <= i < 81 ==> s@[i] == 0,
            !s.solved_flag(),
    {
        Sudoku { grid: [0; 81], is_solved: false }
    }

    /// Builds a grid from a flat 81-cell array, rejecting any value above 9.
    /// Succeeds exactly when every supplied cell is at most 9.
    pub fn create_from_flat(grid: [u8; 81]) -> (r: Result<Sudoku, SudokuError>)
        ensures
            match r {
                Ok(s) => grid_values_ok(grid@) && s@ == grid@ && s.wf() && !s.solved_flag(),
                Err(e) => !grid_values_ok(grid@) && e == SudokuError::InvalidCell,
            },
    {
        let mut i: usize = 0;
        while i < 81
            invariant
                i <= 81,
                forall|k: int| 0 <= k < i ==> grid@[k] <= 9,
            decreases 81 - i,
        {
            if grid[i] > 9 {
                return Err(SudokuError::InvalidCell);
            }
            i += 1;
        }
        Ok(Sudoku { grid, is_solved: false })
    }

    /// Flattens a 9×9 nested grid row-major into a flat 81-cell array.
    fn flatten(input_grid: [[u8; 9]; 9]) -> (flat: [u8; 81])
        ensures
            flat@ == flatten_row_major(input_grid),
    {
        let mut flat: [u8; 81] = [0; 81];
        let mut r: usize = 0;
        while r < 9
            invariant
                r <= 9,
                forall|k: int| 0 <= k < r * 9 ==> flat@[k] == flatten_row_major(input_grid)[k],
            decreases 9 - r,
        {
            let mut c: usize = 0;
            while c < 9
                invariant
                    r < 9,
                    c <= 9,
                    forall|k: int|
                        0 <= k < r * 9 + c ==> flat@[k] == flatten_row_major(input_grid)[k],
                decreases 9 - c,
            {
                flat[r * 9 + c] = input_grid[r][c];
                proof {
                    let k = r * 9 + c;
                    assert(k / 9 == r as int && k % 9 == c as int);
                }
                c += 1;
            }
            r += 1;
        }
        proof {
            assert(flat@ =~= flatten_row_major(input_grid));
        }
        flat
    }

    /// Builds a grid from a 9×9 nested array, flattening row-major and
    /// rejecting any value above 9. Succeeds exactly when every supplied cell
    /// is at most 9.
    pub fn create_from_nested(input_grid: [[u8; 9]; 9]) -> (r: Result<Sudoku, SudokuError>)
        ensures
            match r {
                Ok(s) => {
                    &&& nested_values_ok(input_grid)
                    &&& s@ == flatten_row_major(input_grid)
                    &&& s.wf()
                    &&& !s.solved_flag()
                },
                Err(e) => !nested_values_ok(input_grid) && e == SudokuError::InvalidCell,
            },
    {
        let mut r: usize = 0;
        while r < 9
            invariant
                r <= 9,
                forall|i: int, j: int| 0 <= i < r && 0 <= j < 9 ==> input_grid@[i]@[j] <= 9,
            decreases 9 - r,
        {
            let mut c: usize = 0;
            while c < 9
                invariant
                    r < 9,
                    c <= 9,
                    forall|i: int, j: int| 0 <= i < r && 0 <= j < 9 ==> input_grid@[i]@[j] <= 9,
                    forall|j: int| 0 <= j < c ==> input_grid@[r as int]@[j] <= 9,
                decreases 9 - c,
            {
                if input_grid[r][c] > 9 {
                    return Err(SudokuError::InvalidCell);
                }
                c += 1;
            }
            r += 1;
        }
        let flat = Self::flatten(input_grid);
        proof {
            assert(grid_values_ok(flat@)) by {
                assert forall|i: int| 0 <= i < 81 implies flat@[i] <= 9 by {
                    assert(flat@[i] == input_grid@[i / 9]@[i % 9]);
                }
            }
        }
        Ok(Sudoku { grid: flat, is_solved: false })
    }

    /// Returns a copy of the 81 cells in row-major order.
    pub fn grid(&self) -> (g: [u8; 81])
        ensures
            g@ == self@,
    {
        self.grid
    }

    /// Checks whether `number` may be written somewhere in the given row.
    fn is_row_valid(&self, number: u8, row_index: usize) -> (r: bool)
        requires
            row_index < 9,
        ensures
            r <==> row_has_no(self@, number, row_index as int),
    {
        let row = row_index;
        let mut c: usize = 0;
        while c < 9
            invariant
                c <= 9,
                row < 9,
                row == row_index,
                forall|j: int| row * 9 <= j < row * 9 + c ==> self@[j] != number,
            decreases 9 - c,
        {
            if self.grid[row * 9 + c] == number {
                proof {
                    let idx = row as int * 9 + c as int;
                    assert(self@[idx] == number);
                    assert(row_of(idx) == row as int);
                    assert(!row_has_no(self@, number, row as int));
                }
                return false;
            }
            c += 1;
        }
        proof {
            assert forall|j: int| 0 <= j < 81 && row_of(j) == row implies self@[j] != number by {
                assert(row * 9 <= j < row * 9 + 9);
            }
        }
        true
    }

    /// Checks whether `number` may be written somewhere in the given column.
    fn is_column_valid(&self, number: u8, col_index: usize) -> (r: bool)
        requires
            col_index < 9,
        ensures
            r <==> col_has_no(self@, number, col_index as int),
    {
        let col = col_index;
        let mut row: usize = 0;
        while row < 9
            invariant
                row <= 9,
                col < 9,
                col == col_index,
                forall|j: int| 0 <= j < row * 9 && col_of(j) == col ==> self@[j] != number,
            decreases 9 - row,
        {
            if self.grid[row * 9 + col] == number {
                proof {
                    let idx = row as int * 9 + col as int;
                    assert(self@[idx] == number);
                    assert(col_of(idx) == col as int);
                    assert(!col_has_no(self@, number, col as int));
                }
                return false;
            }
            proof {
                assert forall|j: int|
                    0 <= j < (row + 1) * 9 && col_of(j) == col implies self@[j] != number by {
                    if row * 9 <= j {
                        assert(j == row * 9 + col);
                    }
                }
            }
            row += 1;
        }
        true
    }

    /// Checks whether `number` may be written somewhere in the 3×3 box that
    /// contains column `x`, row `y`.
    fn is_cell_valid(&self, number: u8, x: usize, y: usize) -> (r: bool)
        requires
            x < 9,
            y < 9,
        ensures
            r <==> box_has_no(self@, number, (y as int / 3) * 3 + x as int / 3),
    {
        let base_row = (y / 3) * 3;
        let base_col = (x / 3) * 3;
        let ghost b = (y as int / 3) * 3 + x as int / 3;
        let mut i: usize = 0;
        while i < 3
            invariant
                i <= 3,
                x < 9,
                y < 9,
                base_row == (y as int / 3) * 3,
                base_col == (x as int / 3) * 3,
                b == (y as int / 3) * 3 + x as int / 3,
                forall|m: int|
                    0 <= m < 81 && box_of(m) == b && row_of(m) < base_row + i ==> self@[m]
                        != number,
            decreases 3 - i,
        {
            let mut j: usize = 0;
            while j < 3
                invariant
                    i < 3,
                    j <= 3,
                    x < 9,
                    y < 9,
                    base_row == (y as int / 3) * 3,
                    base_col == (x as int / 3) * 3,
                    b == (y as int / 3) * 3 + x as int / 3,
                    forall|m: int|
                        0 <= m < 81 && box_of(m) == b && row_of(m) < base_row + i ==> self@[m]
                            != number,
                    forall|m: int|
                        0 <= m < 81 && box_of(m) == b && row_of(m) == base_row + i && col_of(m)
                            < base_col + j ==> self@[m] != number,
                decreases 3 - j,
            {
                let cell = (base_row + i) * 9 + base_col + j;
                proof {
                    assert(row_of(cell as int) == base_row + i);
                    assert(col_of(cell as int) == base_col + j);
                    assert(box_of(cell as int) == b);
                }
                if self.grid[cell] == number {
                    return false;
                }
                proof {
                    assert forall|m: int|
                        0 <= m < 81 && box_of(m) == b && row_of(m) == base_row + i && col_of(m)
                            < base_col + j + 1 implies self@[m] != number by {
                        assert(base_col <= col_of(m));
                        if col_of(m) == base_col + j {
                            assert(m == row_of(m) * 9 + col_of(m));
                            assert(m == cell as int);
                        }
                    }
                }
                j += 1;
            }
            proof {
                assert forall|m: int|
                    0 <= m < 81 && box_of(m) == b && row_of(m) < base_row + i + 1 implies self@[m]
                        != number by {
                    if row_of(m) == base_row + i {
                        assert(col_of(m) < base_col + 3);
                    }
                }
            }
            i += 1;
        }
        proof {
            assert forall|m: int| 0 <= m < 81 && box_of(m) == b implies self@[m] != number by {
                assert(row_of(m) < base_row + 3);
            }
        }
        true
    }

    /// Checks whether `number` may be written at column `x`, row `y`: the
    /// combined row, column and box check.
    fn is_valid(&self, number: u8, x: usize, y: usize) -> (r: bool)
        requires
            x < 9,
            y < 9,
        ensures
            r <==> can_place(self@, number, y as int * 9 + x as int),
    {
        let r = self.is_row_valid(number, y) && self.is_column_valid(number, x)
            && self.is_cell_valid(number, x, y);
        proof {
            let idx = y as int * 9 + x as int;
            assert(row_of(idx) == y as int && col_of(idx) == x as int);
            assert(box_of(idx) == (y as int / 3) * 3 + x as int / 3);
        }
        r
    }

    /// Maps a linear cell index to its `(column, row)` pair.
    fn get_coordinates(curr_idx: usize) -> (xy: (usize, usize))
        requires
            curr_idx < 81,
        ensures
            xy.0 == col_of(curr_idx as int),
            xy.1 == row_of(curr_idx as int),
            xy.0 < 9,
            xy.1 < 9,
            xy.1 as int * 9 + xy.0 as int == curr_idx,
    {
        (curr_idx % 9, curr_idx / 9)
    }

    /// Recursively solves the sudoku through backtracking, starting from the
    /// given index. Cells below `curr_idx` must already be filled. On success
    /// the solved flag is set and the grid is completely filled; on failure
    /// the grid is restored to its state at the call. If the grid's given
    /// digits are mutually consistent, success yields a solved grid; and
    /// whenever any solved completion exists, the search finds one.
    #[verifier::loop_isolation(false)]
    fn solve_internals(&mut self, curr_idx: usize)
        requires
            old(self).wf(),
            curr_idx <= 81,
            forall|i: int| 0 <= i < curr_idx ==> old(self)@[i] != 0,
        ensures
            final(self).wf(),
            extends(final(self)@, old(self)@),
            old(self).solved_flag() ==> final(self).solved_flag(),
            full(old(self)@) ==> final(self).solved_flag(),
            !final(self).solved_flag() ==> final(self)@ == old(self)@ && !old(self).solved_flag(),
            final(self).solved_flag() ==> full(final(self)@),
            consistent(old(self)@) && final(self).solved_flag() ==> solved(final(self)@),
            solvable(old(self)@) ==> final(self).solved_flag(),
        decreases 81 - curr_idx,
    {
        if curr_idx == 81 {
            self.is_solved = true;
            return;
        }
        if self.grid[curr_idx] != 0 {
            self.solve_internals(curr_idx + 1);
            return;
        }
        proof {
            assert(!old(self).solved_flag()) by {
                assert(old(self)@[curr_idx as int] == 0);
            }
        }
        let (x, y) = Self::get_coordinates(curr_idx);
        let ghost idx = curr_idx as int;
        let mut n: u8 = 1;
        while n <= 9
            invariant
                1 <= n <= 10,
                !self.solved_flag(),
                forall|i: int| 0 <= i < 81 && i != idx ==> self@[i] == old(self)@[i],
                self@[idx] < n,
                forall|s: Seq<u8>| solved(s) && extends(s, old(self)@) ==> s[idx] >= n,
            decreases 10 - n,
        {
            if self.is_valid(n, x, y) {
                let ghost before = self@;
                self.grid[curr_idx] = n;
                proof {
                    assert(self@ =~= old(self)@.update(idx, n));
                    assert(can_place(old(self)@, n, idx)) by {
                        assert forall|j: int|
                            0 <= j < 81 && same_unit(idx, j) implies old(self)@[j] != n by {
                            if j != idx {
                                assert(old(self)@[j] == before[j]);
                            }
                        }
                    }
                    if consistent(old(self)@) {
                        lemma_place_preserves_consistent(old(self)@, idx, n);
                    }
                }
                let ghost placed = self@;
                self.solve_internals(curr_idx + 1);
                if self.is_solved {
                    proof {
                        assert(extends(final(self)@, old(self)@)) by {
                            assert forall|i: int|
                                0 <= i < 81 && old(self)@[i] != 0 implies self@[i] == old(self)@[i] by {
                                assert(placed[i] == old(self)@[i]);
                            }
                        }
                    }
                    return;
                }
                proof {
                    assert(self@ == placed);
                    assert forall|s: Seq<u8>|
                        solved(s) && extends(s, old(self)@) implies s[idx] >= n + 1 by {
                        assert(s[idx] >= n);
                        if s[idx] == n {
                            assert(extends(s, placed)) by {
                                assert forall|i: int|
                                    0 <= i < 81 && placed[i] != 0 implies s[i] == placed[i] by {
                                    if i != idx {
                                        assert(placed[i] == old(self)@[i]);
                                    }
                                }
                            }
                            assert(solvable(placed));
                            assert(false);
                        }
                    }
                }
            } else {
                proof {
                    assert forall|s: Seq<u8>|
                        solved(s) && extends(s, old(self)@) implies s[idx] >= n + 1 by {
                        assert(s[idx] >= n);
                        if s[idx] == n {
                            assert(!can_place(self@, n, idx));
                            let j = choose|j: int|
                                0 <= j < 81 && same_unit(idx, j) && self@[j] == n;
                            assert(j != idx);
                            assert(old(self)@[j] == n);
                            assert(s[j] == n);
                            assert(same_unit(j, idx));
                            assert(false);
                        }
                    }
                }
            }
            n += 1;
        }
        self.grid[curr_idx] = 0;
        proof {
            assert(self@ =~= old(self)@);
            assert(!solvable(old(self)@)) by {
                if solvable(old(self)@) {
                    let s = choose|s: Seq<u8>| solved(s) && extends(s, old(self)@);
                    assert(s[idx] >= 10);
                    assert(s[idx] <= 9);
                }
            }
        }
    }

    /// Solves the sudoku in place by recursive backtracking, trying digits in
    /// ascending order at each blank cell in ascending index order. Given
    /// (nonzero) cells are never changed. On success the solved flag is set
    /// and every cell is filled; on failure the grid is left exactly as it
    /// was. For a grid whose given digits are mutually consistent, the flag
    /// is set if and only if a solved completion exists, and the resulting
    /// grid is then such a completion. Solving an already-solved grid leaves
    /// it unchanged.
    pub fn solve(&mut self)
        requires
            old(self).wf(),
        ensures
            final(self).wf(),
            extends(final(self)@, old(self)@),
            !final(self).solved_flag() ==> final(self)@ == old(self)@ && !old(self).solved_flag(),
            final(self).solved_flag() ==> full(final(self)@),
            solvable(old(self)@) ==> final(self).solved_flag(),
            consistent(old(self)@) ==> (final(self).solved_flag() <==> solvable(old(self)@)),
            consistent(old(self)@) && final(self).solved_flag() ==> solved(final(self)@),
            full(old(self)@) ==> final(self)@ == old(self)@ && final(self).solved_flag(),
            old(self).solved_flag() ==> final(self)@ == old(self)@ && final(self).solved_flag(),
    {
        self.solve_internals(0);
        proof {
            if consistent(old(self)@) && self.solved_flag() {
                assert(solvable(old(self)@)) by {
                    assert(solved(self@) && extends(self@, old(self)@));
                }
            }
            if full(old(self)@) {
                assert(self@ =~= old(self)@);
            }
            if old(self).solved_flag() {
                assert(self@ =~= old(self)@);
            }
        }
    }

    /// Whether the last search reached a complete assignment.
    pub fn is_solved(&self) -> (r: bool)
        ensures
            r == self.solved_flag(),
    {
        self.is_solved
    }

    /// Compares the grid with a raw flat array: true iff every corresponding
    /// cell matches.
    pub fn matches_flat(&self, other: &[u8; 81]) -> (r: bool)
        ensures
            r <==> self@ == other@,
    {
        let mut i: usize = 0;
        while i < 81
            invariant
                i <= 81,
                forall|k: int| 0 <= k < i ==> self@[k] == other@[k],
            decreases 81 - i,
        {
            if self.grid[i] != other[i] {
                proof {
                    assert(self@[i as int] != other@[i as int]);
                }
                return false;
            }
            i += 1;
        }
        proof {
            assert(self@ =~= other@);
        }
        true
    }

    /// Compares the grid with a raw 9×9 nested array: true iff every cell
    /// matches its row-major counterpart.
    pub fn matches_nested(&self, other: &[[u8; 9]; 9]) -> (r: bool)
        ensures
            r <==> self@ == flatten_row_major(*other),
    {
        let flat = Self::flatten(*other);
        self.matches_flat(&flat)
    }

    /// The one-character string showing one cell.
    fn cell_str(v: u8) -> (s: &'static str)
        requires
            v <= 9,
        ensures
            s@.len() == 1,
            s@[0] == render_cell(v),
    {
        proof {
            reveal_strlit("_");
            reveal_strlit("1");
            reveal_strlit("2");
            reveal_strlit("3");
            reveal_strlit("4");
            reveal_strlit("5");
            reveal_strlit("6");
            reveal_strlit("7");
            reveal_strlit("8");
            reveal_strlit("9");
        }
        match v {
            0 => "_",
            1 => "1",
            2 => "2",
            3 => "3",
            4 => "4",
            5 => "5",
            6 => "6",
            7 => "7",
            8 => "8",
            _ => "9",
        }
    }

    /// Renders the grid as nine lines: each line lists a row's nine cells
    /// separated by single spaces, blanks shown as `_`, and ends with a
    /// newline.
    #[verifier::loop_isolation(false)]
    pub fn render(&self) -> (out: String)
        requires
            self.wf(),
        ensures
            out@ == render_spec(self@),
    {
        let mut out = String::new();
        let mut i: usize = 0;
        while i < 9
            invariant
                i <= 9,
                out@ == render_spec(self@).subrange(0, 18 * i),
            decreases 9 - i,
        {
            let mut j: usize = 0;
            while j < 9
                invariant
                    i < 9,
                    j <= 9,
                    out@ == render_spec(self@).subrange(0, 18 * i + 2 * j),
                decreases 9 - j,
            {
                let cs = Self::cell_str(self.grid[i * 9 + j]);
                out.append(cs);
                let sep = if j == 8 {
                    "\n"
                } else {
                    " "
                };
                out.append(sep);
                proof {
                    reveal_strlit(" ");
                    reveal_strlit("\n");
                    let p = 18 * (i as int) + 2 * (j as int);
                    assert(p / 18 == i as int && p % 18 == 2 * (j as int));
                    assert((p + 1) / 18 == i as int && (p + 1) % 18 == 2 * (j as int) + 1);
                    assert(render_spec(self@)[p] == render_cell(self@[i as int * 9 + j as int]));
                    assert(render_spec(self@)[p + 1] == (if j == 8 {
                        '\n'
                    } else {
                        ' '
                    }));
                    assert(out@ =~= render_spec(self@).subrange(0, p + 2));
                }
                j += 1;
            }
            i += 1;
        }
        proof {
            assert(render_spec(self@).subrange(0, 162) =~= render_spec(self@));
        }
        out
    }
}

impl Default for Sudoku {
    /// Returns an all-blank, unsolved grid.
    fn default() -> (s: Self)
        ensures
            s.wf(),
            forall|i: int| 0 <= i < 81 ==> s@[i] == 0,
            !s.solved_flag(),
    {
        Sudoku::create_empty()
    }
}

} // verus!
