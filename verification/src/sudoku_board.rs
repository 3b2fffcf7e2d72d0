//! The board: a 9x9 grid of digits with a mask of the original "given"
//! cells, whose every mutation is checked against the uniqueness invariant.
//!
//! The grid is stored row-major in a vector of 81 digits; `0` marks an empty
//! cell. [`SudokuBoard::set`] is the sole public mutation path and validates
//! in a fixed order (bounds, given mask, clear, digit range, occupancy,
//! uniqueness); a failed call leaves the board unchanged.
//! [`SudokuBoard::place_unchecked`] is the crate-internal entry point the
//! solver uses to place and retract candidates on cells it already knows to
//! be empty and non-given.

use vstd::prelude::*;

use crate::model::cell_ok;
use crate::model::conflicts;
use crate::model::count_zeros;
use crate::model::grid_shape;
use crate::model::lemma_clear_keeps_no_conflicts;
use crate::model::lemma_count_zeros_update;
use crate::model::lemma_idx_injective;
use crate::model::lemma_place_keeps_no_conflicts;
use crate::model::no_conflicts;
use crate::model::same_unit;
use crate::model::val;

verus! {

/// A construction-time failure: the supplied grid already breaks the rules.
#[derive(Clone, Copy, Debug, PartialEq, Eq, Structural)]
pub struct ConfigError;

/// Why a `set` call was rejected; the board is unchanged in every case.
#[derive(Clone, Copy, Debug, PartialEq, Eq, Structural)]
pub enum PlaceError {
    /// The cell indices are not both in `[0, 9)`.
    OutOfBounds,
    /// The cell was part of the original configuration.
    ImmutableCell,
    /// The digit is not in `1..=9` (and is not the clear value `0`).
    InvalidDigit,
    /// The cell already holds a digit; it must be cleared first.
    CellOccupied,
    /// The digit already appears in the cell's row, column or block.
    ConstraintViolation,
}

/// The 81 cells of a 9x9 configuration, row-major.
pub open spec fn flat(config: [[u8; 9]; 9]) -> Seq<u8> {
    Seq::new(81, |i: int| config[i / 9][i % 9])
}

/// The outcome `set` owes its caller, decided in the documented order:
/// bounds, given mask, clear, digit range, occupancy, uniqueness.
pub open spec fn place_outcome(g: Seq<u8>, m: Seq<bool>, r: int, c: int, d: u8) -> Result<
    (),
    PlaceError,
> {
    if !cell_ok(r, c) {
        Err(PlaceError::OutOfBounds)
    } else if m[r * 9 + c] {
        Err(PlaceError::ImmutableCell)
    } else if d == 0 {
        Ok(())
    } else if d > 9 {
        Err(PlaceError::InvalidDigit)
    } else if val(g, r, c) != 0 {
        Err(PlaceError::CellOccupied)
    } else if conflicts(g, r, c, d) {
        Err(PlaceError::ConstraintViolation)
    } else {
        Ok(())
    }
}

/// The 9x9 board: the current digits and the mask of given cells.
pub struct SudokuBoard {
    cells: Vec<u8>,
    givens: Vec<bool>,
}

impl SudokuBoard {
    /// The current grid, row-major.
    pub closed spec fn grid(self) -> Seq<u8> {
        self.cells@
    }

    /// Which cells were non-zero in the original configuration.
    pub closed spec fn given_mask(self) -> Seq<bool> {
        self.givens@
    }

    /// Well-formedness: fixed 9x9 shape, digits in range, the uniqueness
    /// invariant, and every given cell still occupied.
    pub open spec fn wf(self) -> bool {
        &&& grid_shape(self.grid())
        &&& self.given_mask().len() == 81
        &&& no_conflicts(self.grid())
        &&& forall|i: int| 0 <= i < 81 && #[trigger] self.given_mask()[i] ==> self.grid()[i] != 0
    }

    /// Builds a board from a 9x9 configuration; `0` means empty. Fails if
    /// any digit is out of range or any row, column or block repeats a
    /// non-zero digit. On success every non-zero cell is marked as given.
    pub fn from(config: [[u8; 9]; 9]) -> (res: Result<SudokuBoard, ConfigError>)
        ensures
            res is Ok <==> grid_shape(flat(config)) && no_conflicts(flat(config)),
            res matches Ok(b) ==> b.wf() && b.grid() == flat(config) && forall|i: int|
                0 <= i < 81 ==> (#[trigger] b.given_mask()[i] <==> flat(config)[i] != 0),
    {
        let cells = flatten(&config);
        let mut i: usize = 0;
        while i < 81
            invariant
                i <= 81,
                cells@ == flat(config),
                cells@.len() == 81,
                forall|k: int| 0 <= k < i ==> #[trigger] cells@[k] <= 9,
            decreases 81 - i,
        {
            if cells[i] > 9 {
                return Err(ConfigError);
            }
            i = i + 1;
        }
        if !no_duplicates(&cells) {
            return Err(ConfigError);
        }
        let mut givens: Vec<bool> = Vec::new();
        let mut j: usize = 0;
        while j < 81
            invariant
                j <= 81,
                cells@ == flat(config),
                cells@.len() == 81,
                givens@.len() == j,
                forall|k: int| 0 <= k < j ==> (#[trigger] givens@[k] <==> cells@[k] != 0),
            decreases 81 - j,
        {
            givens.push(cells[j] != 0);
            j = j + 1;
        }
        Ok(SudokuBoard { cells, givens })
    }

    /// Returns the digit at `cell` (0 if empty), or `None` when the cell is
    /// off the board.
    pub fn get(&self, cell: (u8, u8)) -> (res: Option<u8>)
        requires
            self.wf(),
        ensures
            cell.0 < 9 && cell.1 < 9 ==> res == Some(
                val(self.grid(), cell.0 as int, cell.1 as int),
            ),
            !(cell.0 < 9 && cell.1 < 9) ==> res is None,
    {
        if cell.0 < 9 && cell.1 < 9 {
            Some(self.cells[cell.0 as usize * 9 + cell.1 as usize])
        } else {
            None
        }
    }

    /// The sole public mutation path. Validates in the fixed order given by
    /// [`place_outcome`]; on any failure the board is unchanged. Clearing
    /// (digit 0) a non-given cell always succeeds, and clearing an already
    /// empty cell leaves the grid unchanged.
    pub fn set(&mut self, cell: (u8, u8), num: u8) -> (res: Result<(), PlaceError>)
        requires
            old(self).wf(),
        ensures
            final(self).wf(),
            final(self).given_mask() == old(self).given_mask(),
            res == place_outcome(
                old(self).grid(),
                old(self).given_mask(),
                cell.0 as int,
                cell.1 as int,
                num,
            ),
            res is Ok ==> final(self).grid() == old(self).grid().update(
                cell.0 as int * 9 + cell.1 as int,
                num,
            ),
            res is Err ==> final(self).grid() == old(self).grid(),
            num == 0 && cell.0 < 9 && cell.1 < 9 && val(
                old(self).grid(),
                cell.0 as int,
                cell.1 as int,
            ) == 0 && res is Ok ==> final(self).grid() == old(self).grid(),
    {
        let r = cell.0 as usize;
        let c = cell.1 as usize;
        if r >= 9 || c >= 9 {
            return Err(PlaceError::OutOfBounds);
        }
        let idx = r * 9 + c;
        if self.givens[idx] {
            return Err(PlaceError::ImmutableCell);
        }
        if num == 0 {
            proof {
                lemma_clear_keeps_no_conflicts(self.grid(), r as int, c as int);
            }
            let ghost old_grid = self.grid();
            self.cells[idx] = 0;
            proof {
                if old_grid[idx as int] == 0 {
                    assert(self.grid() =~= old_grid);
                }
            }
            return Ok(());
        }
        if num > 9 {
            return Err(PlaceError::InvalidDigit);
        }
        if self.cells[idx] != 0 {
            return Err(PlaceError::CellOccupied);
        }
        if self.has_conflict(r, c, num) {
            return Err(PlaceError::ConstraintViolation);
        }
        proof {
            lemma_place_keeps_no_conflicts(self.grid(), r as int, c as int, num);
        }
        self.cells[idx] = num;
        Ok(())
    }

    /// Whether a `set` call with these arguments would succeed; the board is
    /// not touched.
    pub fn validate_move(&self, cell: (u8, u8), num: u8) -> (res: bool)
        requires
            self.wf(),
        ensures
            res == (place_outcome(
                self.grid(),
                self.given_mask(),
                cell.0 as int,
                cell.1 as int,
                num,
            ) is Ok),
    {
        if num > 9 {
            return false;
        }
        let r = cell.0 as usize;
        let c = cell.1 as usize;
        if r >= 9 || c >= 9 {
            return false;
        }
        if self.givens[r * 9 + c] {
            return false;
        }
        if num == 0 {
            return true;
        }
        if self.cells[r * 9 + c] != 0 {
            return false;
        }
        !self.has_conflict(r, c, num)
    }

    /// The pure pruning predicate the solver uses: with an in-bounds, empty
    /// target cell and a digit in `1..=9`, returns false exactly when the
    /// digit already appears in the cell's row, column or block (the target
    /// cell itself excluded).
    pub fn is_placement_valid(&self, cell: (u8, u8), num: u8) -> (res: bool)
        requires
            self.wf(),
            cell.0 < 9,
            cell.1 < 9,
            1 <= num <= 9,
            val(self.grid(), cell.0 as int, cell.1 as int) == 0,
        ensures
            res == !conflicts(self.grid(), cell.0 as int, cell.1 as int, num),
    {
        !self.has_conflict(cell.0 as usize, cell.1 as usize, num)
    }

    /// Checks whether the current configuration breaks the uniqueness rule;
    /// this is the duplicate scan `from` runs before producing a board.
    pub fn is_valid_config(config: &[[u8; 9]; 9]) -> (res: bool)
        ensures
            res == no_conflicts(flat(*config)),
    {
        let cells = flatten(config);
        no_duplicates(&cells)
    }

    /// Crate-internal mutation entry point for the solver: writes `num`
    /// (a non-conflicting digit into an empty cell, or 0 to retract) into a
    /// non-given cell without re-running the public checks.
    pub(crate) fn place_unchecked(&mut self, cell: (u8, u8), num: u8)
        requires
            old(self).wf(),
            cell.0 < 9,
            cell.1 < 9,
            !old(self).given_mask()[cell.0 as int * 9 + cell.1 as int],
            num == 0 || (1 <= num <= 9 && val(old(self).grid(), cell.0 as int, cell.1 as int) == 0
                && !conflicts(old(self).grid(), cell.0 as int, cell.1 as int, num)),
        ensures
            final(self).wf(),
            final(self).given_mask() == old(self).given_mask(),
            final(self).grid() == old(self).grid().update(
                cell.0 as int * 9 + cell.1 as int,
                num,
            ),
            num == 0 && val(old(self).grid(), cell.0 as int, cell.1 as int) != 0 ==> count_zeros(
                final(self).grid(),
            ) == count_zeros(old(self).grid()) + 1,
            num != 0 ==> count_zeros(final(self).grid()) + 1 == count_zeros(old(self).grid()),
    {
        let r = cell.0 as usize;
        let c = cell.1 as usize;
        proof {
            if num == 0 {
                lemma_clear_keeps_no_conflicts(self.grid(), r as int, c as int);
            } else {
                lemma_place_keeps_no_conflicts(self.grid(), r as int, c as int, num);
            }
            lemma_count_zeros_update(self.grid(), r as int * 9 + c as int, num);
        }
        self.cells[r * 9 + c] = num;
    }

    /// Scans the whole grid for a cell in the same unit as `(r, c)` (other
    /// than `(r, c)` itself) that already holds `d`.
    fn has_conflict(&self, r: usize, c: usize, d: u8) -> (res: bool)
        requires
            self.grid().len() == 81,
            r < 9,
            c < 9,
            d != 0,
        ensures
            res == conflicts(self.grid(), r as int, c as int, d),
    {
        let mut i: usize = 0;
        while i < 81
            invariant
                i <= 81,
                self.grid().len() == 81,
                r < 9,
                c < 9,
                forall|r2: int, c2: int|
                    cell_ok(r2, c2) && r2 * 9 + c2 < i && same_unit(r as int, c as int, r2, c2)
                        && !(r2 == r as int && c2 == c as int) ==> #[trigger] val(
                        self.grid(),
                        r2,
                        c2,
                    ) != d,
            decreases 81 - i,
        {
            let r2 = i / 9;
            let c2 = i % 9;
            let in_unit = r2 == r || c2 == c || (r2 / 3 == r / 3 && c2 / 3 == c / 3);
            if in_unit && !(r2 == r && c2 == c) && self.cells[i] == d {
                proof {
                    assert(r2 as int * 9 + c2 as int == i as int);
                    assert(val(self.grid(), r2 as int, c2 as int) == d);
                }
                return true;
            }
            proof {
                assert forall|r3: int, c3: int|
                    cell_ok(r3, c3) && r3 * 9 + c3 < i + 1 && same_unit(
                        r as int,
                        c as int,
                        r3,
                        c3,
                    ) && !(r3 == r as int && c3 == c as int) implies #[trigger] val(
                    self.grid(),
                    r3,
                    c3,
                ) != d by {
                    if r3 * 9 + c3 == i as int {
                        lemma_idx_injective(r3, c3, i as int / 9, i as int % 9);
                    }
                }
            }
            i = i + 1;
        }
        proof {
            if conflicts(self.grid(), r as int, c as int, d) {
                let (r2, c2) = choose|r2: int, c2: int|
                    cell_ok(r2, c2) && same_unit(r as int, c as int, r2, c2) && !(r2 == r as int
                        && c2 == c as int) && #[trigger] val(self.grid(), r2, c2) == d;
                assert(r2 * 9 + c2 < 81);
                assert(false);
            }
        }
        false
    }
}

impl Clone for SudokuBoard {
    /// A copy with the same grid and the same given mask, fully decoupled
    /// from the original.
    fn clone(&self) -> (res: Self)
        ensures
            res.grid() == self.grid(),
            res.given_mask() == self.given_mask(),
    {
        let cells = self.cells.clone();
        let givens = self.givens.clone();
        proof {
            assert(cells@ =~= self.cells@);
            assert(givens@ =~= self.givens@);
        }
        SudokuBoard { cells, givens }
    }
}

/// The 81 digits of a 9x9 configuration, row-major.
fn flatten(config: &[[u8; 9]; 9]) -> (v: Vec<u8>)
    ensures
        v@ == flat(*config),
{
    let mut v: Vec<u8> = Vec::new();
    let mut r: usize = 0;
    while r < 9
        invariant
            r <= 9,
            v@.len() == r * 9,
            forall|k: int| 0 <= k < v@.len() ==> v@[k] == flat(*config)[k],
        decreases 9 - r,
    {
        let mut c: usize = 0;
        while c < 9
            invariant
                r < 9,
                c <= 9,
                v@.len() == r * 9 + c,
                forall|k: int| 0 <= k < v@.len() ==> v@[k] == flat(*config)[k],
            decreases 9 - c,
        {
            v.push(config[r][c]);
            proof {
                let k = r as int * 9 + c as int;
                assert(k / 9 == r as int && k % 9 == c as int) by (nonlinear_arith)
                    requires
                        0 <= r < 9 && 0 <= c < 9 && k == r as int * 9 + c as int,
                ;
                assert(v@[k] == flat(*config)[k]);
            }
            c = c + 1;
        }
        r = r + 1;
    }
    proof {
        assert(v@ =~= flat(*config));
    }
    v
}

/// A pair of positions is clean when they do not witness a broken unit:
/// not both in one unit with the same non-zero digit.
spec fn pair_clean(g: Seq<u8>, a: int, b: int) -> bool {
    !(same_unit(a / 9, a % 9, b / 9, b % 9) && a != b && g[a] != 0 && g[a] == g[b])
}

/// Pairwise scan of all 81 cells: true exactly when no row, column or block
/// repeats a non-zero digit.
fn no_duplicates(v: &Vec<u8>) -> (res: bool)
    requires
        v@.len() == 81,
    ensures
        res == no_conflicts(v@),
{
    let mut i: usize = 0;
    while i < 81
        invariant
            i <= 81,
            v@.len() == 81,
            forall|a: int, b: int| 0 <= a < b < i ==> #[trigger] pair_clean(v@, a, b),
        decreases 81 - i,
    {
        let r2 = i / 9;
        let c2 = i % 9;
        let mut j: usize = 0;
        while j < i
            invariant
                i < 81,
                j <= i,
                v@.len() == 81,
                r2 == i / 9,
                c2 == i % 9,
                forall|a: int| 0 <= a < j ==> #[trigger] pair_clean(v@, a, i as int),
            decreases i - j,
        {
            let r1 = j / 9;
            let c1 = j % 9;
            let in_unit = r1 == r2 || c1 == c2 || (r1 / 3 == r2 / 3 && c1 / 3 == c2 / 3);
            if in_unit && v[j] != 0 && v[j] == v[i] {
                proof {
                    assert(!no_conflicts(v@)) by {
                        if no_conflicts(v@) {
                            let (rr1, cc1) = (j as int / 9, j as int % 9);
                            let (rr2, cc2) = (i as int / 9, i as int % 9);
                            assert(rr1 * 9 + cc1 == j as int);
                            assert(rr2 * 9 + cc2 == i as int);
                            assert(val(v@, rr1, cc1) != 0);
                            assert(val(v@, rr1, cc1) != val(v@, rr2, cc2));
                            assert(false);
                        }
                    }
                }
                return false;
            }
            j = j + 1;
        }
        i = i + 1;
    }
    proof {
        assert forall|r1: int, c1: int, r2: int, c2: int|
            cell_ok(r1, c1) && cell_ok(r2, c2) && same_unit(r1, c1, r2, c2) && !(r1 == r2 && c1
                == c2) && #[trigger] val(v@, r1, c1) != 0 implies val(v@, r1, c1) != #[trigger] val(
            v@,
            r2,
            c2,
        ) by {
            let a = r1 * 9 + c1;
            let b = r2 * 9 + c2;
            assert(a / 9 == r1 && a % 9 == c1) by (nonlinear_arith)
                requires
                    0 <= r1 < 9 && 0 <= c1 < 9 && a == r1 * 9 + c1,
            ;
            assert(b / 9 == r2 && b % 9 == c2) by (nonlinear_arith)
                requires
                    0 <= r2 < 9 && 0 <= c2 < 9 && b == r2 * 9 + c2,
            ;
            if a < b {
                assert(pair_clean(v@, a, b));
            } else {
                assert(b < a);
                assert(pair_clean(v@, b, a));
            }
        }
    }
    true
}

} // verus!
