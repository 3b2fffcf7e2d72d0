//! Depth-first backtracking search over the empty cells of a board.
//!
//! The search visits empty cells in row-major order and tries digits in
//! ascending order, so its answer is pinned down exactly: the returned grid
//! is the lexicographically least solution of the input, and `None` comes
//! back precisely when the input has no solution at all.

use vstd::prelude::*;

use crate::model::complete;
use crate::model::count_zeros;
use crate::model::is_solution;
use crate::model::lemma_conflict_blocks;
use crate::model::lemma_full_grid_is_min;
use crate::model::lemma_lex_le_antisymmetric;
use crate::model::lemma_solution_narrow;
use crate::model::lemma_solution_widen;
use crate::model::lex_le;
use crate::model::val;
use crate::sudoku_board::SudokuBoard;

verus! {

/// The stateless search algorithm.
pub struct BacktrackingSolver;

impl BacktrackingSolver {
    /// Solves the board by exhaustive backtracking, working on a private
    /// copy; the caller's board is untouched. `Some` carries a complete,
    /// conflict-free board that keeps every digit of the input — the
    /// lexicographically least such completion — and `None` comes back
    /// exactly when no completion of the input is conflict-free.
    pub fn run(init_board: &SudokuBoard) -> (res: Option<SudokuBoard>)
        requires
            init_board.wf(),
        ensures
            res matches Some(b) ==> b.wf() && b.given_mask() == init_board.given_mask()
                && is_solution(b.grid(), init_board.grid()) && complete(b.grid()) && (forall|
                sol: Seq<u8>,
            |
                #[trigger] is_solution(sol, init_board.grid()) ==> lex_le(b.grid(), sol)),
            res is None <==> (forall|sol: Seq<u8>| !is_solution(sol, init_board.grid())),
    {
        let mut board = init_board.clone();
        if Self::recursive_solve(&mut board) {
            Some(board)
        } else {
            None
        }
    }

    /// One frame of the search: fills the first empty cell with the least
    /// workable digit and recurses. On success the board holds the least
    /// solution of its entry value; on failure the board is unchanged and no
    /// solution of it exists.
    fn recursive_solve(board: &mut SudokuBoard) -> (res: bool)
        requires
            old(board).wf(),
        ensures
            final(board).wf(),
            final(board).given_mask() == old(board).given_mask(),
            res ==> is_solution(final(board).grid(), old(board).grid()) && (forall|sol: Seq<u8>|
                #[trigger] is_solution(sol, old(board).grid()) ==> lex_le(
                    final(board).grid(),
                    sol,
                )),
            !res ==> final(board).grid() == old(board).grid() && (forall|sol: Seq<u8>|
                !is_solution(sol, old(board).grid())),
        decreases count_zeros(board.grid()),
    {
        let empty_cell = Self::find_first_empty_cell(board);
        match empty_cell {
            None => {
                proof {
                    lemma_full_grid_is_min(board.grid());
                }
                true
            },
            Some(cell) => {
                let ghost g0 = board.grid();
                let ghost m0 = board.given_mask();
                let ghost r = cell.0 as int;
                let ghost c = cell.1 as int;
                let ghost idx = r * 9 + c;
                proof {
                    assert(!m0[idx]);
                }
                let mut num: u8 = 1;
                while num <= 9
                    invariant
                        board.wf(),
                        board.grid() == g0,
                        board.given_mask() == m0,
                        g0 == old(board).grid(),
                        m0 == old(board).given_mask(),
                        r == cell.0 as int,
                        c == cell.1 as int,
                        idx == r * 9 + c,
                        cell.0 < 9,
                        cell.1 < 9,
                        val(g0, r, c) == 0,
                        !m0[idx],
                        forall|i: int| 0 <= i < idx ==> #[trigger] g0[i] != 0,
                        1 <= num <= 10,
                        forall|sol: Seq<u8>| #[trigger] is_solution(sol, g0) ==> val(sol, r, c)
                            >= num,
                    decreases 10 - num,
                {
                    if board.is_placement_valid(cell, num) {
                        board.place_unchecked(cell, num);
                        let ghost g1 = board.grid();
                        if Self::recursive_solve(board) {
                            proof {
                                let gf = board.grid();
                                lemma_solution_widen(g0, gf, r, c, num);
                                assert forall|sol: Seq<u8>| #[trigger] is_solution(
                                    sol,
                                    g0,
                                ) implies lex_le(gf, sol) by {
                                    if val(sol, r, c) == num {
                                        lemma_solution_narrow(g0, sol, r, c, num);
                                        assert(is_solution(sol, g1));
                                    } else {
                                        assert(val(sol, r, c) > num);
                                        assert(g1[idx] == num);
                                        assert(gf[idx] == num);
                                        assert forall|j: int| 0 <= j < idx implies gf[j]
                                            == sol[j] by {
                                            assert(g0[j] != 0);
                                        }
                                        assert(gf[idx] < sol[idx]);
                                    }
                                }
                            }
                            return true;
                        }
                        board.place_unchecked(cell, 0);
                        proof {
                            assert(board.grid() =~= g0);
                            assert forall|sol: Seq<u8>| #[trigger] is_solution(sol, g0) implies val(
                                sol,
                                r,
                                c,
                            ) >= num + 1 by {
                                if val(sol, r, c) == num {
                                    lemma_solution_narrow(g0, sol, r, c, num);
                                    assert(is_solution(sol, g1));
                                    assert(false);
                                }
                            }
                        }
                    } else {
                        proof {
                            assert forall|sol: Seq<u8>| #[trigger] is_solution(sol, g0) implies val(
                                sol,
                                r,
                                c,
                            ) >= num + 1 by {
                                lemma_conflict_blocks(g0, sol, r, c, num);
                            }
                        }
                    }
                    num = num + 1;
                }
                proof {
                    assert forall|sol: Seq<u8>| !is_solution(sol, g0) by {
                        if is_solution(sol, g0) {
                            assert(val(sol, r, c) >= 10);
                            assert(1 <= sol[idx] <= 9);
                            assert(false);
                        }
                    }
                }
                false
            },
        }
    }

    /// The first empty cell in row-major order, if any; every cell before it
    /// is filled.
    fn find_first_empty_cell(board: &SudokuBoard) -> (res: Option<(u8, u8)>)
        requires
            board.wf(),
        ensures
            res matches Some(cell) ==> cell.0 < 9 && cell.1 < 9 && val(
                board.grid(),
                cell.0 as int,
                cell.1 as int,
            ) == 0 && (forall|i: int|
                0 <= i < cell.0 as int * 9 + cell.1 as int ==> #[trigger] board.grid()[i] != 0),
            res is None ==> forall|i: int| 0 <= i < 81 ==> #[trigger] board.grid()[i] != 0,
    {
        let mut r: u8 = 0;
        while r < 9
            invariant
                board.wf(),
                r <= 9,
                forall|i: int| 0 <= i < r as int * 9 ==> #[trigger] board.grid()[i] != 0,
            decreases 9 - r,
        {
            let mut c: u8 = 0;
            while c < 9
                invariant
                    board.wf(),
                    r < 9,
                    c <= 9,
                    forall|i: int|
                        0 <= i < r as int * 9 + c as int ==> #[trigger] board.grid()[i] != 0,
                decreases 9 - c,
            {
                if board.get((r, c)) == Some(0) {
                    return Some((r, c));
                }
                c = c + 1;
            }
            r = r + 1;
        }
        None
    }
}

/// Determinism of the search: `run`'s contract pins its result — a returned
/// grid is the lexicographically least solution of the input, and two least
/// solutions of one grid are equal — so two runs over equal boards return
/// equal outcomes.
pub proof fn lemma_min_solution_unique(g: Seq<u8>, s1: Seq<u8>, s2: Seq<u8>)
    requires
        is_solution(s1, g),
        forall|sol: Seq<u8>| #[trigger] is_solution(sol, g) ==> lex_le(s1, sol),
        is_solution(s2, g),
        forall|sol: Seq<u8>| #[trigger] is_solution(sol, g) ==> lex_le(s2, sol),
    ensures
        s1 == s2,
{
    lemma_lex_le_antisymmetric(s1, s2);
}

} // verus!
