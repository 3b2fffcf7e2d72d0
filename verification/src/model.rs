//! The mathematical model of a 9x9 puzzle grid.
//!
//! A grid is a row-major sequence of 81 digits in `0..=9`, where `0` marks an
//! empty cell. The central predicate is [`no_conflicts`]: every row, every
//! column and every 3x3 block holds pairwise-distinct non-zero digits. On top
//! of it sit the notions the solver's contract needs: a *solution* of a grid
//! (a complete, conflict-free grid that agrees with it on the filled cells)
//! and a lexicographic order on grids, by which the solver's answer is pinned
//! down uniquely.

use vstd::prelude::*;

verus! {

/// Row and column indices of a cell on the board.
pub open spec fn cell_ok(r: int, c: int) -> bool {
    0 <= r < 9 && 0 <= c < 9
}

/// The value stored at row `r`, column `c` of a row-major grid.
pub open spec fn val(g: Seq<u8>, r: int, c: int) -> u8 {
    g[r * 9 + c]
}

/// Two cells share a constraint unit: the same row, the same column, or the
/// same 3x3 block.
pub open spec fn same_unit(r1: int, c1: int, r2: int, c2: int) -> bool {
    r1 == r2 || c1 == c2 || (r1 / 3 == r2 / 3 && c1 / 3 == c2 / 3)
}

/// Structural shape of a grid: 81 cells, each holding a digit in `0..=9`.
pub open spec fn grid_shape(g: Seq<u8>) -> bool {
    g.len() == 81 && (forall|i: int| 0 <= i < 81 ==> #[trigger] g[i] <= 9)
}

/// The uniqueness invariant: no two distinct cells of a common unit hold the
/// same non-zero digit.
pub open spec fn no_conflicts(g: Seq<u8>) -> bool {
    forall|r1: int, c1: int, r2: int, c2: int|
        cell_ok(r1, c1) && cell_ok(r2, c2) && same_unit(r1, c1, r2, c2) && !(r1 == r2 && c1 == c2)
            && #[trigger] val(g, r1, c1) != 0 ==> val(g, r1, c1) != #[trigger] val(g, r2, c2)
}

/// Placing `d` at `(r, c)` would duplicate a digit already present in the
/// cell's row, column or block; the cell itself is excluded.
pub open spec fn conflicts(g: Seq<u8>, r: int, c: int, d: u8) -> bool {
    exists|r2: int, c2: int|
        cell_ok(r2, c2) && same_unit(r, c, r2, c2) && !(r2 == r && c2 == c) && #[trigger] val(
            g,
            r2,
            c2,
        ) == d
}

/// `sol` agrees with `g` on every filled cell of `g`.
pub open spec fn extends(sol: Seq<u8>, g: Seq<u8>) -> bool {
    sol.len() == 81 && (forall|i: int| 0 <= i < 81 && #[trigger] g[i] != 0 ==> sol[i] == g[i])
}

/// Every cell holds a digit in `1..=9`.
pub open spec fn complete(g: Seq<u8>) -> bool {
    forall|i: int| 0 <= i < 81 ==> 1 <= #[trigger] g[i] <= 9
}

/// A solution of `g`: a complete, conflict-free grid that keeps every digit
/// already placed in `g`.
pub open spec fn is_solution(sol: Seq<u8>, g: Seq<u8>) -> bool {
    extends(sol, g) && complete(sol) && no_conflicts(sol)
}

/// Lexicographic order on grids: equal, or strictly smaller at the first
/// position where the two differ.
pub open spec fn lex_le(a: Seq<u8>, b: Seq<u8>) -> bool {
    a == b || exists|i: int|
        0 <= i < a.len() && i < b.len() && #[trigger] a[i] < #[trigger] b[i] && (forall|j: int|
            0 <= j < i ==> a[j] == b[j])
}

/// How many cells of `g` are empty.
pub closed spec fn count_zeros(g: Seq<u8>) -> nat
    decreases g.len(),
{
    if g.len() == 0 {
        0
    } else {
        count_zeros(g.drop_last()) + if g.last() == 0 {
            1nat
        } else {
            0nat
        }
    }
}

/// Updating one cell changes the number of empty cells exactly as the old
/// and new values dictate.
pub proof fn lemma_count_zeros_update(g: Seq<u8>, i: int, v: u8)
    requires
        0 <= i < g.len(),
    ensures
        count_zeros(g.update(i, v)) + (if g[i] == 0 {
            1nat
        } else {
            0nat
        }) == count_zeros(g) + (if v == 0 {
            1nat
        } else {
            0nat
        }),
    decreases g.len(),
{
    let g2 = g.update(i, v);
    if i == g.len() - 1 {
        assert(g2.drop_last() =~= g.drop_last());
    } else {
        assert(g2.drop_last() =~= g.drop_last().update(i, v));
        lemma_count_zeros_update(g.drop_last(), i, v);
    }
}

/// Two cells coincide exactly when their row-major positions do.
pub proof fn lemma_idx_injective(r1: int, c1: int, r2: int, c2: int)
    requires
        cell_ok(r1, c1),
        cell_ok(r2, c2),
    ensures
        (r1 * 9 + c1 == r2 * 9 + c2) <==> (r1 == r2 && c1 == c2),
{
}

/// Writing a non-conflicting digit into an empty cell preserves the
/// uniqueness invariant.
pub proof fn lemma_place_keeps_no_conflicts(g: Seq<u8>, r: int, c: int, d: u8)
    requires
        g.len() == 81,
        cell_ok(r, c),
        val(g, r, c) == 0,
        d != 0,
        !conflicts(g, r, c, d),
        no_conflicts(g),
    ensures
        no_conflicts(g.update(r * 9 + c, d)),
{
    let g2 = g.update(r * 9 + c, d);
    assert forall|r1: int, c1: int, r2: int, c2: int|
        cell_ok(r1, c1) && cell_ok(r2, c2) && same_unit(r1, c1, r2, c2) && !(r1 == r2 && c1 == c2)
            && #[trigger] val(g2, r1, c1) != 0 implies val(g2, r1, c1) != #[trigger] val(
        g2,
        r2,
        c2,
    ) by {
        if r1 == r && c1 == c {
            lemma_idx_injective(r2, c2, r, c);
            assert(val(g2, r2, c2) == val(g, r2, c2));
            if val(g, r2, c2) == d {
                assert(conflicts(g, r, c, d));
            }
        } else if r2 == r && c2 == c {
            lemma_idx_injective(r1, c1, r, c);
            assert(val(g2, r1, c1) == val(g, r1, c1));
            if val(g, r1, c1) == d {
                assert(conflicts(g, r, c, d));
            }
        } else {
            lemma_idx_injective(r1, c1, r, c);
            lemma_idx_injective(r2, c2, r, c);
            assert(val(g2, r1, c1) == val(g, r1, c1));
            assert(val(g2, r2, c2) == val(g, r2, c2));
            assert(val(g, r1, c1) != val(g, r2, c2));
        }
    }
}

/// Clearing a cell preserves the uniqueness invariant.
pub proof fn lemma_clear_keeps_no_conflicts(g: Seq<u8>, r: int, c: int)
    requires
        g.len() == 81,
        cell_ok(r, c),
        no_conflicts(g),
    ensures
        no_conflicts(g.update(r * 9 + c, 0)),
{
    let g2 = g.update(r * 9 + c, 0);
    assert forall|r1: int, c1: int, r2: int, c2: int|
        cell_ok(r1, c1) && cell_ok(r2, c2) && same_unit(r1, c1, r2, c2) && !(r1 == r2 && c1 == c2)
            && #[trigger] val(g2, r1, c1) != 0 implies val(g2, r1, c1) != #[trigger] val(
        g2,
        r2,
        c2,
    ) by {
        lemma_idx_injective(r1, c1, r, c);
        lemma_idx_injective(r2, c2, r, c);
        assert(val(g2, r1, c1) == val(g, r1, c1));
        if !(r2 == r && c2 == c) {
            assert(val(g2, r2, c2) == val(g, r2, c2));
            assert(val(g, r1, c1) != val(g, r2, c2));
        }
    }
}

/// A solution of `g` that places `d` at the empty cell `(r, c)` is also a
/// solution of `g` with `d` written into that cell.
pub proof fn lemma_solution_narrow(g: Seq<u8>, sol: Seq<u8>, r: int, c: int, d: u8)
    requires
        g.len() == 81,
        cell_ok(r, c),
        val(g, r, c) == 0,
        is_solution(sol, g),
        val(sol, r, c) == d,
    ensures
        is_solution(sol, g.update(r * 9 + c, d)),
{
    let g2 = g.update(r * 9 + c, d);
    assert forall|i: int| 0 <= i < 81 && #[trigger] g2[i] != 0 implies sol[i] == g2[i] by {
        if i != r * 9 + c {
            assert(g[i] == g2[i]);
        }
    }
}

/// A solution of `g` with `d` written into the empty cell `(r, c)` is a
/// solution of `g` itself, and holds `d` at that cell.
pub proof fn lemma_solution_widen(g: Seq<u8>, sol: Seq<u8>, r: int, c: int, d: u8)
    requires
        g.len() == 81,
        cell_ok(r, c),
        val(g, r, c) == 0,
        d != 0,
        is_solution(sol, g.update(r * 9 + c, d)),
    ensures
        is_solution(sol, g),
        val(sol, r, c) == d,
{
    let g2 = g.update(r * 9 + c, d);
    assert(g2[r * 9 + c] != 0);
    assert forall|i: int| 0 <= i < 81 && #[trigger] g[i] != 0 implies sol[i] == g[i] by {
        assert(i != r * 9 + c);
        assert(g2[i] == g[i]);
        assert(g2[i] != 0);
    }
}

/// A digit that already appears in the row, column or block of `(r, c)`
/// cannot stand at `(r, c)` in any solution.
pub proof fn lemma_conflict_blocks(g: Seq<u8>, sol: Seq<u8>, r: int, c: int, d: u8)
    requires
        g.len() == 81,
        cell_ok(r, c),
        d != 0,
        is_solution(sol, g),
        conflicts(g, r, c, d),
    ensures
        val(sol, r, c) != d,
{
    let (r2, c2) = choose|r2: int, c2: int|
        cell_ok(r2, c2) && same_unit(r, c, r2, c2) && !(r2 == r && c2 == c) && #[trigger] val(
            g,
            r2,
            c2,
        ) == d;
    assert(g[r2 * 9 + c2] != 0);
    assert(val(sol, r2, c2) == d);
    if val(sol, r, c) == d {
        assert(val(sol, r, c) != val(sol, r2, c2));
        assert(false);
    }
}

/// A grid with no empty cell is its own solution, and — since any solution
/// must agree with it everywhere — the lexicographically least one.
pub proof fn lemma_full_grid_is_min(g: Seq<u8>)
    requires
        grid_shape(g),
        no_conflicts(g),
        forall|i: int| 0 <= i < 81 ==> #[trigger] g[i] != 0,
    ensures
        is_solution(g, g),
        forall|sol: Seq<u8>| #[trigger] is_solution(sol, g) ==> lex_le(g, sol),
{
    assert forall|sol: Seq<u8>| #[trigger] is_solution(sol, g) implies lex_le(g, sol) by {
        assert forall|i: int| 0 <= i < 81 implies sol[i] == g[i] by {
            assert(g[i] != 0);
        }
        assert(sol =~= g);
    }
}

/// The lexicographic order is antisymmetric.
pub proof fn lemma_lex_le_antisymmetric(a: Seq<u8>, b: Seq<u8>)
    requires
        lex_le(a, b),
        lex_le(b, a),
    ensures
        a == b,
{
    if a != b {
        let i1 = choose|i: int|
            0 <= i < a.len() && i < b.len() && #[trigger] a[i] < #[trigger] b[i] && (forall|j: int|
                0 <= j < i ==> a[j] == b[j]);
        let i2 = choose|i: int|
            0 <= i < b.len() && i < a.len() && #[trigger] b[i] < #[trigger] a[i] && (forall|j: int|
                0 <= j < i ==> b[j] == a[j]);
        if i1 < i2 {
            assert(b[i1] == a[i1]);
        } else if i2 < i1 {
            assert(a[i2] == b[i2]);
        }
        assert(false);
    }
}

} // verus!
