//! The backtracking solver: recursive search over empty cells, pruned by the
//! constraint masks, branching on a most-constrained empty cell first.

use vstd::prelude::*;

use crate::board::Board;
use crate::board::at;
use crate::board::complete;
use crate::board::consistent;
use crate::board::empties;
use crate::board::full;
use crate::board::grid_wf;
use crate::board::idx;
use crate::board::is_solution_of;
use crate::board::lemma_at_update;
use crate::board::lemma_empties_update;
use crate::board::lemma_place_consistent;
use crate::board::box_has;
use crate::board::box_of;
use crate::board::col_has;
use crate::board::digit_legal;
use crate::board::row_has;
use crate::board::solvable;
use crate::constraints::ConstraintSet;

verus! {

/// The solver's single failure: exhaustive search found no completion.
#[derive(Debug, Clone, Copy, PartialEq, Eq)]
pub struct NoSolutionError;

/// A solution of the grid with d placed at a formerly empty cell is a
/// solution of the grid before the placement.
proof fn lemma_solution_unplace(s: Seq<u8>, g: Seq<u8>, r: int, c: int, d: u8)
    requires
        g.len() == 81,
        0 <= r < 9,
        0 <= c < 9,
        at(g, r, c) == 0,
        1 <= d <= 9,
        is_solution_of(s, g.update(idx(r, c), d)),
    ensures
        is_solution_of(s, g),
{
    broadcast use lemma_at_update;

    let g1 = g.update(idx(r, c), d);
    assert forall|rr: int, cc: int|
        0 <= rr < 9 && 0 <= cc < 9 && #[trigger] at(g, rr, cc) != 0 implies at(s, rr, cc) == at(
        g,
        rr,
        cc,
    ) by {
        assert(at(g1, rr, cc) == at(g, rr, cc));
    }
}

/// A solution of g that holds d at cell (r, c) is a solution of g with d
/// placed there.
proof fn lemma_solution_place(s: Seq<u8>, g: Seq<u8>, r: int, c: int, d: u8)
    requires
        g.len() == 81,
        0 <= r < 9,
        0 <= c < 9,
        1 <= d <= 9,
        is_solution_of(s, g),
        at(s, r, c) == d,
    ensures
        is_solution_of(s, g.update(idx(r, c), d)),
{
    broadcast use lemma_at_update;

    let g1 = g.update(idx(r, c), d);
    assert forall|rr: int, cc: int|
        0 <= rr < 9 && 0 <= cc < 9 && #[trigger] at(g1, rr, cc) != 0 implies at(s, rr, cc) == at(
        g1,
        rr,
        cc,
    ) by {
        if !(rr == r && cc == c) {
            assert(at(g1, rr, cc) == at(g, rr, cc));
        }
    }
}

/// No solution of g can put digit d at the empty cell (r, c) when d already
/// stands in that cell's row, column or box.
proof fn lemma_blocked_digit(g: Seq<u8>, r: int, c: int, d: u8, s: Seq<u8>)
    requires
        grid_wf(g),
        0 <= r < 9,
        0 <= c < 9,
        1 <= d <= 9,
        at(g, r, c) == 0,
        !digit_legal(g, r, c, d),
        is_solution_of(s, g),
    ensures
        at(s, r, c) != d,
{
    if at(s, r, c) == d {
        if row_has(g, r, d) {
            let c2 = choose|c2: int| 0 <= c2 < 9 && at(g, r, c2) == d;
            assert(c2 != c);
            assert(at(s, r, c2) == d);
            assert(false);
        } else if col_has(g, c, d) {
            let r2 = choose|r2: int| 0 <= r2 < 9 && at(g, r2, c) == d;
            assert(r2 != r);
            assert(at(s, r2, c) == d);
            assert(false);
        } else {
            assert(box_has(g, box_of(r, c), d));
            let (r2, c2) = choose|r2: int, c2: int|
                0 <= r2 < 9 && 0 <= c2 < 9 && box_of(r2, c2) == box_of(r, c) && at(g, r2, c2)
                    == d;
            assert(!(r2 == r && c2 == c));
            assert(at(s, r2, c2) == d);
            assert(false);
        }
    }
}

/// One backtracking step: find a most-constrained empty cell (first such
/// cell in row-major order on ties), try its digits in ascending order,
/// recurse, and undo the placement when a branch fails. Succeeds exactly
/// when the board has a valid completion; on failure the board and masks
/// are left as they were.
fn search(board: &mut Board, cs: &mut ConstraintSet) -> (found: bool)
    requires
        old(board).wf(),
        consistent(old(board)@),
        old(cs).matches(old(board)@),
    ensures
        final(board).wf(),
        final(cs).matches(final(board)@),
        found ==> is_solution_of(final(board)@, old(board)@),
        !found ==> final(board)@ == old(board)@ && !solvable(old(board)@),
    decreases empties(old(board)@),
{
    let ghost g0 = board@;

    // Scan for the empty cell with the fewest legal candidates.
    let mut best_r: usize = 0;
    let mut best_c: usize = 0;
    let mut best_n: u8 = 10;
    let mut r: usize = 0;
    while r < 9
        invariant
            board.wf(),
            board@ == g0,
            cs.matches(g0),
            r <= 9,
            best_n <= 10,
            best_n < 10 ==> best_r < 9 && best_c < 9 && at(g0, best_r as int, best_c as int)
                == 0,
            best_n == 10 ==> forall|rr: int, cc: int|
                0 <= rr < r && 0 <= cc < 9 ==> #[trigger] at(g0, rr, cc) != 0,
        decreases 9 - r,
    {
        let mut c: usize = 0;
        while c < 9
            invariant
                board.wf(),
                board@ == g0,
                cs.matches(g0),
                r < 9,
                c <= 9,
                best_n <= 10,
                best_n < 10 ==> best_r < 9 && best_c < 9 && at(g0, best_r as int, best_c as int)
                    == 0,
                best_n == 10 ==> (forall|rr: int, cc: int|
                    0 <= rr < r && 0 <= cc < 9 ==> #[trigger] at(g0, rr, cc) != 0) && (forall|
                    cc: int,
                |
                    0 <= cc < c ==> #[trigger] at(g0, r as int, cc) != 0),
            decreases 9 - c,
        {
            if board.get(r, c) == 0 {
                let n = cs.count_legal(r, c);
                if n < best_n {
                    best_r = r;
                    best_c = c;
                    best_n = n;
                }
            }
            c += 1;
        }
        r += 1;
    }

    if best_n == 10 {
        // No empty cell is left: the board itself is a complete solution.
        proof {
            assert(full(g0));
            assert forall|rr: int, cc: int| 0 <= rr < 9 && 0 <= cc < 9 implies 1 <= #[trigger] at(
                g0,
                rr,
                cc,
            ) <= 9 by {
                assert(0 <= idx(rr, cc) < 81);
                assert(g0[idx(rr, cc)] <= 9);
            }
            assert(complete(g0));
            assert(is_solution_of(g0, g0));
        }
        return true;
    }

    // Try each digit at the chosen cell.
    let ghost i0 = idx(best_r as int, best_c as int);
    let mut d: u8 = 1;
    while d <= 9
        invariant
            board.wf(),
            board@ == g0,
            cs.matches(g0),
            consistent(g0),
            grid_wf(g0),
            best_r < 9,
            best_c < 9,
            at(g0, best_r as int, best_c as int) == 0,
            i0 == idx(best_r as int, best_c as int),
            1 <= d <= 10,
            g0 == old(board)@,
            forall|s: Seq<u8>| #[trigger] is_solution_of(s, g0) ==> !(1 <= s[i0] < d),
        decreases 10 - d,
    {
        if cs.is_legal(best_r, best_c, d) {
            proof {
                cs.lemma_legal_semantics(g0, best_r as int, best_c as int, d);
                lemma_place_consistent(g0, best_r as int, best_c as int, d);
            }
            let ghost g1 = g0.update(i0, d);
            board.set_cell(best_r, best_c, d);
            cs.place(best_r, best_c, d, Ghost(g0));
            proof {
                assert(board@ == g1);
                assert forall|j: int| 0 <= j < 81 implies #[trigger] g1[j] <= 9 by {
                    if j != i0 {
                        assert(g0[j] <= 9);
                    }
                }
                assert(grid_wf(g1));
                lemma_empties_update(g0, i0, d, 81);
            }
            let found = search(board, cs);
            if found {
                proof {
                    lemma_solution_unplace(board@, g0, best_r as int, best_c as int, d);
                }
                return true;
            }
            board.set_cell(best_r, best_c, 0);
            cs.remove(best_r, best_c, d, Ghost(g1));
            proof {
                assert(g1.update(i0, 0) =~= g0);
                assert(board@ == g0);
                assert forall|s: Seq<u8>| #[trigger] is_solution_of(s, g0) implies !(1 <= s[i0] < d
                    + 1) by {
                    if s[i0] == d {
                        assert(at(s, best_r as int, best_c as int) == d);
                        lemma_solution_place(s, g0, best_r as int, best_c as int, d);
                        assert(is_solution_of(s, g1));
                        assert(solvable(g1));
                        assert(false);
                    }
                }
            }
        } else {
            proof {
                cs.lemma_legal_semantics(g0, best_r as int, best_c as int, d);
                assert forall|s: Seq<u8>| #[trigger] is_solution_of(s, g0) implies !(1 <= s[i0] < d
                    + 1) by {
                    if s[i0] == d {
                        lemma_blocked_digit(g0, best_r as int, best_c as int, d, s);
                        assert(at(s, best_r as int, best_c as int) == d);
                        assert(false);
                    }
                }
            }
        }
        d += 1;
    }

    // All nine digits are ruled out at an empty cell: no solution exists.
    proof {
        assert(!solvable(g0)) by {
            if solvable(g0) {
                let s = choose|s: Seq<u8>| is_solution_of(s, g0);
                assert(is_solution_of(s, g0));
                assert(1 <= at(s, best_r as int, best_c as int) <= 9);
                assert(1 <= s[i0] <= 9);
                assert(false);
            }
        }
    }
    false
}

/// True iff no placed digit of the board repeats in its row, column or box.
pub fn is_consistent(board: &Board) -> (b: bool)
    requires
        board.wf(),
    ensures
        b == consistent(board@),
{
    match ConstraintSet::build(board) {
        Some(_) => true,
        None => false,
    }
}

/// Solve the puzzle: returns a fully and validly filled grid that keeps
/// every clue of the input, exactly when such a completion exists; otherwise
/// reports that no solution exists. Clashing clues (the same digit twice in
/// a row, column or box) are rejected as unsolvable, and a board that is
/// already completely and validly filled comes back unchanged.
pub fn solve(board: Board) -> (result: Result<Board, NoSolutionError>)
    requires
        board.wf(),
    ensures
        result matches Ok(sol) ==> sol.wf() && is_solution_of(sol@, board@),
        result is Err ==> !solvable(board@),
        result is Ok <==> solvable(board@),
        full(board@) ==> (result matches Ok(sol) ==> sol@ == board@),
{
    let mut b = board;
    match ConstraintSet::build(&b) {
        None => Err(NoSolutionError),
        Some(mut cs) => {
            let found = search(&mut b, &mut cs);
            if found {
                proof {
                    assert(is_solution_of(b@, board@));
                    assert(solvable(board@));
                    if full(board@) {
                        crate::board::lemma_full_extension_identical(board@, b@);
                    }
                }
                Ok(b)
            } else {
                Err(NoSolutionError)
            }
        },
    }
}

} // verus!
