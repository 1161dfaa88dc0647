//! The board model: a 9x9 grid of digits stored row-major, and the
//! specification of what it means for a grid to be a valid Sudoku solution.

use vstd::prelude::*;

verus! {

/// Flat index of cell (r, c) in a row-major 81-cell grid.
pub open spec fn idx(r: int, c: int) -> int {
    r * 9 + c
}

/// Index of the 3x3 box that cell (r, c) belongs to.
pub open spec fn box_of(r: int, c: int) -> int {
    (r / 3) * 3 + c / 3
}

/// Digit at cell (r, c).
pub open spec fn at(g: Seq<u8>, r: int, c: int) -> u8 {
    g[idx(r, c)]
}

/// A well-formed grid: 81 cells, each either 0 (empty) or a digit 1..=9.
pub open spec fn grid_wf(g: Seq<u8>) -> bool {
    g.len() == 81 && (forall|i: int| 0 <= i < 81 ==> #[trigger] g[i] <= 9)
}

/// Every cell holds a digit 1..=9.
pub open spec fn complete(g: Seq<u8>) -> bool {
    forall|r: int, c: int| 0 <= r < 9 && 0 <= c < 9 ==> 1 <= #[trigger] at(g, r, c) <= 9
}

/// No cell is empty.
pub open spec fn full(g: Seq<u8>) -> bool {
    forall|r: int, c: int| 0 <= r < 9 && 0 <= c < 9 ==> #[trigger] at(g, r, c) != 0
}

/// No row holds the same non-zero digit twice.
pub open spec fn rows_ok(g: Seq<u8>) -> bool {
    forall|r: int, c1: int, c2: int|
        0 <= r < 9 && 0 <= c1 < 9 && 0 <= c2 < 9 && c1 != c2 && #[trigger] at(g, r, c1) != 0
            ==> at(g, r, c1) != #[trigger] at(g, r, c2)
}

/// No column holds the same non-zero digit twice.
pub open spec fn cols_ok(g: Seq<u8>) -> bool {
    forall|c: int, r1: int, r2: int|
        0 <= c < 9 && 0 <= r1 < 9 && 0 <= r2 < 9 && r1 != r2 && #[trigger] at(g, r1, c) != 0
            ==> at(g, r1, c) != #[trigger] at(g, r2, c)
}

/// No 3x3 box holds the same non-zero digit twice.
pub open spec fn boxes_ok(g: Seq<u8>) -> bool {
    forall|r1: int, c1: int, r2: int, c2: int|
        0 <= r1 < 9 && 0 <= c1 < 9 && 0 <= r2 < 9 && 0 <= c2 < 9
            && !(r1 == r2 && c1 == c2)
            && box_of(r1, c1) == box_of(r2, c2)
            && #[trigger] at(g, r1, c1) != 0
            ==> at(g, r1, c1) != #[trigger] at(g, r2, c2)
}

/// The row, column and box constraints all hold of the placed digits.
pub open spec fn consistent(g: Seq<u8>) -> bool {
    rows_ok(g) && cols_ok(g) && boxes_ok(g)
}

/// s keeps every clue (non-zero cell) of g.
pub open spec fn extends(s: Seq<u8>, g: Seq<u8>) -> bool {
    forall|r: int, c: int|
        0 <= r < 9 && 0 <= c < 9 && #[trigger] at(g, r, c) != 0 ==> at(s, r, c) == at(g, r, c)
}

/// s is a solution of the puzzle g: a fully and validly filled grid that
/// keeps every clue of g.
pub open spec fn is_solution_of(s: Seq<u8>, g: Seq<u8>) -> bool {
    s.len() == 81 && complete(s) && consistent(s) && extends(s, g)
}

/// The puzzle g has at least one solution.
pub open spec fn solvable(g: Seq<u8>) -> bool {
    exists|s: Seq<u8>| is_solution_of(s, g)
}

/// Digit d is present somewhere in row r.
pub open spec fn row_has(g: Seq<u8>, r: int, d: u8) -> bool {
    exists|c: int| 0 <= c < 9 && #[trigger] at(g, r, c) == d
}

/// Digit d is present somewhere in column c.
pub open spec fn col_has(g: Seq<u8>, c: int, d: u8) -> bool {
    exists|r: int| 0 <= r < 9 && #[trigger] at(g, r, c) == d
}

/// Digit d is present somewhere in box b.
pub open spec fn box_has(g: Seq<u8>, b: int, d: u8) -> bool {
    exists|r: int, c: int|
        0 <= r < 9 && 0 <= c < 9 && box_of(r, c) == b && #[trigger] at(g, r, c) == d
}

/// Digit d can go at cell (r, c) without repeating in its row, column or box.
pub open spec fn digit_legal(g: Seq<u8>, r: int, c: int, d: u8) -> bool {
    !row_has(g, r, d) && !col_has(g, c, d) && !box_has(g, box_of(r, c), d)
}

/// The all-empty grid.
pub open spec fn empty_grid() -> Seq<u8> {
    Seq::new(81, |i: int| 0u8)
}

/// Updating one cell changes that cell and no other.
pub broadcast proof fn lemma_at_update(g: Seq<u8>, r: int, c: int, v: u8, r2: int, c2: int)
    requires
        g.len() == 81,
        0 <= r < 9,
        0 <= c < 9,
        0 <= r2 < 9,
        0 <= c2 < 9,
    ensures
        #[trigger] at(g.update(idx(r, c), v), r2, c2) == (if r2 == r && c2 == c {
            v
        } else {
            at(g, r2, c2)
        }),
{
    assert(0 <= idx(r, c) < 81);
    assert(0 <= idx(r2, c2) < 81);
    if !(r2 == r && c2 == c) {
        assert(idx(r2, c2) != idx(r, c));
    }
}

/// g with every cell at flat index >= n cleared to 0.
pub open spec fn prefix_grid(g: Seq<u8>, n: int) -> Seq<u8> {
    Seq::new(81, |i: int| if 0 <= i < n { g[i] } else { 0u8 })
}

/// Number of empty cells among the first n cells.
pub open spec fn empties_upto(g: Seq<u8>, n: int) -> nat
    decreases n,
{
    if n <= 0 {
        0
    } else {
        empties_upto(g, n - 1) + (if g[n - 1] == 0 {
            1nat
        } else {
            0nat
        })
    }
}

/// Number of empty cells of the grid.
pub open spec fn empties(g: Seq<u8>) -> nat {
    empties_upto(g, 81)
}

/// Two grids equal on their first n cells have the same empty count there.
pub proof fn lemma_empties_upto_agree(a: Seq<u8>, b: Seq<u8>, n: int)
    requires
        n <= a.len(),
        n <= b.len(),
        forall|j: int| 0 <= j < n ==> a[j] == b[j],
    ensures
        empties_upto(a, n) == empties_upto(b, n),
    decreases n,
{
    if n > 0 {
        lemma_empties_upto_agree(a, b, n - 1);
    }
}

/// Filling an empty cell lowers the empty count by one.
pub proof fn lemma_empties_update(g: Seq<u8>, i: int, v: u8, n: int)
    requires
        0 <= i < n <= 81,
        g.len() == 81,
        g[i] == 0,
        v != 0,
    ensures
        empties_upto(g.update(i, v), n) == empties_upto(g, n) - 1,
    decreases n,
{
    let g2 = g.update(i, v);
    if i == n - 1 {
        lemma_empties_upto_agree(g, g2, n - 1);
    } else {
        lemma_empties_update(g, i, v, n - 1);
    }
}

/// Placing digit d at an empty cell of row r adds d to that row's digits and
/// changes no other row's.
pub proof fn lemma_row_has_place(g: Seq<u8>, r: int, c: int, d: u8, u: int, e: u8)
    requires
        g.len() == 81,
        0 <= r < 9,
        0 <= c < 9,
        0 <= u < 9,
        at(g, r, c) == 0,
        1 <= d <= 9,
        1 <= e <= 9,
    ensures
        row_has(g.update(idx(r, c), d), u, e) <==> (row_has(g, u, e) || (u == r && e == d)),
{
    broadcast use lemma_at_update;

    let g2 = g.update(idx(r, c), d);
    if row_has(g2, u, e) {
        let c2 = choose|c2: int| 0 <= c2 < 9 && at(g2, u, c2) == e;
        if !(u == r && c2 == c) {
            assert(at(g, u, c2) == e);
        }
    }
    if row_has(g, u, e) {
        let c2 = choose|c2: int| 0 <= c2 < 9 && at(g, u, c2) == e;
        assert(at(g2, u, c2) == e);
    }
    if u == r && e == d {
        assert(at(g2, u, c) == e);
    }
}

/// Clearing the one cell of row r that holds d removes d from that row's
/// digits and changes no other row's.
pub proof fn lemma_row_has_remove(g: Seq<u8>, r: int, c: int, d: u8, u: int, e: u8)
    requires
        g.len() == 81,
        rows_ok(g),
        0 <= r < 9,
        0 <= c < 9,
        0 <= u < 9,
        at(g, r, c) == d,
        1 <= d <= 9,
        1 <= e <= 9,
    ensures
        row_has(g.update(idx(r, c), 0), u, e) <==> (row_has(g, u, e) && !(u == r && e == d)),
{
    broadcast use lemma_at_update;

    let g2 = g.update(idx(r, c), 0);
    if row_has(g2, u, e) {
        let c2 = choose|c2: int| 0 <= c2 < 9 && at(g2, u, c2) == e;
        assert(at(g, u, c2) == e);
        if u == r && e == d {
            assert(at(g, r, c2) == d && at(g, r, c) == d && c2 != c);
            assert(false);
        }
    }
    if row_has(g, u, e) && !(u == r && e == d) {
        let c2 = choose|c2: int| 0 <= c2 < 9 && at(g, u, c2) == e;
        assert(at(g2, u, c2) == e);
    }
}

/// Placing digit d at an empty cell of column c adds d to that column's
/// digits and changes no other column's.
pub proof fn lemma_col_has_place(g: Seq<u8>, r: int, c: int, d: u8, u: int, e: u8)
    requires
        g.len() == 81,
        0 <= r < 9,
        0 <= c < 9,
        0 <= u < 9,
        at(g, r, c) == 0,
        1 <= d <= 9,
        1 <= e <= 9,
    ensures
        col_has(g.update(idx(r, c), d), u, e) <==> (col_has(g, u, e) || (u == c && e == d)),
{
    broadcast use lemma_at_update;

    let g2 = g.update(idx(r, c), d);
    if col_has(g2, u, e) {
        let r2 = choose|r2: int| 0 <= r2 < 9 && at(g2, r2, u) == e;
        if !(r2 == r && u == c) {
            assert(at(g, r2, u) == e);
        }
    }
    if col_has(g, u, e) {
        let r2 = choose|r2: int| 0 <= r2 < 9 && at(g, r2, u) == e;
        assert(at(g2, r2, u) == e);
    }
    if u == c && e == d {
        assert(at(g2, r, u) == e);
    }
}

/// Clearing the one cell of column c that holds d removes d from that
/// column's digits and changes no other column's.
pub proof fn lemma_col_has_remove(g: Seq<u8>, r: int, c: int, d: u8, u: int, e: u8)
    requires
        g.len() == 81,
        cols_ok(g),
        0 <= r < 9,
        0 <= c < 9,
        0 <= u < 9,
        at(g, r, c) == d,
        1 <= d <= 9,
        1 <= e <= 9,
    ensures
        col_has(g.update(idx(r, c), 0), u, e) <==> (col_has(g, u, e) && !(u == c && e == d)),
{
    broadcast use lemma_at_update;

    let g2 = g.update(idx(r, c), 0);
    if col_has(g2, u, e) {
        let r2 = choose|r2: int| 0 <= r2 < 9 && at(g2, r2, u) == e;
        assert(at(g, r2, u) == e);
        if u == c && e == d {
            assert(at(g, r2, c) == d && at(g, r, c) == d && r2 != r);
            assert(false);
        }
    }
    if col_has(g, u, e) && !(u == c && e == d) {
        let r2 = choose|r2: int| 0 <= r2 < 9 && at(g, r2, u) == e;
        assert(at(g2, r2, u) == e);
    }
}

/// Placing digit d at an empty cell adds d to its box's digits and changes
/// no other box's.
pub proof fn lemma_box_has_place(g: Seq<u8>, r: int, c: int, d: u8, u: int, e: u8)
    requires
        g.len() == 81,
        0 <= r < 9,
        0 <= c < 9,
        0 <= u < 9,
        at(g, r, c) == 0,
        1 <= d <= 9,
        1 <= e <= 9,
    ensures
        box_has(g.update(idx(r, c), d), u, e) <==> (box_has(g, u, e) || (u == box_of(r, c) && e
            == d)),
{
    broadcast use lemma_at_update;

    let g2 = g.update(idx(r, c), d);
    if box_has(g2, u, e) {
        let (r2, c2) = choose|r2: int, c2: int|
            0 <= r2 < 9 && 0 <= c2 < 9 && box_of(r2, c2) == u && at(g2, r2, c2) == e;
        if !(r2 == r && c2 == c) {
            assert(at(g, r2, c2) == e);
        }
    }
    if box_has(g, u, e) {
        let (r2, c2) = choose|r2: int, c2: int|
            0 <= r2 < 9 && 0 <= c2 < 9 && box_of(r2, c2) == u && at(g, r2, c2) == e;
        assert(at(g2, r2, c2) == e);
    }
    if u == box_of(r, c) && e == d {
        assert(at(g2, r, c) == e);
    }
}

/// Clearing the one cell of a box that holds d removes d from that box's
/// digits and changes no other box's.
pub proof fn lemma_box_has_remove(g: Seq<u8>, r: int, c: int, d: u8, u: int, e: u8)
    requires
        g.len() == 81,
        boxes_ok(g),
        0 <= r < 9,
        0 <= c < 9,
        0 <= u < 9,
        at(g, r, c) == d,
        1 <= d <= 9,
        1 <= e <= 9,
    ensures
        box_has(g.update(idx(r, c), 0), u, e) <==> (box_has(g, u, e) && !(u == box_of(r, c) && e
            == d)),
{
    broadcast use lemma_at_update;

    let g2 = g.update(idx(r, c), 0);
    if box_has(g2, u, e) {
        let (r2, c2) = choose|r2: int, c2: int|
            0 <= r2 < 9 && 0 <= c2 < 9 && box_of(r2, c2) == u && at(g2, r2, c2) == e;
        assert(at(g, r2, c2) == e);
        if u == box_of(r, c) && e == d {
            assert(at(g, r2, c2) == d && at(g, r, c) == d && !(r2 == r && c2 == c));
            assert(false);
        }
    }
    if box_has(g, u, e) && !(u == box_of(r, c) && e == d) {
        let (r2, c2) = choose|r2: int, c2: int|
            0 <= r2 < 9 && 0 <= c2 < 9 && box_of(r2, c2) == u && at(g, r2, c2) == e;
        assert(at(g2, r2, c2) == e);
    }
}

/// Placing a digit that does not repeat in its row, column or box keeps the
/// grid consistent.
pub proof fn lemma_place_consistent(g: Seq<u8>, r: int, c: int, d: u8)
    requires
        grid_wf(g),
        consistent(g),
        0 <= r < 9,
        0 <= c < 9,
        1 <= d <= 9,
        at(g, r, c) == 0,
        digit_legal(g, r, c, d),
    ensures
        consistent(g.update(idx(r, c), d)),
{
    broadcast use lemma_at_update;

    let g2 = g.update(idx(r, c), d);
    assert forall|rr: int, c1: int, c2: int|
        0 <= rr < 9 && 0 <= c1 < 9 && 0 <= c2 < 9 && c1 != c2 && #[trigger] at(g2, rr, c1)
            != 0 implies at(g2, rr, c1) != #[trigger] at(g2, rr, c2) by {
        if rr == r && c1 == c {
            if at(g2, rr, c2) == d {
                assert(at(g, rr, c2) == d);
                assert(row_has(g, r, d));
            }
        } else if rr == r && c2 == c {
            if at(g, rr, c1) == d {
                assert(row_has(g, r, d));
            }
        }
    }
    assert forall|cc: int, r1: int, r2: int|
        0 <= cc < 9 && 0 <= r1 < 9 && 0 <= r2 < 9 && r1 != r2 && #[trigger] at(g2, r1, cc)
            != 0 implies at(g2, r1, cc) != #[trigger] at(g2, r2, cc) by {
        if r1 == r && cc == c {
            if at(g2, r2, cc) == d {
                assert(at(g, r2, cc) == d);
                assert(col_has(g, c, d));
            }
        } else if r2 == r && cc == c {
            if at(g, r1, cc) == d {
                assert(col_has(g, c, d));
            }
        }
    }
    assert forall|r1: int, c1: int, r2: int, c2: int|
        0 <= r1 < 9 && 0 <= c1 < 9 && 0 <= r2 < 9 && 0 <= c2 < 9 && !(r1 == r2 && c1 == c2)
            && box_of(r1, c1) == box_of(r2, c2) && #[trigger] at(g2, r1, c1) != 0 implies at(
        g2,
        r1,
        c1,
    ) != #[trigger] at(g2, r2, c2) by {
        if r1 == r && c1 == c {
            if at(g2, r2, c2) == d {
                assert(at(g, r2, c2) == d);
                assert(box_has(g, box_of(r, c), d));
            }
        } else if r2 == r && c2 == c {
            if at(g, r1, c1) == d {
                assert(box_has(g, box_of(r, c), d));
            }
        }
    }
}

/// Two equal digits in one row leave the puzzle without any solution.
pub proof fn lemma_row_duplicate_unsolvable(g: Seq<u8>, r: int, c1: int, c2: int)
    requires
        g.len() == 81,
        0 <= r < 9,
        0 <= c1 < 9,
        0 <= c2 < 9,
        c1 != c2,
        at(g, r, c1) != 0,
        at(g, r, c1) == at(g, r, c2),
    ensures
        !solvable(g),
{
    if solvable(g) {
        let s = choose|s: Seq<u8>| is_solution_of(s, g);
        assert(is_solution_of(s, g));
        assert(at(s, r, c1) == at(g, r, c1));
        assert(at(s, r, c2) == at(g, r, c2));
        assert(false);
    }
}

/// Two equal digits in one column leave the puzzle without any solution.
pub proof fn lemma_col_duplicate_unsolvable(g: Seq<u8>, c: int, r1: int, r2: int)
    requires
        g.len() == 81,
        0 <= c < 9,
        0 <= r1 < 9,
        0 <= r2 < 9,
        r1 != r2,
        at(g, r1, c) != 0,
        at(g, r1, c) == at(g, r2, c),
    ensures
        !solvable(g),
{
    if solvable(g) {
        let s = choose|s: Seq<u8>| is_solution_of(s, g);
        assert(is_solution_of(s, g));
        assert(at(s, r1, c) == at(g, r1, c));
        assert(at(s, r2, c) == at(g, r2, c));
        assert(false);
    }
}

/// Two equal digits in one 3x3 box leave the puzzle without any solution.
pub proof fn lemma_box_duplicate_unsolvable(g: Seq<u8>, r1: int, c1: int, r2: int, c2: int)
    requires
        g.len() == 81,
        0 <= r1 < 9,
        0 <= c1 < 9,
        0 <= r2 < 9,
        0 <= c2 < 9,
        !(r1 == r2 && c1 == c2),
        box_of(r1, c1) == box_of(r2, c2),
        at(g, r1, c1) != 0,
        at(g, r1, c1) == at(g, r2, c2),
    ensures
        !solvable(g),
{
    if solvable(g) {
        let s = choose|s: Seq<u8>| is_solution_of(s, g);
        assert(is_solution_of(s, g));
        assert(at(s, r1, c1) == at(g, r1, c1));
        assert(at(s, r2, c2) == at(g, r2, c2));
        assert(false);
    }
}

/// A digit placed at cell (r, c) that clashes with a cell at a smaller flat
/// index of its row, column or box makes the grid inconsistent and the
/// puzzle unsolvable.
pub proof fn lemma_conflict_found(g: Seq<u8>, r: int, c: int, d: u8)
    requires
        grid_wf(g),
        0 <= r < 9,
        0 <= c < 9,
        1 <= d <= 9,
        at(g, r, c) == d,
        !digit_legal(prefix_grid(g, idx(r, c)), r, c, d),
    ensures
        !consistent(g),
        !solvable(g),
{
    let i = idx(r, c);
    let gp = prefix_grid(g, i);
    assert(0 <= i < 81);
    if row_has(gp, r, d) {
        let c2 = choose|c2: int| 0 <= c2 < 9 && at(gp, r, c2) == d;
        assert(0 <= idx(r, c2) < 81);
        assert(at(g, r, c2) == d && idx(r, c2) < i);
        assert(c2 != c);
        lemma_row_duplicate_unsolvable(g, r, c, c2);
        assert(!rows_ok(g));
    } else if col_has(gp, c, d) {
        let r2 = choose|r2: int| 0 <= r2 < 9 && at(gp, r2, c) == d;
        assert(0 <= idx(r2, c) < 81);
        assert(at(g, r2, c) == d && idx(r2, c) < i);
        assert(r2 != r);
        lemma_col_duplicate_unsolvable(g, c, r, r2);
        assert(!cols_ok(g));
    } else {
        assert(box_has(gp, box_of(r, c), d));
        let (r2, c2) = choose|r2: int, c2: int|
            0 <= r2 < 9 && 0 <= c2 < 9 && box_of(r2, c2) == box_of(r, c) && at(gp, r2, c2) == d;
        assert(0 <= idx(r2, c2) < 81);
        assert(at(g, r2, c2) == d && idx(r2, c2) < i);
        assert(!(r2 == r && c2 == c));
        lemma_box_duplicate_unsolvable(g, r, c, r2, c2);
        assert(!boxes_ok(g));
    }
}

/// Well-formedness carries over to the cleared-suffix grid.
pub proof fn lemma_prefix_wf(g: Seq<u8>, n: int)
    requires
        grid_wf(g),
    ensures
        grid_wf(prefix_grid(g, n)),
{
    assert forall|j: int| 0 <= j < 81 implies #[trigger] prefix_grid(g, n)[j] <= 9 by {
        if 0 <= j < n {
            assert(g[j] <= 9);
        }
    }
}

/// A fully filled puzzle admits only itself as a candidate: anything that
/// keeps all its clues equals it.
pub proof fn lemma_full_extension_identical(g: Seq<u8>, s: Seq<u8>)
    requires
        g.len() == 81,
        s.len() == 81,
        full(g),
        extends(s, g),
    ensures
        s == g,
{
    assert forall|j: int| 0 <= j < 81 implies s[j] == g[j] by {
        let r = j / 9;
        let c = j % 9;
        assert(idx(r, c) == j && 0 <= r < 9 && 0 <= c < 9);
        assert(at(g, r, c) != 0);
        assert(at(s, r, c) == at(g, r, c));
    }
    assert(s =~= g);
}

/// In a complete and consistent grid, every row contains each digit 1..=9
/// exactly once.
/// Nine pairwise distinct values, each in 1..=9, must include every digit
/// of 1..=9.
#[verifier::rlimit(100)]
proof fn lemma_nine_distinct_digits_cover(v: Seq<int>, d: int)
    requires
        v.len() == 9,
        forall|i: int| 0 <= i < 9 ==> 1 <= #[trigger] v[i] <= 9,
        forall|i: int, j: int|
            0 <= i < 9 && 0 <= j < 9 && i != j ==> #[trigger] v[i] != #[trigger] v[j],
        1 <= d <= 9,
    ensures
        exists|i: int| 0 <= i < 9 && #[trigger] v[i] == d,
{
    broadcast use vstd::set::group_set_axioms;

    if !(exists|i: int| 0 <= i < 9 && #[trigger] v[i] == d) {
        let s1 = Set::empty().insert(v[0]);
        let s2 = s1.insert(v[1]);
        let s3 = s2.insert(v[2]);
        let s4 = s3.insert(v[3]);
        let s5 = s4.insert(v[4]);
        let s6 = s5.insert(v[5]);
        let s7 = s6.insert(v[6]);
        let s8 = s7.insert(v[7]);
        let s9 = s8.insert(v[8]);
        assert(s1.len() == 1);
        assert(s2.len() == 2);
        assert(s3.len() == 3);
        assert(s4.len() == 4);
        assert(s5.len() == 5);
        assert(s6.len() == 6);
        assert(s7.len() == 7);
        assert(s8.len() == 8);
        assert(s9.len() == 9);
        let target = vstd::set_lib::set_int_range(1, 10).remove(d);
        vstd::set_lib::lemma_int_range(1, 10);
        assert(target.len() == 9 - 1);
        assert forall|x: int| s9.contains(x) implies target.contains(x) by {}
        vstd::set_lib::lemma_len_subset(s9, target);
        assert(false);
    }
}

/// In a complete and consistent grid, every row contains each digit 1..=9
/// exactly once.
pub proof fn lemma_row_digits_exactly_once(g: Seq<u8>, r: int, d: u8)
    requires
        g.len() == 81,
        complete(g),
        consistent(g),
        0 <= r < 9,
        1 <= d <= 9,
    ensures
        row_has(g, r, d),
        forall|c1: int, c2: int|
            0 <= c1 < 9 && 0 <= c2 < 9 && #[trigger] at(g, r, c1) == d && #[trigger] at(g, r, c2)
                == d ==> c1 == c2,
{
    let v = Seq::new(9, |c: int| at(g, r, c) as int);
    assert forall|i: int, j: int|
        0 <= i < 9 && 0 <= j < 9 && i != j implies #[trigger] v[i] != #[trigger] v[j] by {
        assert(at(g, r, i) != 0);
        assert(at(g, r, i) != at(g, r, j));
    }
    lemma_nine_distinct_digits_cover(v, d as int);
    let c = choose|i: int| 0 <= i < 9 && v[i] == d as int;
    assert(at(g, r, c) == d);
}

/// In a complete and consistent grid, every column contains each digit
/// 1..=9 exactly once.
pub proof fn lemma_col_digits_exactly_once(g: Seq<u8>, c: int, d: u8)
    requires
        g.len() == 81,
        complete(g),
        consistent(g),
        0 <= c < 9,
        1 <= d <= 9,
    ensures
        col_has(g, c, d),
        forall|r1: int, r2: int|
            0 <= r1 < 9 && 0 <= r2 < 9 && #[trigger] at(g, r1, c) == d && #[trigger] at(g, r2, c)
                == d ==> r1 == r2,
{
    let v = Seq::new(9, |r: int| at(g, r, c) as int);
    assert forall|i: int, j: int|
        0 <= i < 9 && 0 <= j < 9 && i != j implies #[trigger] v[i] != #[trigger] v[j] by {
        assert(at(g, i, c) != 0);
        assert(at(g, i, c) != at(g, j, c));
    }
    lemma_nine_distinct_digits_cover(v, d as int);
    let r = choose|i: int| 0 <= i < 9 && v[i] == d as int;
    assert(at(g, r, c) == d);
}

/// In a complete and consistent grid, every 3x3 box contains each digit
/// 1..=9 exactly once.
pub proof fn lemma_box_digits_exactly_once(g: Seq<u8>, b: int, d: u8)
    requires
        g.len() == 81,
        complete(g),
        consistent(g),
        0 <= b < 9,
        1 <= d <= 9,
    ensures
        box_has(g, b, d),
        forall|r1: int, c1: int, r2: int, c2: int|
            0 <= r1 < 9 && 0 <= c1 < 9 && 0 <= r2 < 9 && 0 <= c2 < 9 && box_of(r1, c1) == b
                && box_of(r2, c2) == b && #[trigger] at(g, r1, c1) == d && #[trigger] at(
                g,
                r2,
                c2,
            ) == d ==> r1 == r2 && c1 == c2,
{
    let br = 3 * (b / 3);
    let bc = 3 * (b % 3);
    let v = Seq::new(9, |k: int| at(g, br + k / 3, bc + k % 3) as int);
    assert forall|i: int, j: int|
        0 <= i < 9 && 0 <= j < 9 && i != j implies #[trigger] v[i] != #[trigger] v[j] by {
        let r1 = br + i / 3;
        let c1 = bc + i % 3;
        let r2 = br + j / 3;
        let c2 = bc + j % 3;
        assert(0 <= r1 < 9 && 0 <= c1 < 9 && 0 <= r2 < 9 && 0 <= c2 < 9);
        assert(box_of(r1, c1) == b);
        assert(box_of(r2, c2) == b);
        assert(!(r1 == r2 && c1 == c2));
        assert(at(g, r1, c1) != 0);
        assert(at(g, r1, c1) != at(g, r2, c2));
    }
    lemma_nine_distinct_digits_cover(v, d as int);
    let k = choose|i: int| 0 <= i < 9 && v[i] == d as int;
    assert(at(g, br + k / 3, bc + k % 3) == d);
    assert(box_of(br + k / 3, bc + k % 3) == b);
    assert(0 <= br + k / 3 < 9 && 0 <= bc + k % 3 < 9);
}

/// A 9x9 Sudoku board; 0 marks an empty cell.
#[derive(Debug, PartialEq, Eq)]
pub struct Board {
    cells: Vec<u8>,
}

impl View for Board {
    type V = Seq<u8>;

    closed spec fn view(&self) -> Seq<u8> {
        self.cells@
    }
}

impl Board {
    /// The stored grid is well-formed.
    pub open spec fn wf(self) -> bool {
        grid_wf(self@)
    }

    /// An all-empty board.
    pub fn new() -> (b: Board)
        ensures
            b.wf(),
            b@ == empty_grid(),
    {
        let mut cells: Vec<u8> = Vec::new();
        let mut i: usize = 0;
        while i < 81
            invariant
                i <= 81,
                cells@.len() == i,
                forall|j: int| 0 <= j < i ==> #[trigger] cells@[j] == 0,
            decreases 81 - i,
        {
            cells.push(0);
            i += 1;
        }
        let b = Board { cells };
        assert(b@ =~= empty_grid());
        b
    }

    /// A board from 81 row-major cell values; rejects a wrong length or a
    /// value outside 0..=9.
    pub fn from_cells(cells: Vec<u8>) -> (r: Option<Board>)
        ensures
            r is Some <==> grid_wf(cells@),
            r matches Some(b) ==> b@ == cells@ && b.wf(),
    {
        if cells.len() != 81 {
            return None;
        }
        let mut i: usize = 0;
        while i < 81
            invariant
                i <= 81,
                cells@.len() == 81,
                forall|j: int| 0 <= j < i ==> #[trigger] cells@[j] <= 9,
            decreases 81 - i,
        {
            if cells[i] > 9 {
                return None;
            }
            i += 1;
        }
        Some(Board { cells })
    }

    /// The digit at cell (r, c).
    pub fn get(&self, r: usize, c: usize) -> (d: u8)
        requires
            self.wf(),
            r < 9,
            c < 9,
        ensures
            d == at(self@, r as int, c as int),
            d <= 9,
    {
        self.cells[r * 9 + c]
    }

    /// True iff no cell is empty.
    pub fn is_filled(&self) -> (b: bool)
        requires
            self.wf(),
        ensures
            b == full(self@),
    {
        let mut r: usize = 0;
        while r < 9
            invariant
                self.wf(),
                r <= 9,
                forall|rr: int, cc: int|
                    0 <= rr < r && 0 <= cc < 9 ==> #[trigger] at(self@, rr, cc) != 0,
            decreases 9 - r,
        {
            let mut c: usize = 0;
            while c < 9
                invariant
                    self.wf(),
                    r < 9,
                    c <= 9,
                    forall|rr: int, cc: int|
                        0 <= rr < r && 0 <= cc < 9 ==> #[trigger] at(self@, rr, cc) != 0,
                    forall|cc: int| 0 <= cc < c ==> #[trigger] at(self@, r as int, cc) != 0,
                decreases 9 - c,
            {
                if self.get(r, c) == 0 {
                    return false;
                }
                c += 1;
            }
            r += 1;
        }
        true
    }

    /// Write digit d at cell (r, c).
    pub fn set_cell(&mut self, r: usize, c: usize, d: u8)
        requires
            old(self).wf(),
            r < 9,
            c < 9,
            d <= 9,
        ensures
            final(self).wf(),
            final(self)@ == old(self)@.update(idx(r as int, c as int), d),
    {
        let i = r * 9 + c;
        self.cells[i] = d;
    }
}

} // verus!
