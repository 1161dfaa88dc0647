//! The constraint set: one bitmask per row, column and 3x3 box, recording the
//! digits already placed there, with constant-time legality checks and
//! constant-time updates kept in lockstep with the board.

use vstd::prelude::*;

use crate::board::Board;
use crate::board::at;
use crate::board::box_has;
use crate::board::box_of;
use crate::board::col_has;
use crate::board::consistent;
use crate::board::digit_legal;
use crate::board::empty_grid;
use crate::board::grid_wf;
use crate::board::idx;
use crate::board::lemma_at_update;
use crate::board::lemma_conflict_found;
use crate::board::lemma_prefix_wf;
use crate::board::lemma_box_has_place;
use crate::board::lemma_box_has_remove;
use crate::board::lemma_col_has_place;
use crate::board::lemma_col_has_remove;
use crate::board::lemma_place_consistent;
use crate::board::lemma_row_has_place;
use crate::board::lemma_row_has_remove;
use crate::board::prefix_grid;
use crate::board::row_has;

verus! {

/// Bit d of mask m is set.
pub open spec fn has_bit(m: u32, d: u8) -> bool {
    m & (1u32 << (d as u32)) != 0
}

/// Setting bit d sets exactly that bit.
proof fn lemma_bit_or(m: u32, d: u8, e: u8)
    requires
        1 <= d <= 9,
        1 <= e <= 9,
    ensures
        has_bit(m | (1u32 << (d as u32)), e) <==> (has_bit(m, e) || e == d),
{
    assert(((m | (1u32 << (d as u32))) & (1u32 << (e as u32)) != 0) <==> ((m & (1u32 << (
    e as u32)) != 0) || e == d)) by (bit_vector)
        requires
            1 <= d <= 9 && 1 <= e <= 9,
    ;
}

/// Clearing bit d clears exactly that bit.
proof fn lemma_bit_clear(m: u32, d: u8, e: u8)
    requires
        1 <= d <= 9,
        1 <= e <= 9,
    ensures
        has_bit(m & !(1u32 << (d as u32)), e) <==> (has_bit(m, e) && e != d),
{
    assert(((m & !(1u32 << (d as u32))) & (1u32 << (e as u32)) != 0) <==> ((m & (1u32 << (
    e as u32)) != 0) && e != d)) by (bit_vector)
        requires
            1 <= d <= 9 && 1 <= e <= 9,
    ;
}

/// The zero mask has no bit set.
proof fn lemma_bit_zero(e: u8)
    requires
        1 <= e <= 9,
    ensures
        !has_bit(0u32, e),
{
    assert(0u32 & (1u32 << (e as u32)) == 0) by (bit_vector);
}

/// One digit mask per row, per column and per 3x3 box.
pub struct ConstraintSet {
    rows: Vec<u32>,
    cols: Vec<u32>,
    boxes: Vec<u32>,
}

impl ConstraintSet {
    /// The mask of row u.
    pub closed spec fn row_mask(self, u: int) -> u32 {
        self.rows@[u]
    }

    /// The mask of column u.
    pub closed spec fn col_mask(self, u: int) -> u32 {
        self.cols@[u]
    }

    /// The mask of box u.
    pub closed spec fn box_mask(self, u: int) -> u32 {
        self.boxes@[u]
    }

    /// Nine masks of each kind.
    pub closed spec fn masks_wf(self) -> bool {
        self.rows@.len() == 9 && self.cols@.len() == 9 && self.boxes@.len() == 9
    }

    /// Each mask records exactly the digits placed in its row, column or box
    /// of the grid g.
    pub open spec fn matches(self, g: Seq<u8>) -> bool {
        &&& self.masks_wf()
        &&& g.len() == 81
        &&& forall|u: int, e: u8|
            0 <= u < 9 && 1 <= e <= 9 ==> (#[trigger] has_bit(self.row_mask(u), e) <==> row_has(
                g,
                u,
                e,
            ))
        &&& forall|u: int, e: u8|
            0 <= u < 9 && 1 <= e <= 9 ==> (#[trigger] has_bit(self.col_mask(u), e) <==> col_has(
                g,
                u,
                e,
            ))
        &&& forall|u: int, e: u8|
            0 <= u < 9 && 1 <= e <= 9 ==> (#[trigger] has_bit(self.box_mask(u), e) <==> box_has(
                g,
                u,
                e,
            ))
    }

    /// Digit d is absent from the masks of row r, of column c and of the box
    /// of (r, c).
    pub open spec fn legal_by_masks(self, r: int, c: int, d: u8) -> bool {
        &&& !has_bit(self.row_mask(r), d)
        &&& !has_bit(self.col_mask(c), d)
        &&& !has_bit(self.box_mask(box_of(r, c)), d)
    }

    /// When the masks match g, the mask test is exactly semantic legality.
    pub proof fn lemma_legal_semantics(self, g: Seq<u8>, r: int, c: int, d: u8)
        requires
            self.matches(g),
            0 <= r < 9,
            0 <= c < 9,
            1 <= d <= 9,
        ensures
            self.legal_by_masks(r, c, d) <==> digit_legal(g, r, c, d),
    {
        assert(0 <= box_of(r, c) < 9);
    }

    /// Masks with nothing placed: they match the all-empty grid.
    pub fn empty() -> (cs: ConstraintSet)
        ensures
            cs.matches(empty_grid()),
    {
        let cs = ConstraintSet { rows: zeros9(), cols: zeros9(), boxes: zeros9() };
        proof {
            assert(empty_grid().len() == 81);
            assert forall|r: int, c: int| 0 <= r < 9 && 0 <= c < 9 implies #[trigger] at(
                empty_grid(),
                r,
                c,
            ) == 0 by {
                assert(0 <= idx(r, c) < 81);
            }
            assert forall|u: int, e: u8| 0 <= u < 9 && 1 <= e <= 9 implies (#[trigger] has_bit(
                cs.row_mask(u),
                e,
            ) <==> row_has(empty_grid(), u, e)) by {
                assert(cs.row_mask(u) == 0u32);
                lemma_bit_zero(e);
            }
            assert forall|u: int, e: u8| 0 <= u < 9 && 1 <= e <= 9 implies (#[trigger] has_bit(
                cs.col_mask(u),
                e,
            ) <==> col_has(empty_grid(), u, e)) by {
                assert(cs.col_mask(u) == 0u32);
                lemma_bit_zero(e);
            }
            assert forall|u: int, e: u8| 0 <= u < 9 && 1 <= e <= 9 implies (#[trigger] has_bit(
                cs.box_mask(u),
                e,
            ) <==> box_has(empty_grid(), u, e)) by {
                assert(cs.box_mask(u) == 0u32);
                lemma_bit_zero(e);
            }
        }
        cs
    }

    /// Masks built from the board by applying `place` to every non-empty
    /// cell in row-major order; reports None exactly when two equal digits
    /// already share a row, a column or a box.
    pub fn build(board: &Board) -> (r: Option<ConstraintSet>)
        requires
            board.wf(),
        ensures
            r is Some <==> consistent(board@),
            r is None ==> !crate::board::solvable(board@),
            r matches Some(cs) ==> cs.matches(board@),
    {
        let ghost g = board@;
        let mut cs = ConstraintSet::empty();
        proof {
            assert(prefix_grid(g, 0) =~= empty_grid());
        }
        let mut i: usize = 0;
        while i < 81
            invariant
                board.wf(),
                g == board@,
                i <= 81,
                cs.matches(prefix_grid(g, i as int)),
                consistent(prefix_grid(g, i as int)),
            decreases 81 - i,
        {
            let r = i / 9;
            let c = i % 9;
            proof {
                assert(r < 9 && c < 9);
                assert(idx(r as int, c as int) == i);
            }
            let d = board.get(r, c);
            if d != 0 {
                let ghost gp = prefix_grid(g, i as int);
                proof {
                    lemma_prefix_wf(g, i as int);
                    assert(at(gp, r as int, c as int) == 0);
                    cs.lemma_legal_semantics(gp, r as int, c as int, d);
                }
                if !cs.is_legal(r, c, d) {
                    proof {
                        lemma_conflict_found(g, r as int, c as int, d);
                    }
                    return None;
                }
                proof {
                    lemma_place_consistent(gp, r as int, c as int, d);
                }
                cs.place(r, c, d, Ghost(gp));
                proof {
                    assert(gp.update(i as int, d) =~= prefix_grid(g, i + 1));
                }
            } else {
                proof {
                    assert(prefix_grid(g, i as int) =~= prefix_grid(g, i + 1));
                }
            }
            i += 1;
        }
        proof {
            assert(prefix_grid(g, 81) =~= g);
        }
        Some(cs)
    }

    /// Record digit d placed at the empty cell (r, c) of grid g.
    pub fn place(&mut self, r: usize, c: usize, d: u8, Ghost(g): Ghost<Seq<u8>>)
        requires
            old(self).matches(g),
            grid_wf(g),
            r < 9,
            c < 9,
            1 <= d <= 9,
            at(g, r as int, c as int) == 0,
        ensures
            final(self).matches(g.update(idx(r as int, c as int), d)),
    {
        let mask: u32 = 1u32 << (d as u32);
        let bx: usize = (r / 3) * 3 + c / 3;
        let rm = self.rows[r] | mask;
        self.rows[r] = rm;
        let cm = self.cols[c] | mask;
        self.cols[c] = cm;
        let bm = self.boxes[bx] | mask;
        self.boxes[bx] = bm;
        proof {
            let ri = r as int;
            let ci = c as int;
            let g2 = g.update(idx(ri, ci), d);
            assert(bx as int == box_of(ri, ci));
            assert forall|u: int, e: u8| 0 <= u < 9 && 1 <= e <= 9 implies (#[trigger] has_bit(
                self.row_mask(u),
                e,
            ) <==> row_has(g2, u, e)) by {
                lemma_row_has_place(g, ri, ci, d, u, e);
                assert(has_bit(old(self).row_mask(u), e) <==> row_has(g, u, e));
                if u == ri {
                    assert(self.row_mask(u) == old(self).row_mask(u) | mask);
                    lemma_bit_or(old(self).row_mask(u), d, e);
                } else {
                    assert(self.row_mask(u) == old(self).row_mask(u));
                }
            }
            assert forall|u: int, e: u8| 0 <= u < 9 && 1 <= e <= 9 implies (#[trigger] has_bit(
                self.col_mask(u),
                e,
            ) <==> col_has(g2, u, e)) by {
                lemma_col_has_place(g, ri, ci, d, u, e);
                assert(has_bit(old(self).col_mask(u), e) <==> col_has(g, u, e));
                if u == ci {
                    assert(self.col_mask(u) == old(self).col_mask(u) | mask);
                    lemma_bit_or(old(self).col_mask(u), d, e);
                } else {
                    assert(self.col_mask(u) == old(self).col_mask(u));
                }
            }
            assert forall|u: int, e: u8| 0 <= u < 9 && 1 <= e <= 9 implies (#[trigger] has_bit(
                self.box_mask(u),
                e,
            ) <==> box_has(g2, u, e)) by {
                lemma_box_has_place(g, ri, ci, d, u, e);
                assert(has_bit(old(self).box_mask(u), e) <==> box_has(g, u, e));
                if u == box_of(ri, ci) {
                    assert(self.box_mask(u) == old(self).box_mask(u) | mask);
                    lemma_bit_or(old(self).box_mask(u), d, e);
                } else {
                    assert(self.box_mask(u) == old(self).box_mask(u));
                }
            }
        }
    }

    /// Erase digit d from the masks of cell (r, c), the undo of `place`
    /// during backtracking.
    pub fn remove(&mut self, r: usize, c: usize, d: u8, Ghost(g): Ghost<Seq<u8>>)
        requires
            old(self).matches(g),
            grid_wf(g),
            consistent(g),
            r < 9,
            c < 9,
            1 <= d <= 9,
            at(g, r as int, c as int) == d,
        ensures
            final(self).matches(g.update(idx(r as int, c as int), 0)),
    {
        let mask: u32 = 1u32 << (d as u32);
        let bx: usize = (r / 3) * 3 + c / 3;
        let rm = self.rows[r] & !mask;
        self.rows[r] = rm;
        let cm = self.cols[c] & !mask;
        self.cols[c] = cm;
        let bm = self.boxes[bx] & !mask;
        self.boxes[bx] = bm;
        proof {
            let ri = r as int;
            let ci = c as int;
            let g2 = g.update(idx(ri, ci), 0);
            assert(bx as int == box_of(ri, ci));
            assert forall|u: int, e: u8| 0 <= u < 9 && 1 <= e <= 9 implies (#[trigger] has_bit(
                self.row_mask(u),
                e,
            ) <==> row_has(g2, u, e)) by {
                lemma_row_has_remove(g, ri, ci, d, u, e);
                assert(has_bit(old(self).row_mask(u), e) <==> row_has(g, u, e));
                if u == ri {
                    assert(self.row_mask(u) == old(self).row_mask(u) & !mask);
                    lemma_bit_clear(old(self).row_mask(u), d, e);
                } else {
                    assert(self.row_mask(u) == old(self).row_mask(u));
                }
            }
            assert forall|u: int, e: u8| 0 <= u < 9 && 1 <= e <= 9 implies (#[trigger] has_bit(
                self.col_mask(u),
                e,
            ) <==> col_has(g2, u, e)) by {
                lemma_col_has_remove(g, ri, ci, d, u, e);
                assert(has_bit(old(self).col_mask(u), e) <==> col_has(g, u, e));
                if u == ci {
                    assert(self.col_mask(u) == old(self).col_mask(u) & !mask);
                    lemma_bit_clear(old(self).col_mask(u), d, e);
                } else {
                    assert(self.col_mask(u) == old(self).col_mask(u));
                }
            }
            assert forall|u: int, e: u8| 0 <= u < 9 && 1 <= e <= 9 implies (#[trigger] has_bit(
                self.box_mask(u),
                e,
            ) <==> box_has(g2, u, e)) by {
                lemma_box_has_remove(g, ri, ci, d, u, e);
                assert(has_bit(old(self).box_mask(u), e) <==> box_has(g, u, e));
                if u == box_of(ri, ci) {
                    assert(self.box_mask(u) == old(self).box_mask(u) & !mask);
                    lemma_bit_clear(old(self).box_mask(u), d, e);
                } else {
                    assert(self.box_mask(u) == old(self).box_mask(u));
                }
            }
        }
    }

    /// True iff digit d is absent from the masks of row r, column c and the
    /// box of (r, c).
    pub fn is_legal(&self, r: usize, c: usize, d: u8) -> (b: bool)
        requires
            self.masks_wf(),
            r < 9,
            c < 9,
            1 <= d <= 9,
        ensures
            b == self.legal_by_masks(r as int, c as int, d),
    {
        let mask: u32 = 1u32 << (d as u32);
        let bx: usize = (r / 3) * 3 + c / 3;
        self.rows[r] & mask == 0 && self.cols[c] & mask == 0 && self.boxes[bx] & mask == 0
    }

    /// Number of digits among 1..=d whose mask test passes at (r, c).
    pub open spec fn legal_count_upto(self, r: int, c: int, d: int) -> nat
        decreases d,
    {
        if d <= 0 {
            0
        } else {
            self.legal_count_upto(r, c, d - 1) + (if self.legal_by_masks(r, c, d as u8) {
                1nat
            } else {
                0nat
            })
        }
    }

    /// Number of digits 1..=9 whose mask test passes at (r, c).
    pub fn count_legal(&self, r: usize, c: usize) -> (n: u8)
        requires
            self.masks_wf(),
            r < 9,
            c < 9,
        ensures
            n == self.legal_count_upto(r as int, c as int, 9),
            n <= 9,
    {
        let mut n: u8 = 0;
        let mut d: u8 = 1;
        while d <= 9
            invariant
                self.masks_wf(),
                r < 9,
                c < 9,
                1 <= d <= 10,
                n < d,
                n == self.legal_count_upto(r as int, c as int, d - 1),
            decreases 10 - d,
        {
            if self.is_legal(r, c, d) {
                n = n + 1;
            }
            d = d + 1;
        }
        n
    }
}

/// A vector of nine zero masks.
fn zeros9() -> (v: Vec<u32>)
    ensures
        v@.len() == 9,
        forall|j: int| 0 <= j < 9 ==> #[trigger] v@[j] == 0u32,
{
    let mut v: Vec<u32> = Vec::new();
    let mut i: usize = 0;
    while i < 9
        invariant
            i <= 9,
            v@.len() == i,
            forall|j: int| 0 <= j < i ==> #[trigger] v@[j] == 0u32,
        decreases 9 - i,
    {
        v.push(0);
        i += 1;
    }
    v
}

} // verus!
