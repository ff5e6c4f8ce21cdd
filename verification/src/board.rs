//! The board: one immutable snapshot of peg occupancy.
//!
//! A board stores the occupancy of every slot, the count of remaining pegs,
//! the sorted list of currently empty slots, and the coordinate mapping
//! tables for its size.  Applying a legal jump produces a new board; the
//! original is never changed.

use vstd::prelude::*;

use crate::triangle::{
    coord_ok, lemma_coords_of_pos, lemma_pos_of_coords, lemma_tri_formula, pos_of, size_ok,
    spec_col_of, spec_row_of, tri, triangle_number, triangle_numbers_list,
};

verus! {

/// Number of occupied slots in an occupancy sequence.
pub open spec fn count_true(s: Seq<bool>) -> int
    decreases s.len(),
{
    if s.len() == 0 {
        0
    } else {
        count_true(s.drop_last()) + if s.last() {
            1int
        } else {
            0int
        }
    }
}

pub proof fn lemma_count_true_bounds(s: Seq<bool>)
    ensures
        0 <= count_true(s) <= s.len(),
    decreases s.len(),
{
    if s.len() > 0 {
        lemma_count_true_bounds(s.drop_last());
    }
}

pub proof fn lemma_count_true_all(s: Seq<bool>)
    requires
        forall|i: int| 0 <= i < s.len() ==> s[i],
    ensures
        count_true(s) == s.len(),
    decreases s.len(),
{
    if s.len() > 0 {
        lemma_count_true_all(s.drop_last());
    }
}

pub proof fn lemma_count_true_update(s: Seq<bool>, i: int, b: bool)
    requires
        0 <= i < s.len(),
    ensures
        count_true(s.update(i, b)) == count_true(s) + (if b {
            1int
        } else {
            0int
        }) - (if s[i] {
            1int
        } else {
            0int
        }),
    decreases s.len(),
{
    let t = s.update(i, b);
    if i == s.len() - 1 {
        assert(t.drop_last() =~= s.drop_last());
    } else {
        assert(t.drop_last() =~= s.drop_last().update(i, b));
        lemma_count_true_update(s.drop_last(), i, b);
    }
}

/// An occupied slot means at least one peg.
pub proof fn lemma_count_true_pos(s: Seq<bool>, i: int)
    requires
        0 <= i < s.len(),
        s[i],
    ensures
        count_true(s) >= 1,
    decreases s.len(),
{
    if i < s.len() - 1 {
        lemma_count_true_pos(s.drop_last(), i);
        lemma_count_true_bounds(s.drop_last());
    } else {
        lemma_count_true_bounds(s.drop_last());
    }
}

/// Two distinct occupied slots mean at least two pegs.
pub proof fn lemma_count_true_two(s: Seq<bool>, i: int, j: int)
    requires
        0 <= i < s.len(),
        0 <= j < s.len(),
        i != j,
        s[i],
        s[j],
    ensures
        count_true(s) >= 2,
    decreases s.len(),
{
    if i < s.len() - 1 && j < s.len() - 1 {
        lemma_count_true_two(s.drop_last(), i, j);
        lemma_count_true_bounds(s.drop_last());
    } else if i == s.len() - 1 {
        lemma_count_true_pos(s.drop_last(), j);
    } else {
        lemma_count_true_pos(s.drop_last(), i);
    }
}

/// The six jump directions of the triangular grid, as a relation between
/// the source coordinate `(rs, cs)` and the destination coordinate
/// `(re, ce)`: two apart in the same row, in the same column, or along the
/// shared diagonal.
pub open spec fn is_jump(rs: int, cs: int, re: int, ce: int) -> bool {
    ||| (rs == re && (cs == ce + 2 || cs + 2 == ce))
    ||| (cs == ce && (rs == re + 2 || rs + 2 == re))
    ||| (rs == re + 2 && cs == ce + 2)
    ||| (rs + 2 == re && cs + 2 == ce)
}

/// The flat index of the slot jumped over, the coordinate midpoint of the
/// two endpoints.
pub open spec fn jump_mid(from: int, to: int) -> int {
    pos_of(
        (spec_row_of(from) + spec_row_of(to)) / 2,
        (spec_col_of(from) + spec_col_of(to)) / 2,
    )
}

/// `from` and `to` are slots of the board two apart along one of the six
/// jump directions.
pub open spec fn jump_shape(size: int, from: int, to: int) -> bool {
    &&& 1 <= from <= tri(size)
    &&& 1 <= to <= tri(size)
    &&& is_jump(spec_row_of(from), spec_col_of(from), spec_row_of(to), spec_col_of(to))
}

/// A legal jump on occupancy `s`: the endpoints are two apart along a jump
/// direction, the source and the jumped slot hold pegs, and the
/// destination is empty.
pub open spec fn valid_move(s: Seq<bool>, size: int, from: int, to: int) -> bool {
    &&& s.len() == tri(size)
    &&& jump_shape(size, from, to)
    &&& s[from - 1]
    &&& s[jump_mid(from, to) - 1]
    &&& !s[to - 1]
}

/// The occupancy after the jump `from -> to`: the source and the jumped
/// slot are cleared and the destination is filled.
pub open spec fn apply_move(s: Seq<bool>, from: int, to: int) -> Seq<bool> {
    s.update(from - 1, false).update(jump_mid(from, to) - 1, false).update(to - 1, true)
}

/// The midpoint of a jump is itself a valid coordinate, and the three
/// slots of a jump are pairwise distinct.
pub proof fn lemma_jump_mid_ok(size: int, from: int, to: int)
    requires
        1 <= size,
        jump_shape(size, from, to),
    ensures
        coord_ok(
            size,
            (spec_row_of(from) + spec_row_of(to)) / 2,
            (spec_col_of(from) + spec_col_of(to)) / 2,
        ),
        1 <= jump_mid(from, to) <= tri(size),
        jump_mid(from, to) != from,
        jump_mid(from, to) != to,
        from != to,
{
    let rs = spec_row_of(from);
    let cs = spec_col_of(from);
    let re = spec_row_of(to);
    let ce = spec_col_of(to);
    lemma_coords_of_pos(size, from);
    lemma_coords_of_pos(size, to);
    let rm = (rs + re) / 2;
    let cm = (cs + ce) / 2;
    assert(coord_ok(size, rm, cm));
    lemma_pos_of_coords(size, rm, cm);
    lemma_pos_of_coords(size, rs, cs);
    lemma_pos_of_coords(size, re, ce);
}

/// A legal jump strictly decrements the peg count by one; in particular
/// the board it starts from holds at least two pegs, so the board it
/// produces holds at least one.
pub proof fn lemma_apply_move_count(s: Seq<bool>, size: int, from: int, to: int)
    requires
        1 <= size,
        valid_move(s, size, from, to),
    ensures
        count_true(s) >= 2,
        count_true(apply_move(s, from, to)) == count_true(s) - 1,
{
    let mid = jump_mid(from, to);
    lemma_jump_mid_ok(size, from, to);
    lemma_count_true_two(s, from - 1, mid - 1);
    let s1 = s.update(from - 1, false);
    let s2 = s1.update(mid - 1, false);
    lemma_count_true_update(s, from - 1, false);
    lemma_count_true_update(s1, mid - 1, false);
    lemma_count_true_update(s2, to - 1, true);
}

/// The forward coordinate table is correct for side length `size`.
pub open spec fn pos_map_ok(m: Seq<(usize, usize)>, size: int) -> bool {
    &&& m.len() == tri(size)
    &&& forall|k: int|
        0 <= k < m.len() ==> (#[trigger] m[k]).0 as int == spec_row_of(k + 1) && m[k].1 as int
            == spec_col_of(k + 1)
}

/// The reverse coordinate table is correct for side length `size`.
pub open spec fn coor_map_ok(m: Seq<Vec<usize>>, size: int) -> bool {
    &&& m.len() == size
    &&& forall|r: int| 0 <= r < size ==> (#[trigger] m[r])@.len() == r + 1
    &&& forall|r: int, c: int| coord_ok(size, r, c) ==> (#[trigger] m[r]@[c]) as int == pos_of(r, c)
}

/// The row-ending index list is correct for side length `size`.
pub open spec fn tri_list_ok(t: Seq<usize>, size: int) -> bool {
    &&& t.len() == size
    &&& forall|r: int| 0 <= r < size ==> (#[trigger] t[r]) as int == tri(r + 1)
}

/// One snapshot of the peg board.
pub struct Board {
    /// Side length of the triangle.
    pub size: usize,
    /// Number of pegs on the board.
    pub true_count: usize,
    /// Occupancy by slot: entry `k` is the slot with flat index `k + 1`.
    pub data: Vec<bool>,
    /// The currently empty slots, as flat indices in increasing order.
    pub empty_positions: Vec<usize>,
    /// The flat indices that end each row.
    pub triangle_numbers: Vec<usize>,
    /// Flat index to coordinate.
    pub pos_to_coor_board_map: Vec<(usize, usize)>,
    /// Coordinate to flat index.
    pub coor_to_pos_board_map: Vec<Vec<usize>>,
}

impl Board {
    /// Number of slots of this board.
    pub open spec fn slots(self) -> int {
        tri(self.size as int)
    }

    /// The empty-slot list is sorted, in range, and holds exactly the
    /// unoccupied slots.
    pub open spec fn empties_ok(self) -> bool {
        &&& forall|i: int|
            0 <= i < self.empty_positions@.len() ==> 1 <= (#[trigger] self.empty_positions@[i])
                as int <= self.slots() && !self.data@[self.empty_positions@[i] - 1]
        &&& forall|i: int, j: int|
            0 <= i < j < self.empty_positions@.len() ==> self.empty_positions@[i]
                < self.empty_positions@[j]
        &&& forall|p: int|
            1 <= p <= self.slots() && (#[trigger] self.data@[p - 1]) == false ==> exists|i: int|
                0 <= i < self.empty_positions@.len() && (#[trigger] self.empty_positions@[i])
                    as int == p
    }

    /// The board invariant: the tables match the size, the peg count
    /// matches the occupancy, and the empty-slot list is its exact
    /// complement, so `empty_positions.len() + true_count == tri(size)`.
    pub open spec fn well_formed(self) -> bool {
        &&& size_ok(self.size as int)
        &&& self.data@.len() == self.slots()
        &&& self.true_count as int == count_true(self.data@)
        &&& pos_map_ok(self.pos_to_coor_board_map@, self.size as int)
        &&& coor_map_ok(self.coor_to_pos_board_map@, self.size as int)
        &&& tri_list_ok(self.triangle_numbers@, self.size as int)
        &&& self.empties_ok()
        &&& self.empty_positions@.len() + count_true(self.data@) == self.slots()
    }

    /// Constructs the starting board: every slot occupied except the one
    /// designated empty slot.  The caller must validate `empty_position`
    /// beforehand; the mapping tables come from the coordinate mapper.
    #[verifier::loop_isolation(false)]
    pub fn new(
        size: usize,
        empty_position: usize,
        pos_to_coor_board_map: Vec<(usize, usize)>,
        coor_to_pos_board_map: Vec<Vec<usize>>,
    ) -> (b: Board)
        requires
            size_ok(size as int),
            1 <= empty_position as int && empty_position as int <= tri(size as int),
            pos_map_ok(pos_to_coor_board_map@, size as int),
            coor_map_ok(coor_to_pos_board_map@, size as int),
        ensures
            b.well_formed(),
            b.size == size,
            b.true_count as int == tri(size as int) - 1,
            b.data@.len() == tri(size as int),
            b.empty_positions@.len() + b.true_count as int == tri(size as int),
            forall|p: int|
                1 <= p <= tri(size as int) ==> ((#[trigger] b.data@[p - 1]) <==> p
                    != empty_position as int),
    {
        let total = triangle_number(size);
        let mut data: Vec<bool> = Vec::new();
        let mut i: usize = 0;
        while i < total
            invariant
                i as int <= total as int,
                data@.len() == i as int,
                forall|k: int| 0 <= k < i as int ==> #[trigger] data@[k],
            decreases total as int - i as int,
        {
            data.push(true);
            i = i + 1;
        }
        proof {
            lemma_count_true_all(data@);
            lemma_count_true_update(data@, empty_position as int - 1, false);
        }
        data.set(empty_position - 1, false);
        let mut empty_positions: Vec<usize> = Vec::new();
        empty_positions.push(empty_position);
        let triangle_numbers = triangle_numbers_list(size);
        let true_count = total - 1;
        let b = Board {
            size,
            true_count,
            data,
            empty_positions,
            triangle_numbers,
            pos_to_coor_board_map,
            coor_to_pos_board_map,
        };
        proof {
            assert forall|p: int|
                1 <= p <= b.slots() && (#[trigger] b.data@[p - 1]) == false implies exists|i: int|
                0 <= i < b.empty_positions@.len() && (#[trigger] b.empty_positions@[i]) as int
                    == p by {
                assert(b.empty_positions@[0] as int == p);
            }
        }
        b
    }

    /// An explicit full copy of this board; a copy of a well-formed board
    /// is well-formed.
    pub fn clone_board(&self) -> (r: Board)
        ensures
            r.size == self.size,
            r.true_count == self.true_count,
            r.data@ == self.data@,
            r.empty_positions@ == self.empty_positions@,
            r.triangle_numbers@ == self.triangle_numbers@,
            r.pos_to_coor_board_map@ == self.pos_to_coor_board_map@,
            self.well_formed() ==> r.well_formed(),
    {
        let r = Board {
            size: self.size,
            true_count: self.true_count,
            data: copy_bools(&self.data),
            empty_positions: copy_usizes(&self.empty_positions),
            triangle_numbers: copy_usizes(&self.triangle_numbers),
            pos_to_coor_board_map: copy_pairs(&self.pos_to_coor_board_map),
            coor_to_pos_board_map: copy_rows(&self.coor_to_pos_board_map),
        };
        proof {
            if self.well_formed() {
                assert forall|rr: int| 0 <= rr < r.size as int implies (
                #[trigger] r.coor_to_pos_board_map@[rr])@.len() == rr + 1 by {
                    assert(r.coor_to_pos_board_map@[rr]@ == self.coor_to_pos_board_map@[rr]@);
                }
                assert forall|rr: int, c: int| coord_ok(r.size as int, rr, c) implies (
                #[trigger] r.coor_to_pos_board_map@[rr]@[c]) as int == pos_of(rr, c) by {
                    assert(r.coor_to_pos_board_map@[rr]@ == self.coor_to_pos_board_map@[rr]@);
                }
                assert(coor_map_ok(r.coor_to_pos_board_map@, r.size as int));
                assert forall|p: int|
                    1 <= p <= r.slots() && (#[trigger] r.data@[p - 1]) == false implies exists|
                    i: int,
                |
                    0 <= i < r.empty_positions@.len() && (#[trigger] r.empty_positions@[i]) as int
                        == p by {
                    let i = choose|i: int|
                        0 <= i < self.empty_positions@.len() && (
                        #[trigger] self.empty_positions@[i]) as int == p;
                    assert(r.empty_positions@[i] as int == p);
                }
                assert(r.empties_ok());
                assert(r.well_formed());
            }
        }
        r
    }

    /// A terminal board: exactly one peg remains.
    pub fn is_terminal(&self) -> (r: bool)
        ensures
            r <==> self.true_count == 1,
    {
        self.true_count == 1
    }

    /// Checks one jump direction into the empty slot `e` at coordinate
    /// `(erow, ecol)`: if the source `(srow, scol)` and the slot between
    /// them both hold pegs, returns the move, else nothing.
    fn check_jump(&self, e: usize, erow: usize, ecol: usize, srow: usize, scol: usize) -> (found:
        Option<(usize, usize)>)
        requires
            self.well_formed(),
            1 <= e as int && e as int <= self.slots(),
            erow as int == spec_row_of(e as int),
            ecol as int == spec_col_of(e as int),
            coord_ok(self.size as int, srow as int, scol as int),
            is_jump(srow as int, scol as int, erow as int, ecol as int),
            !self.data@[e - 1],
        ensures
            found matches Some(m) ==> m.0 as int == pos_of(srow as int, scol as int) && m.1 == e
                && valid_move(self.data@, self.size as int, m.0 as int, e as int),
            found is None ==> !valid_move(
                self.data@,
                self.size as int,
                pos_of(srow as int, scol as int),
                e as int,
            ),
    {
        proof {
            lemma_pos_of_coords(self.size as int, srow as int, scol as int);
            assert(2 * (self.size as int) <= usize::MAX as int) by (nonlinear_arith)
                requires size_ok(self.size as int);
        }
        let mrow = (srow + erow) / 2;
        let mcol = (scol + ecol) / 2;
        let from = self.coor_to_pos_board_map[srow][scol];
        proof {
            assert(jump_shape(self.size as int, from as int, e as int));
            lemma_jump_mid_ok(self.size as int, from as int, e as int);
            lemma_pos_of_coords(self.size as int, mrow as int, mcol as int);
        }
        let mid = self.coor_to_pos_board_map[mrow][mcol];
        if self.data[from - 1] && self.data[mid - 1] {
            Some((from, e))
        } else {
            None
        }
    }

    /// Enumerates every legal jump on this board, scanning the empty slots
    /// in increasing order and the six jump directions into each.  The
    /// list is sound and complete: it holds exactly the legal moves.
    #[verifier::loop_isolation(false)]
    pub fn get_actions(&self) -> (moves: Vec<(usize, usize)>)
        requires
            self.well_formed(),
        ensures
            forall|k: int|
                0 <= k < moves@.len() ==> valid_move(
                    self.data@,
                    self.size as int,
                    (#[trigger] moves@[k]).0 as int,
                    moves@[k].1 as int,
                ),
            forall|m: (usize, usize)|
                #[trigger] valid_move(self.data@, self.size as int, m.0 as int, m.1 as int)
                    ==> moves@.contains(m),
            moves@.len() <= 6 * self.empty_positions@.len(),
            forall|k1: int, k2: int|
                0 <= k1 <= k2 < moves@.len() ==> (#[trigger] moves@[k1]).1 <= (
                #[trigger] moves@[k2]).1,
    {
        let mut moves: Vec<(usize, usize)> = Vec::new();
        let mut idx: usize = 0;
        while idx < self.empty_positions.len()
            invariant
                idx as int <= self.empty_positions@.len(),
                moves@.len() <= 6 * idx as int,
                forall|k1: int, k2: int|
                    0 <= k1 <= k2 < moves@.len() ==> (#[trigger] moves@[k1]).1 <= (
                    #[trigger] moves@[k2]).1,
                idx as int > 0 ==> forall|k: int|
                    0 <= k < moves@.len() ==> (#[trigger] moves@[k]).1
                        <= self.empty_positions@[idx as int - 1],
                forall|k: int|
                    0 <= k < moves@.len() ==> valid_move(
                        self.data@,
                        self.size as int,
                        (#[trigger] moves@[k]).0 as int,
                        moves@[k].1 as int,
                    ),
                forall|m: (usize, usize)|
                    #[trigger] valid_move(self.data@, self.size as int, m.0 as int, m.1 as int)
                        && (exists|ii: int|
                        0 <= ii < idx as int && (#[trigger] self.empty_positions@[ii]) == m.1)
                        ==> moves@.contains(m),
            decreases self.empty_positions@.len() - idx as int,
        {
            let e = self.empty_positions[idx];
            let rc = self.pos_to_coor_board_map[e - 1];
            let erow = rc.0;
            let ecol = rc.1;
            proof {
                lemma_coords_of_pos(self.size as int, e as int);
            }
            let mut d: usize = 0;
            while d < 6
                invariant
                    d as int <= 6,
                    moves@.len() <= 6 * idx as int + d as int,
                    e == self.empty_positions@[idx as int],
                    forall|k1: int, k2: int|
                        0 <= k1 <= k2 < moves@.len() ==> (#[trigger] moves@[k1]).1 <= (
                        #[trigger] moves@[k2]).1,
                    forall|k: int| 0 <= k < moves@.len() ==> (#[trigger] moves@[k]).1 <= e,
                    (idx as int) < self.empty_positions@.len(),
                    erow as int == spec_row_of(e as int),
                    ecol as int == spec_col_of(e as int),
                    coord_ok(self.size as int, erow as int, ecol as int),
                    forall|k: int|
                        0 <= k < moves@.len() ==> valid_move(
                            self.data@,
                            self.size as int,
                            (#[trigger] moves@[k]).0 as int,
                            moves@[k].1 as int,
                        ),
                    forall|m: (usize, usize)|
                        #[trigger] valid_move(self.data@, self.size as int, m.0 as int, m.1 as int)
                            && (exists|ii: int|
                            0 <= ii < idx as int && (#[trigger] self.empty_positions@[ii]) == m.1)
                            ==> moves@.contains(m),
                    forall|m: (usize, usize)|
                        #[trigger] valid_move(self.data@, self.size as int, m.0 as int, m.1 as int)
                            && m.1 == e && dir_index(
                            spec_row_of(m.0 as int),
                            spec_col_of(m.0 as int),
                            erow as int,
                            ecol as int,
                        ) < d as int ==> moves@.contains(m),
                decreases 6 - d as int,
            {
                proof {
                    assert(self.size as int + 3 <= usize::MAX as int) by (nonlinear_arith)
                        requires size_ok(self.size as int);
                }
                let mut ok: bool = false;
                let mut srow: usize = 0;
                let mut scol: usize = 0;
                if d == 0 {
                    if erow >= 2 && ecol + 2 <= erow {
                        ok = true;
                        srow = erow - 2;
                        scol = ecol;
                    }
                } else if d == 1 {
                    if ecol + 2 <= erow {
                        ok = true;
                        srow = erow;
                        scol = ecol + 2;
                    }
                } else if d == 2 {
                    if ecol >= 2 {
                        ok = true;
                        srow = erow;
                        scol = ecol - 2;
                    }
                } else if d == 3 {
                    if erow >= 2 && ecol >= 2 {
                        ok = true;
                        srow = erow - 2;
                        scol = ecol - 2;
                    }
                } else if d == 4 {
                    proof {
                        assert(self.size as int + 3 <= usize::MAX as int) by (nonlinear_arith)
                            requires size_ok(self.size as int);
                    }
                    if erow + 3 <= self.size {
                        ok = true;
                        srow = erow + 2;
                        scol = ecol;
                    }
                } else {
                    proof {
                        assert(self.size as int + 3 <= usize::MAX as int) by (nonlinear_arith)
                            requires size_ok(self.size as int);
                    }
                    if erow + 3 <= self.size {
                        ok = true;
                        srow = erow + 2;
                        scol = ecol + 2;
                    }
                }
                let ghost pre_moves = moves@;
                if ok {
                    let res = self.check_jump(e, erow, ecol, srow, scol);
                    if let Some(m) = res {
                        moves.push(m);
                    }
                }
                proof {
                    assert forall|m: (usize, usize)|
                        #[trigger] valid_move(self.data@, self.size as int, m.0 as int, m.1 as int)
                            && (exists|ii: int|
                            0 <= ii < idx as int && (#[trigger] self.empty_positions@[ii])
                                == m.1) implies moves@.contains(m) by {
                        let i = choose|i: int| 0 <= i < pre_moves.len() && pre_moves[i] == m;
                        assert(moves@[i] == m);
                    }
                    assert forall|m: (usize, usize)|
                        #[trigger] valid_move(self.data@, self.size as int, m.0 as int, m.1 as int)
                            && m.1 == e && dir_index(
                            spec_row_of(m.0 as int),
                            spec_col_of(m.0 as int),
                            erow as int,
                            ecol as int,
                        ) < d as int + 1 implies moves@.contains(m) by {
                        let rs = spec_row_of(m.0 as int);
                        let cs = spec_col_of(m.0 as int);
                        if dir_index(rs, cs, erow as int, ecol as int) < d as int {
                            let i = choose|i: int| 0 <= i < pre_moves.len() && pre_moves[i] == m;
                            assert(moves@[i] == m);
                        } else {
                            lemma_coords_of_pos(self.size as int, m.0 as int);
                            assert(ok && srow as int == rs && scol as int == cs);
                            assert(moves@[moves@.len() - 1] == m);
                        }
                    }
                }
                d = d + 1;
            }
            proof {
                assert forall|m: (usize, usize)|
                    #[trigger] valid_move(self.data@, self.size as int, m.0 as int, m.1 as int)
                        && (exists|ii: int|
                        0 <= ii < idx as int + 1 && (#[trigger] self.empty_positions@[ii])
                            == m.1) implies moves@.contains(m) by {
                    let ii = choose|ii: int|
                        0 <= ii < idx as int + 1 && (#[trigger] self.empty_positions@[ii]) == m.1;
                    if ii == idx as int {
                        lemma_coords_of_pos(self.size as int, m.0 as int);
                    }
                }
            }
            idx = idx + 1;
        }
        proof {
            assert forall|m: (usize, usize)|
                #[trigger] valid_move(
                    self.data@,
                    self.size as int,
                    m.0 as int,
                    m.1 as int,
                ) implies moves@.contains(m) by {
                assert(self.data@[m.1 as int - 1] == false);
            }
        }
        moves
    }

    /// Applies the jump `from -> to`, producing the next board.  The
    /// endpoints must be two slots apart along a jump direction; the
    /// occupancy conditions are re-checked, and an illegal jump yields no
    /// board.  The move succeeds exactly when it is legal, and then the
    /// peg count drops by one — and stays at least one.
    pub fn action(&self, from: usize, to: usize) -> (r: Option<Board>)
        requires
            self.well_formed(),
            jump_shape(self.size as int, from as int, to as int),
        ensures
            r is Some <==> valid_move(self.data@, self.size as int, from as int, to as int),
            r matches Some(nb) ==> ({
                &&& nb.well_formed()
                &&& nb.size == self.size
                &&& nb.data@ == apply_move(self.data@, from as int, to as int)
                &&& nb.true_count as int == self.true_count as int - 1
                &&& nb.true_count >= 1
                &&& nb.empty_positions@.len() + nb.true_count as int == tri(self.size as int)
            }),
    {
        proof {
            lemma_jump_mid_ok(self.size as int, from as int, to as int);
            assert(2 * (self.size as int) <= usize::MAX as int) by (nonlinear_arith)
                requires size_ok(self.size as int);
            lemma_coords_of_pos(self.size as int, from as int);
            lemma_coords_of_pos(self.size as int, to as int);
        }
        let frc = self.pos_to_coor_board_map[from - 1];
        let trc = self.pos_to_coor_board_map[to - 1];
        let mrow = (frc.0 + trc.0) / 2;
        let mcol = (frc.1 + trc.1) / 2;
        proof {
            lemma_pos_of_coords(self.size as int, mrow as int, mcol as int);
        }
        let mid = self.coor_to_pos_board_map[mrow][mcol];
        if self.data[to - 1] == false && self.data[mid - 1] && self.data[from - 1] {
            proof {
                lemma_apply_move_count(self.data@, self.size as int, from as int, to as int);
                lemma_tri_formula(self.size as int);
            }
            let mut new_data = copy_bools(&self.data);
            new_data.set(from - 1, false);
            new_data.set(mid - 1, false);
            new_data.set(to - 1, true);
            proof {
                assert(new_data@ == apply_move(self.data@, from as int, to as int)) by {
                    assert(new_data@ =~= apply_move(self.data@, from as int, to as int));
                }
            }
            let new_empty = compute_empty_positions(&new_data);
            let nb = Board {
                size: self.size,
                true_count: self.true_count - 1,
                data: new_data,
                empty_positions: new_empty,
                triangle_numbers: copy_usizes(&self.triangle_numbers),
                pos_to_coor_board_map: copy_pairs(&self.pos_to_coor_board_map),
                coor_to_pos_board_map: copy_rows(&self.coor_to_pos_board_map),
            };
            proof {
                assert forall|p: int|
                    1 <= p <= nb.slots() && (#[trigger] nb.data@[p - 1]) == false implies exists|
                    i: int,
                |
                    0 <= i < nb.empty_positions@.len() && (#[trigger] nb.empty_positions@[i])
                        as int == p by {
                    let i = choose|i: int|
                        0 <= i < new_empty@.len() && (#[trigger] new_empty@[i]) as int == p;
                    assert(nb.empty_positions@[i] as int == p);
                }
                assert(nb.empties_ok());
                assert(nb.well_formed());
            }
            Some(nb)
        } else {
            None
        }
    }
}

/// The jump direction leading from source `(rs, cs)` to destination
/// `(re, ce)`, or 6 when the two are not a jump apart.
pub open spec fn dir_index(rs: int, cs: int, re: int, ce: int) -> int {
    if rs + 2 == re && cs == ce {
        0
    } else if rs == re && cs == ce + 2 {
        1
    } else if rs == re && cs + 2 == ce {
        2
    } else if rs + 2 == re && cs + 2 == ce {
        3
    } else if rs == re + 2 && cs == ce {
        4
    } else if rs == re + 2 && cs == ce + 2 {
        5
    } else {
        6
    }
}

fn copy_bools(v: &Vec<bool>) -> (r: Vec<bool>)
    ensures
        r@ == v@,
{
    let mut r: Vec<bool> = Vec::new();
    let mut i: usize = 0;
    while i < v.len()
        invariant
            i as int <= v@.len(),
            r@ =~= v@.take(i as int),
        decreases v@.len() - i as int,
    {
        r.push(v[i]);
        i = i + 1;
    }
    proof {
        assert(v@.take(v@.len() as int) =~= v@);
    }
    r
}

fn copy_usizes(v: &Vec<usize>) -> (r: Vec<usize>)
    ensures
        r@ == v@,
{
    let mut r: Vec<usize> = Vec::new();
    let mut i: usize = 0;
    while i < v.len()
        invariant
            i as int <= v@.len(),
            r@ =~= v@.take(i as int),
        decreases v@.len() - i as int,
    {
        r.push(v[i]);
        i = i + 1;
    }
    proof {
        assert(v@.take(v@.len() as int) =~= v@);
    }
    r
}

pub(crate) fn copy_pairs(v: &Vec<(usize, usize)>) -> (r: Vec<(usize, usize)>)
    ensures
        r@ == v@,
{
    let mut r: Vec<(usize, usize)> = Vec::new();
    let mut i: usize = 0;
    while i < v.len()
        invariant
            i as int <= v@.len(),
            r@ =~= v@.take(i as int),
        decreases v@.len() - i as int,
    {
        r.push(v[i]);
        i = i + 1;
    }
    proof {
        assert(v@.take(v@.len() as int) =~= v@);
    }
    r
}

pub(crate) fn copy_rows(v: &Vec<Vec<usize>>) -> (r: Vec<Vec<usize>>)
    ensures
        r@.len() == v@.len(),
        forall|i: int| 0 <= i < v@.len() ==> (#[trigger] r@[i])@ == v@[i]@,
{
    let mut r: Vec<Vec<usize>> = Vec::new();
    let mut i: usize = 0;
    while i < v.len()
        invariant
            i as int <= v@.len(),
            r@.len() == i as int,
            forall|j: int| 0 <= j < i as int ==> (#[trigger] r@[j])@ == v@[j]@,
        decreases v@.len() - i as int,
    {
        let line = copy_usizes(&v[i]);
        r.push(line);
        i = i + 1;
    }
    r
}

/// The sorted list of unoccupied slots of an occupancy sequence; its
/// length and the peg count always sum to the slot count.
#[verifier::loop_isolation(false)]
fn compute_empty_positions(data: &Vec<bool>) -> (r: Vec<usize>)
    requires
        data@.len() < usize::MAX,
    ensures
        forall|i: int|
            0 <= i < r@.len() ==> 1 <= (#[trigger] r@[i]) as int <= data@.len()
                && !data@[r@[i] - 1],
        forall|i: int, j: int| 0 <= i < j < r@.len() ==> r@[i] < r@[j],
        forall|p: int|
            1 <= p <= data@.len() && (#[trigger] data@[p - 1]) == false ==> exists|i: int|
                0 <= i < r@.len() && (#[trigger] r@[i]) as int == p,
        r@.len() + count_true(data@) == data@.len(),
{
    let mut r: Vec<usize> = Vec::new();
    let mut p: usize = 1;
    while p <= data.len()
        invariant
            1 <= p as int && p as int <= data@.len() + 1,
            forall|i: int|
                0 <= i < r@.len() ==> 1 <= (#[trigger] r@[i]) as int && (r@[i] as int) < p as int
                    && !data@[r@[i] - 1],
            forall|i: int, j: int| 0 <= i < j < r@.len() ==> r@[i] < r@[j],
            forall|q: int|
                1 <= q < p as int && (#[trigger] data@[q - 1]) == false ==> exists|i: int|
                    0 <= i < r@.len() && (#[trigger] r@[i]) as int == q,
            r@.len() + count_true(data@.take(p as int - 1)) == p as int - 1,
        decreases data@.len() + 1 - p as int,
    {
        proof {
            assert(data@.take(p as int).drop_last() =~= data@.take(p as int - 1));
            assert(data@.take(p as int).last() == data@[p as int - 1]);
        }
        let ghost old_r = r@;
        if !data[p - 1] {
            r.push(p);
            proof {
                assert forall|q: int|
                    1 <= q < p as int + 1 && (#[trigger] data@[q - 1]) == false implies exists|
                    i: int,
                |
                    0 <= i < r@.len() && (#[trigger] r@[i]) as int == q by {
                    if q < p as int {
                        let i = choose|i: int|
                            0 <= i < old_r.len() && (#[trigger] old_r[i]) as int == q;
                        assert(r@[i] as int == q);
                    } else {
                        assert(r@[r@.len() - 1] as int == q);
                    }
                }
            }
        }
        p = p + 1;
    }
    proof {
        assert(data@.take(data@.len() as int) =~= data@);
    }
    r
}

} // verus!
