//! The coordinate system of a triangular board.
//!
//! A board of side length `size` has `tri(size)` slots.  A slot is named
//! either by a flat 1-based index in `[1, tri(size)]` or by a 0-based
//! coordinate `(row, col)` with `col <= row < size`.  The two namings are
//! mutually inverse bijections; this module defines both directions as spec
//! functions, proves the bijection, and provides the executable mapping
//! tables that the board uses.

use vstd::prelude::*;

verus! {

/// Number of slots in a triangular board of side length `n`: 1 + 2 + ... + n.
pub open spec fn tri(n: int) -> int
    decreases n,
{
    if n <= 0 {
        0
    } else {
        n + tri(n - 1)
    }
}

/// Side lengths whose boards the machine can represent: the product used to
/// compute `tri(size)` fits in `usize`.
pub open spec fn size_ok(size: int) -> bool {
    1 <= size && size * (size + 1) <= usize::MAX as int
}

/// Flat 1-based slot index of the coordinate `(row, col)`.
pub open spec fn pos_of(row: int, col: int) -> int {
    tri(row) + col + 1
}

/// `(row, col)` is a coordinate of a board of side length `size`.
pub open spec fn coord_ok(size: int, row: int, col: int) -> bool {
    0 <= col <= row < size
}

/// The row of flat index `p`, scanning rows upward from row `r`.
pub open spec fn row_of_from(p: int, r: int) -> int
    decreases p - tri(r),
        when 0 <= r && tri(r) < p
{
    if p <= tri(r + 1) {
        r
    } else {
        row_of_from(p, r + 1)
    }
}

/// The row of flat index `p` (for `p >= 1`).
pub open spec fn spec_row_of(p: int) -> int {
    row_of_from(p, 0)
}

/// The column of flat index `p` (for `p >= 1`).
pub open spec fn spec_col_of(p: int) -> int {
    p - tri(spec_row_of(p)) - 1
}

pub proof fn lemma_tri_nonneg(n: int)
    ensures
        tri(n) >= 0,
    decreases n,
{
    if n > 0 {
        lemma_tri_nonneg(n - 1);
    }
}

pub proof fn lemma_tri_mono(a: int, b: int)
    requires
        a <= b,
    ensures
        tri(a) <= tri(b),
        0 <= a < b ==> tri(a) < tri(b),
    decreases b - a,
{
    if a < b {
        lemma_tri_mono(a, b - 1);
        if b > 0 {
            lemma_tri_nonneg(b - 1);
        }
    }
}

/// The closed form of the triangular numbers: `2 * tri(n) == n * (n + 1)`.
pub proof fn lemma_tri_formula(n: int)
    requires
        n >= 0,
    ensures
        2 * tri(n) == n * (n + 1),
    decreases n,
{
    if n == 0 {
        assert(n * (n + 1) == 0) by (nonlinear_arith)
            requires n == 0;
    } else {
        lemma_tri_formula(n - 1);
        assert((n - 1) * (n - 1 + 1) == 2 * tri(n - 1) ==> 2 * n + 2 * tri(n - 1) == n * (n + 1))
            by (nonlinear_arith);
    }
}

proof fn lemma_row_of_from(p: int, r: int)
    requires
        0 <= r,
        tri(r) < p,
    ensures
        r <= row_of_from(p, r),
        tri(row_of_from(p, r)) < p <= tri(row_of_from(p, r) + 1),
    decreases p - tri(r),
{
    if p <= tri(r + 1) {
    } else {
        lemma_row_of_from(p, r + 1);
    }
}

/// The row with `tri(row) < p <= tri(row + 1)` is unique.
proof fn lemma_row_unique(p: int, a: int, b: int)
    requires
        0 <= a,
        0 <= b,
        tri(a) < p <= tri(a + 1),
        tri(b) < p <= tri(b + 1),
    ensures
        a == b,
{
    if a < b {
        lemma_tri_mono(a + 1, b);
    }
    if b < a {
        lemma_tri_mono(b + 1, a);
    }
}

/// One direction of the bijection: every flat index in `[1, tri(size)]`
/// names a valid coordinate, and mapping that coordinate back gives the
/// same index.
pub proof fn lemma_coords_of_pos(size: int, p: int)
    requires
        1 <= size,
        1 <= p <= tri(size),
    ensures
        coord_ok(size, spec_row_of(p), spec_col_of(p)),
        pos_of(spec_row_of(p), spec_col_of(p)) == p,
{
    lemma_row_of_from(p, 0);
    let r = spec_row_of(p);
    assert(tri(r + 1) == (r + 1) + tri(r));
    if r >= size {
        lemma_tri_mono(size, r);
    }
}

/// The other direction of the bijection: every valid coordinate names a
/// flat index in `[1, tri(size)]`, and mapping that index back gives the
/// same coordinate.
pub proof fn lemma_pos_of_coords(size: int, row: int, col: int)
    requires
        1 <= size,
        coord_ok(size, row, col),
    ensures
        1 <= pos_of(row, col) <= tri(size),
        spec_row_of(pos_of(row, col)) == row,
        spec_col_of(pos_of(row, col)) == col,
{
    let p = pos_of(row, col);
    lemma_tri_nonneg(row);
    assert(tri(row + 1) == (row + 1) + tri(row));
    lemma_tri_mono(row + 1, size);
    lemma_row_of_from(p, 0);
    lemma_row_unique(p, spec_row_of(p), row);
}

/// Triangular number of `size`, the count of slots on a board of that side
/// length: `size * (size + 1) / 2`.
pub fn triangle_number(size: usize) -> (t: usize)
    requires
        (size as int) * (size as int + 1) <= usize::MAX as int,
    ensures
        t as int == tri(size as int),
        t as int == (size as int) * (size as int + 1) / 2,
{
    proof {
        lemma_tri_formula(size as int);
        lemma_tri_nonneg(size as int);
        assert(size as int + 1 <= usize::MAX as int) by (nonlinear_arith)
            requires (size as int) * (size as int + 1) <= usize::MAX as int;
    }
    (size * (size + 1)) / 2
}

/// Transforms a flat 1-based slot index into its `(row, col)` coordinate by
/// scanning the triangular numbers in increasing order.
pub fn get_board_coors(size: usize, position: usize) -> (rc: (usize, usize))
    requires
        size_ok(size as int),
        1 <= position as int && (position as int) <= tri(size as int),
    ensures
        rc.0 as int == spec_row_of(position as int),
        rc.1 as int == spec_col_of(position as int),
        coord_ok(size as int, rc.0 as int, rc.1 as int),
        pos_of(rc.0 as int, rc.1 as int) == position as int,
{
    proof {
        assert(tri(1) == 1) by {
            reveal_with_fuel(tri, 2);
        }
    }
    let mut row: usize = 0;
    let mut t: usize = 1;
    while t < position
        invariant
            size_ok(size as int),
            1 <= position as int && (position as int) <= tri(size as int),
            0 <= row as int && (row as int) < size as int,
            t as int == tri(row as int + 1),
            tri(row as int) < position as int,
        decreases tri(size as int) - t as int,
    {
        proof {
            // `t < position <= tri(size)` forces the next row to exist.
            if row as int + 1 >= size as int {
                lemma_tri_mono(size as int, row as int + 1);
            }
            lemma_tri_mono(row as int + 2, size as int);
            lemma_tri_formula(size as int);
            lemma_tri_nonneg(size as int);
            assert(tri(row as int + 2) == (row as int + 2) + tri(row as int + 1));
        }
        row = row + 1;
        t = t + row + 1;
    }
    proof {
        lemma_row_of_from(position as int, 0);
        lemma_row_unique(position as int, spec_row_of(position as int), row as int);
        lemma_tri_nonneg(row as int);
        assert(tri(row as int + 1) == (row as int + 1) + tri(row as int));
    }
    let prev = t - (row + 1);
    let col = position - prev - 1;
    (row, col)
}

/// The mapping from each flat index in `[1, tri(size)]` to its coordinate;
/// entry `k` of the list is the coordinate of index `k + 1`.
pub fn create_board_position_map(size: usize) -> (m: Vec<(usize, usize)>)
    requires
        size_ok(size as int),
    ensures
        m@.len() == tri(size as int),
        forall|k: int|
            0 <= k < m@.len() ==> (#[trigger] m@[k]).0 as int == spec_row_of(k + 1)
                && m@[k].1 as int == spec_col_of(k + 1),
{
    let total = triangle_number(size);
    let mut m: Vec<(usize, usize)> = Vec::new();
    let mut p: usize = 1;
    while p <= total
        invariant
            size_ok(size as int),
            total as int == tri(size as int),
            1 <= p as int && (p as int) <= total as int + 1,
            m@.len() == p as int - 1,
            forall|k: int|
                0 <= k < m@.len() ==> (#[trigger] m@[k]).0 as int == spec_row_of(k + 1)
                    && m@[k].1 as int == spec_col_of(k + 1),
        decreases total as int + 1 - p as int,
    {
        proof {
            lemma_tri_formula(size as int);
            lemma_tri_nonneg(size as int);
        }
        let rc = get_board_coors(size, p);
        m.push(rc);
        p = p + 1;
    }
    m
}

/// The reverse mapping: entry `[row][col]` is the flat index of that
/// coordinate.
pub fn create_reverse_board_position_map(size: usize) -> (m: Vec<Vec<usize>>)
    requires
        size_ok(size as int),
    ensures
        m@.len() == size as int,
        forall|r: int| 0 <= r < size as int ==> (#[trigger] m@[r])@.len() == r + 1,
        forall|r: int, c: int|
            coord_ok(size as int, r, c) ==> (#[trigger] m@[r]@[c]) as int == pos_of(r, c),
{
    let mut m: Vec<Vec<usize>> = Vec::new();
    let mut r: usize = 0;
    let mut p: usize = 1;
    while r < size
        invariant
            size_ok(size as int),
            0 <= r as int && (r as int) <= size as int,
            p as int == tri(r as int) + 1,
            m@.len() == r as int,
            forall|rr: int| 0 <= rr < r as int ==> (#[trigger] m@[rr])@.len() == rr + 1,
            forall|rr: int, c: int|
                0 <= c <= rr < r as int ==> (#[trigger] m@[rr]@[c]) as int == pos_of(rr, c),
        decreases size as int - r as int,
    {
        proof {
            lemma_tri_mono(r as int + 1, size as int);
            lemma_tri_formula(size as int);
            assert(tri(r as int + 1) == (r as int + 1) + tri(r as int));
        }
        let mut line: Vec<usize> = Vec::new();
        let mut c: usize = 0;
        while c <= r
            invariant
                size_ok(size as int),
                0 <= r as int && (r as int) < size as int,
                0 <= c as int && (c as int) <= r as int + 1,
                p as int == tri(r as int) + 1,
                tri(r as int + 1) <= tri(size as int),
                line@.len() == c as int,
                forall|cc: int|
                    0 <= cc < c as int ==> (#[trigger] line@[cc]) as int == pos_of(r as int, cc),
            decreases r as int + 1 - c as int,
        {
            proof {
                lemma_tri_nonneg(r as int);
                lemma_tri_formula(size as int);
            }
            line.push(p + c);
            c = c + 1;
        }
        m.push(line);
        p = p + r + 1;
        r = r + 1;
    }
    m
}

/// The list of row-ending flat indices paired with their row order: entry
/// `k` is `(tri(k + 1), k + 1)`, so a row-ending index can be looked up to
/// find which triangle it completes.
pub fn create_triangle_map(size: usize) -> (m: Vec<(usize, usize)>)
    requires
        (size as int) * (size as int + 1) <= usize::MAX as int,
    ensures
        m@.len() == size as int,
        forall|k: int|
            0 <= k < size as int ==> (#[trigger] m@[k]).0 as int == tri(k + 1) && m@[k].1 as int
                == k + 1,
{
    let mut m: Vec<(usize, usize)> = Vec::new();
    let mut k: usize = 0;
    let mut t: usize = 0;
    while k < size
        invariant
            (size as int) * (size as int + 1) <= usize::MAX as int,
            0 <= k as int && (k as int) <= size as int,
            t as int == tri(k as int),
            m@.len() == k as int,
            forall|kk: int|
                0 <= kk < k as int ==> (#[trigger] m@[kk]).0 as int == tri(kk + 1) && m@[kk].1
                    as int == kk + 1,
        decreases size as int - k as int,
    {
        proof {
            lemma_tri_mono(k as int + 1, size as int);
            lemma_tri_formula(size as int);
            lemma_tri_nonneg(size as int);
            assert(tri(k as int + 1) == (k as int + 1) + tri(k as int));
        }
        t = t + k + 1;
        k = k + 1;
        m.push((t, k));
    }
    m
}

/// The list of row-ending indices alone: entry `r` is `tri(r + 1)`, the
/// index that ends row `r`.
pub fn triangle_numbers_list(size: usize) -> (v: Vec<usize>)
    requires
        (size as int) * (size as int + 1) <= usize::MAX as int,
    ensures
        v@.len() == size as int,
        forall|r: int| 0 <= r < size as int ==> (#[trigger] v@[r]) as int == tri(r + 1),
{
    let mut v: Vec<usize> = Vec::new();
    let mut k: usize = 0;
    let mut t: usize = 0;
    while k < size
        invariant
            (size as int) * (size as int + 1) <= usize::MAX as int,
            0 <= k as int && (k as int) <= size as int,
            t as int == tri(k as int),
            v@.len() == k as int,
            forall|r: int| 0 <= r < k as int ==> (#[trigger] v@[r]) as int == tri(r + 1),
        decreases size as int - k as int,
    {
        proof {
            lemma_tri_mono(k as int + 1, size as int);
            lemma_tri_formula(size as int);
            lemma_tri_nonneg(size as int);
            assert(tri(k as int + 1) == (k as int + 1) + tri(k as int));
        }
        t = t + k + 1;
        k = k + 1;
        v.push(t);
    }
    v
}

} // verus!
