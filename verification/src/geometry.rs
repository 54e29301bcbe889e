//! The padded grid: positions, rows and columns, interior and border.
//!
//! A board of playable side `size` lives on a square grid of side `size + 2`.
//! Row `0`, row `size + 1`, column `0` and column `size + 1` form the border;
//! everything inside is the interior. Positions are numbered row by row.

use vstd::arithmetic::div_mod::{lemma_fundamental_div_mod, lemma_fundamental_div_mod_converse};
use vstd::prelude::*;
use vstd::set_lib::{lemma_int_range, lemma_set_difference_len, lemma_set_disjoint_lens, set_int_range};

use crate::bitboard::Bitboard;

verus! {

/// Side length of the padded grid.
pub open spec fn padded_side(size: nat) -> nat {
    size + 2
}

/// Number of positions of the padded grid.
pub open spec fn position_count(size: nat) -> nat {
    padded_side(size) * padded_side(size)
}

/// The position at `row` and `col` of the padded grid.
pub open spec fn position(size: nat, row: int, col: int) -> int {
    row * padded_side(size) + col
}

/// The row of the padded grid that position `p` lies in.
pub open spec fn row_of(size: nat, p: int) -> int {
    p / (padded_side(size) as int)
}

/// The column of the padded grid that position `p` lies in.
pub open spec fn col_of(size: nat, p: int) -> int {
    p % (padded_side(size) as int)
}

/// Whether `p` addresses a cell of the padded grid.
pub open spec fn is_position(size: nat, p: int) -> bool {
    0 <= p < position_count(size)
}

/// Whether `p` is a playable intersection: neither its row nor its column is
/// the first or the last of the padded grid.
pub open spec fn is_interior(size: nat, p: int) -> bool {
    &&& 1 <= row_of(size, p) <= size
    &&& 1 <= col_of(size, p) <= size
}

/// Whether `p` is a cell of the ring around the playable intersections.
pub open spec fn is_border(size: nat, p: int) -> bool {
    is_position(size, p) && !is_interior(size, p)
}

/// All positions of the padded grid.
pub open spec fn positions(size: nat) -> Set<int> {
    set_int_range(0, position_count(size) as int)
}

/// The playable intersections.
pub open spec fn interior(size: nat) -> Set<int> {
    Set::new(|p: int| is_interior(size, p))
}

/// The ring around the playable intersections.
pub open spec fn border(size: nat) -> Set<int> {
    Set::new(|p: int| is_border(size, p))
}

/// The playable intersections that lie in rows `1..=rows`.
spec fn interior_rows(size: nat, rows: int) -> Set<int> {
    Set::new(|p: int| is_interior(size, p) && row_of(size, p) <= rows)
}

/// Position `p` lies in `row` exactly when it falls into that row's run of
/// `size + 2` consecutive positions, and its column is its offset in the run.
pub proof fn lemma_row_span(size: nat, p: int, row: int)
    ensures
        row_of(size, p) == row <==> row * padded_side(size) <= p < (row + 1) * padded_side(size),
        row_of(size, p) == row ==> col_of(size, p) == p - row * padded_side(size),
        (row + 1) * padded_side(size) == row * padded_side(size) + size + 2,
{
    let side = padded_side(size) as int;
    lemma_fundamental_div_mod(p, side);
    assert((row + 1) * side == row * side + side) by (nonlinear_arith);
    assert(side * (p / side) == (p / side) * side) by (nonlinear_arith);
    if row * side <= p < (row + 1) * side {
        lemma_fundamental_div_mod_converse(p, side, row, p - row * side);
    }
}

/// Rows and columns address positions one to one.
pub proof fn lemma_position_row_col(size: nat, row: int, col: int)
    requires
        0 <= col < padded_side(size),
    ensures
        row_of(size, position(size, row, col)) == row,
        col_of(size, position(size, row, col)) == col,
{
    lemma_row_span(size, position(size, row, col), row);
}

/// A cell of the padded grid is a position whose row and column both lie in
/// `0..size + 2`; every position is the one at its row and column.
pub proof fn lemma_row_col_position(size: nat, p: int)
    ensures
        position(size, row_of(size, p), col_of(size, p)) == p,
        0 <= col_of(size, p) < padded_side(size),
        is_position(size, p) <==> 0 <= row_of(size, p) < padded_side(size),
{
    let side = padded_side(size) as int;
    let row = row_of(size, p);
    lemma_row_span(size, p, row);
    assert(0 * side == 0 && side * side == (side - 1 + 1) * side) by (nonlinear_arith);
    if row < 0 {
        assert((row + 1) * side <= 0) by (nonlinear_arith)
            requires
                row + 1 <= 0,
                side > 0,
        ;
    } else {
        assert(0 <= row * side) by (nonlinear_arith)
            requires
                0 <= row,
                side > 0,
        ;
    }
    if row >= side {
        assert(side * side <= row * side) by (nonlinear_arith)
            requires
                side <= row,
                side > 0,
        ;
    } else {
        assert((row + 1) * side <= side * side) by (nonlinear_arith)
            requires
                row + 1 <= side,
                side > 0,
        ;
    }
}

/// The playable intersections of rows `1..=row` are those of rows `1..row`
/// together with the run of row `row` without its first and last position.
proof fn lemma_interior_row_step(size: nat, row: int)
    requires
        1 <= row <= size,
    ensures
        interior_rows(size, row) == interior_rows(size, row - 1).union(
            set_int_range(row * padded_side(size), (row + 1) * padded_side(size)),
        ).remove(row * padded_side(size)).remove(row * padded_side(size) + size + 1),
{
    let side = padded_side(size) as int;
    let built = interior_rows(size, row - 1).union(
        set_int_range(row * side, (row + 1) * side),
    ).remove(row * side).remove(row * side + size + 1);
    assert forall|p: int| #[trigger] built.contains(p) <==> interior_rows(size, row).contains(p) by {
        lemma_row_span(size, p, row);
    }
    assert(built =~= interior_rows(size, row));
}

/// Rows `1..=rows` hold `size` playable intersections each.
proof fn lemma_interior_rows_len(size: nat, rows: int)
    requires
        0 <= rows <= size,
    ensures
        interior_rows(size, rows).finite(),
        interior_rows(size, rows).len() == rows * size,
    decreases rows,
{
    let side = padded_side(size) as int;
    if rows == 0 {
        assert(interior_rows(size, 0) =~= Set::<int>::empty());
        assert(0 * size == 0) by (nonlinear_arith);
    } else {
        let below = interior_rows(size, rows - 1);
        let run = set_int_range(rows * side + 1, rows * side + size + 1);
        lemma_interior_rows_len(size, rows - 1);
        lemma_int_range(rows * side + 1, rows * side + size + 1);
        assert forall|p: int| #[trigger] interior_rows(size, rows).contains(p) <==> below.contains(p)
            || run.contains(p) by {
            lemma_row_span(size, p, rows);
        }
        assert(interior_rows(size, rows) =~= below + run);
        assert(below.disjoint(run)) by {
            assert forall|p: int| !(below.contains(p) && run.contains(p)) by {
                lemma_row_span(size, p, rows);
            }
        }
        lemma_set_disjoint_lens(below, run);
        assert(rows * size == (rows - 1) * size + size) by (nonlinear_arith);
    }
}

/// There are `size * size` playable intersections.
pub proof fn lemma_interior_len(size: nat)
    ensures
        interior(size).finite(),
        interior(size).len() == size * size,
{
    lemma_interior_rows_len(size, size as int);
    assert(interior(size) =~= interior_rows(size, size as int));
}

/// The playable intersections and the border split the padded grid: no
/// position is in both, and every position is in one of them.
pub proof fn lemma_partition(size: nat)
    ensures
        interior(size).disjoint(border(size)),
        interior(size).union(border(size)) == positions(size),
        border(size) == positions(size).difference(interior(size)),
{
    assert forall|p: int| is_interior(size, p) implies is_position(size, p) by {
        lemma_row_col_position(size, p);
    }
    assert(interior(size).union(border(size)) =~= positions(size));
    assert(border(size) =~= positions(size).difference(interior(size)));
}

/// The border holds every position that is not a playable intersection:
/// `(size + 2)^2 - size * size` of them.
pub proof fn lemma_border_len(size: nat)
    ensures
        border(size).finite(),
        border(size).len() == position_count(size) - size * size,
{
    lemma_partition(size);
    lemma_interior_len(size);
    lemma_int_range(0, position_count(size) as int);
    lemma_set_difference_len(positions(size), interior(size));
    assert(positions(size).intersect(interior(size)) =~= interior(size));
}

/// The position at an inner row and an inner column is a playable
/// intersection and not part of the border.
pub proof fn lemma_interior_cell(size: nat, row: int, col: int)
    requires
        1 <= row <= size,
        1 <= col <= size,
    ensures
        is_position(size, position(size, row, col)),
        interior(size).contains(position(size, row, col)),
        !border(size).contains(position(size, row, col)),
{
    lemma_position_row_col(size, row, col);
    lemma_row_col_position(size, position(size, row, col));
}

/// The position at the first or last row, or at the first or last column, is
/// part of the border and not a playable intersection.
pub proof fn lemma_border_cell(size: nat, row: int, col: int)
    requires
        0 <= row <= size + 1,
        0 <= col <= size + 1,
        row == 0 || row == size + 1 || col == 0 || col == size + 1,
    ensures
        is_position(size, position(size, row, col)),
        border(size).contains(position(size, row, col)),
        !interior(size).contains(position(size, row, col)),
{
    lemma_position_row_col(size, row, col);
    lemma_row_col_position(size, position(size, row, col));
}

/// The padded grid of a board of side at most 65533 fits every machine
/// this library runs on.
pub proof fn lemma_small_boards_fit(size: nat)
    requires
        size + 2 <= 0xffff,
    ensures
        (size + 2) * (size + 2) <= usize::MAX,
{
    assert((size + 2) * (size + 2) <= 0xffff * 0xffff) by (nonlinear_arith)
        requires
            size + 2 <= 0xffff,
    ;
}

/// Builds the two regions of an empty board of playable side `size`: the
/// playable intersections and the border around them, each over the
/// `(size + 2)^2` positions of the padded grid.
///
/// Each inner row is set as a whole line and then loses its first and last
/// position; the border is the complement of what remains.
pub fn build_geometry(size: usize) -> (regions: (Bitboard, Bitboard))
    requires
        1 <= size,
        (size + 2) * (size + 2) <= usize::MAX,
    ensures
        regions.0.capacity() == position_count(size as nat),
        regions.1.capacity() == position_count(size as nat),
        regions.0@ == interior(size as nat),
        regions.1@ == border(size as nat),
{
    proof {
        assert(size + 2 <= (size + 2) * (size + 2)) by (nonlinear_arith);
    }
    let side: usize = size + 2;
    let mut empty_intersections = Bitboard::new(side * side);
    proof {
        assert(empty_intersections@ =~= interior_rows(size as nat, 0));
    }
    for line in 1..size + 1
        invariant
            side == size + 2,
            side * side <= usize::MAX,
            empty_intersections.capacity() == side * side,
            empty_intersections@ == interior_rows(size as nat, line - 1),
    {
        proof {
            lemma_row_span(size as nat, line * side, line as int);
            assert((line + 1) * side <= side * side) by (nonlinear_arith)
                requires
                    line + 1 <= side,
            ;
            lemma_interior_row_step(size as nat, line as int);
        }
        empty_intersections.set_whole_line(line, side);
        empty_intersections.unset(line * side);
        empty_intersections.unset(line * side + size + 1);
    }
    let mut out_of_bound_intersections = empty_intersections.clone();
    out_of_bound_intersections.flip();
    proof {
        assert(empty_intersections@ =~= interior(size as nat));
        lemma_partition(size as nat);
    }
    (empty_intersections, out_of_bound_intersections)
}

} // verus!
