//! Bit-packed board: one `u64` per side, column-major, seven bits per column
//! (six playable rows and one sentinel row above them).
use vstd::arithmetic::div_mod::lemma_fundamental_div_mod_converse;
use vstd::prelude::*;

verus! {

/// One bit per column, at the sentinel row just above the playable cells.
pub const TOP_MASK: u64 = 283691315109952;

/// Whether bit `i` of `mask` is set.
pub open spec fn has_stone(mask: u64, i: u64) -> bool {
    (mask >> i) & 1u64 == 1u64
}

/// Whether `i` is a bit index of `mask` and that bit is set.
pub open spec fn stone_at(mask: u64, i: int) -> bool {
    0 <= i < 64 && has_stone(mask, i as u64)
}

/// The bit offsets between neighbouring cells of a line: vertical (1), the two
/// diagonals (6 and 8) and horizontal (7).
pub open spec fn is_step(step: int) -> bool {
    step == 1 || step == 6 || step == 7 || step == 8
}

/// Four set bits at `start`, `start + step`, `start + 2 * step`, `start + 3 * step`.
pub open spec fn four_from(mask: u64, start: int, step: int) -> bool {
    &&& stone_at(mask, start)
    &&& stone_at(mask, start + step)
    &&& stone_at(mask, start + 2 * step)
    &&& stone_at(mask, start + 3 * step)
}

/// Some run of four set bits, evenly spaced by `step`.
pub open spec fn has_four_along(mask: u64, step: int) -> bool {
    exists|start: int| four_from(mask, start, step)
}

/// Some run of four set bits spaced by one of the line steps.
pub open spec fn has_four(mask: u64) -> bool {
    exists|step: int| is_step(step) && has_four_along(mask, step)
}

proof fn lemma_quad_bit(m: u64, d: u64, i: u64)
    by (bit_vector)
    requires
        1 <= d <= 8,
        i < 64,
    ensures
        (((m & (m >> d)) & ((m & (m >> d)) >> (2 * d))) >> i) & 1u64 == 1u64 <==> (i + 3 * d
            < 64 && (m >> i) & 1u64 == 1u64 && (m >> (i + d)) & 1u64 == 1u64 && (m >> (i + 2
            * d)) & 1u64 == 1u64 && (m >> (i + 3 * d)) & 1u64 == 1u64),
{
}

proof fn lemma_stone_of_shifted(x: u64, n: u64)
    by (bit_vector)
    requires
        n < 64,
        x >> n != 0,
        (x >> n) & 1u64 != 1u64,
    ensures
        n + 1 < 64,
        x >> ((n + 1) as u64) != 0,
{
}

/// When some bit of `x` at or above `n` is set, one of them can be named.
proof fn lemma_some_stone_from(x: u64, n: u64)
    requires
        n < 64,
        x >> n != 0,
    ensures
        exists|i: u64| n <= i < 64 && #[trigger] has_stone(x, i),
    decreases 64 - n,
{
    if !has_stone(x, n) {
        lemma_stone_of_shifted(x, n);
        lemma_some_stone_from(x, (n + 1) as u64);
    }
}

/// A mask is nonzero exactly when one of its bits is set.
proof fn lemma_nonzero_iff_stone(x: u64)
    ensures
        x != 0 <==> exists|i: u64| i < 64 && #[trigger] has_stone(x, i),
{
    if x != 0 {
        assert(x >> 0u64 == x) by (bit_vector);
        lemma_some_stone_from(x, 0);
    }
    assert forall|i: u64| i < 64 && #[trigger] has_stone(x, i) implies x != 0 by {
        assert(i < 64 && (x >> i) & 1u64 == 1u64 ==> x != 0) by (bit_vector);
    }
}

/// Whether `mask` holds four set bits spaced by `step`, tested with two
/// shift-and-mask rounds.
fn four_along(mask: u64, step: u64) -> (r: bool)
    requires
        1 <= step <= 8,
    ensures
        r == has_four_along(mask, step as int),
{
    let pair = mask & (mask >> step);
    let quad = pair & (pair >> (2 * step));
    proof {
        lemma_nonzero_iff_stone(quad);
        if quad != 0 {
            let i = choose|i: u64| i < 64 && #[trigger] has_stone(quad, i);
            lemma_quad_bit(mask, step, i);
            assert(four_from(mask, i as int, step as int));
        }
        assert forall|start: int| #[trigger] four_from(mask, start, step as int) implies quad != 0 by {
            lemma_quad_bit(mask, step, start as u64);
            assert(has_stone(quad, start as u64));
        }
    }
    quad != 0
}

/// Whether the stones of one side, given as a bitboard, hold four in a line.
/// The directions are tried in a fixed order: vertical, horizontal and the two
/// diagonals.
pub fn did_win(mask: u64) -> (r: bool)
    ensures
        r == has_four(mask),
{
    let directions: [u64; 4] = [1, 7, 6, 8];
    let mut k: usize = 0;
    while k < 4
        invariant
            k <= 4,
            directions@ == seq![1u64, 7u64, 6u64, 8u64],
            forall|j: int| 0 <= j < k ==> !has_four_along(mask, directions@[j] as int),
        decreases 4 - k,
    {
        if four_along(mask, directions[k]) {
            assert(is_step(directions@[k as int] as int));
            return true;
        }
        k = k + 1;
    }
    assert forall|step: int| is_step(step) implies !has_four_along(mask, step) by {
        if step == 1 {
            assert(directions@[0] == 1);
        } else if step == 7 {
            assert(directions@[1] == 7);
        } else if step == 6 {
            assert(directions@[2] == 6);
        } else {
            assert(directions@[3] == 8);
        }
    }
    false
}

/// Whether (`column`, `row`) is a playable cell of the 7 x 6 board.
pub open spec fn is_cell(column: int, row: int) -> bool {
    0 <= column < 7 && 0 <= row < 6
}

/// Bit index of the cell (`column`, `row`).
pub open spec fn cell_index(column: int, row: int) -> int {
    7 * column + row
}

/// Whether (`column`, `row`) is a playable cell holding a stone of `mask`.
pub open spec fn stone_on_cell(mask: u64, column: int, row: int) -> bool {
    is_cell(column, row) && stone_at(mask, cell_index(column, row))
}

/// A line direction on the board, as a step in columns and a step in rows:
/// up a column, along a row, and the two diagonals.
pub open spec fn is_direction(dc: int, dr: int) -> bool {
    ||| (dc == 0 && dr == 1)
    ||| (dc == 1 && dr == 0)
    ||| (dc == 1 && dr == 1)
    ||| (dc == 1 && dr == -1)
}

/// Four stones of `mask` on consecutive cells from (`column`, `row`) in direction (`dc`, `dr`).
pub open spec fn line_from(mask: u64, column: int, row: int, dc: int, dr: int) -> bool {
    &&& stone_on_cell(mask, column, row)
    &&& stone_on_cell(mask, column + dc, row + dr)
    &&& stone_on_cell(mask, column + 2 * dc, row + 2 * dr)
    &&& stone_on_cell(mask, column + 3 * dc, row + 3 * dr)
}

/// Four stones of `mask` in a row, a column or a diagonal of the board.
pub open spec fn has_line_of_four(mask: u64) -> bool {
    exists|column: int, row: int, dc: int, dr: int|
        is_direction(dc, dr) && #[trigger] line_from(mask, column, row, dc, dr)
}

/// Every set bit of `mask` is a playable cell: none lies in a sentinel row or
/// above the last column.
pub open spec fn only_cells(mask: u64) -> bool {
    forall|i: u64| i < 64 && #[trigger] has_stone(mask, i) ==> i < 49 && i % 7 < 6
}

proof fn lemma_cell_of_index(i: int, column: int, row: int)
    requires
        0 <= row < 7,
        i == 7 * column + row,
    ensures
        i % 7 == row,
        i / 7 == column,
{
    lemma_fundamental_div_mod_converse(i, 7, column, row);
}

/// A stone of a mask with only playable cells stands on a playable row.
proof fn lemma_stone_row(mask: u64, i: int, column: int, row: int)
    requires
        only_cells(mask),
        stone_at(mask, i),
        0 <= row < 7,
        i == 7 * column + row,
    ensures
        row < 6,
{
    assert(has_stone(mask, i as u64));
    lemma_cell_of_index(i, column, row);
}

proof fn lemma_line_is_run(mask: u64, column: int, row: int, dc: int, dr: int)
    requires
        is_direction(dc, dr),
        line_from(mask, column, row, dc, dr),
    ensures
        has_four(mask),
{
    let step = 7 * dc + dr;
    let start = cell_index(column, row);
    assert(four_from(mask, start, step));
    assert(is_step(step) && has_four_along(mask, step));
}

proof fn lemma_run_is_line(mask: u64, start: int, step: int)
    requires
        only_cells(mask),
        is_step(step),
        four_from(mask, start, step),
    ensures
        has_line_of_four(mask),
{
    let column = start / 7;
    let row = start % 7;
    lemma_cell_of_index(start, column, row);
    assert(has_stone(mask, start as u64));
    assert(has_stone(mask, (start + step) as u64));
    assert(has_stone(mask, (start + 2 * step) as u64));
    assert(has_stone(mask, (start + 3 * step) as u64));
    if step == 1 {
        if row >= 3 {
            lemma_stone_row(mask, start + (6 - row), column, 6);
        }
        assert(line_from(mask, column, row, 0, 1));
    } else if step == 7 {
        assert(line_from(mask, column, row, 1, 0));
    } else if step == 8 {
        if row >= 3 {
            lemma_stone_row(mask, start + (6 - row) * 8, column + 6 - row, 6);
        }
        assert(line_from(mask, column, row, 1, 1));
    } else {
        if row < 3 {
            lemma_stone_row(mask, start + (row + 1) * 6, column + row, 6);
        }
        assert(line_from(mask, column, row, 1, -1));
    }
}

/// On a mask whose stones all stand on playable cells, a run of four bits
/// spaced by a line step is exactly four stones in a row, a column or a
/// diagonal: no run wraps from one column into the next.
pub proof fn lemma_win_is_line_of_four(mask: u64)
    requires
        only_cells(mask),
    ensures
        has_four(mask) <==> has_line_of_four(mask),
{
    if has_four(mask) {
        let step = choose|step: int| is_step(step) && has_four_along(mask, step);
        let start = choose|start: int| four_from(mask, start, step);
        lemma_run_is_line(mask, start, step);
    }
    if has_line_of_four(mask) {
        let (column, row, dc, dr) = choose|column: int, row: int, dc: int, dr: int|
            is_direction(dc, dr) && #[trigger] line_from(mask, column, row, dc, dr);
        lemma_line_is_run(mask, column, row, dc, dr);
    }
}

} // verus!
