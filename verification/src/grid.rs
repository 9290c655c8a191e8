//! The cells of the grid layout: as many columns as the square root of the
//! node count rounded up, rows filled left to right, top to bottom.
use vstd::prelude::*;

verus! {

/// Whether `c` is the column count for `n` nodes: the least `c >= 1` with
/// `c * c >= n` (the square root of `n`, rounded up).
pub open spec fn is_grid_columns(n: nat, c: nat) -> bool {
    &&& c >= 1
    &&& c * c >= n
    &&& (c == 1 || (c - 1) * (c - 1) < n)
}

/// The number of columns for `n` nodes (see `is_grid_columns`).
pub fn grid_columns(n: u32) -> (c: u32)
    ensures
        is_grid_columns(n as nat, c as nat),
{
    let mut c: u64 = 1;
    let big: u64 = n as u64;
    while c * c < big
        invariant
            1 <= c <= 0x1_0000,
            c * c <= 0x1_0000_0000,
            c == 1 || (c - 1) * (c - 1) < big,
            big == n as u64,
            n <= 0xFFFF_FFFF,
        decreases big - c,
    {
        assert(c < 0x1_0000) by (nonlinear_arith)
            requires
                c * c < big,
                big <= 0xFFFF_FFFF,
                c >= 1,
        ;
        assert(c < big) by (nonlinear_arith)
            requires
                c * c < big,
                c >= 1,
        ;
        assert((c + 1) * (c + 1) <= 0x1_0000_0000) by (nonlinear_arith)
            requires
                c < 0x1_0000,
        ;
        c = c + 1;
    }
    c as u32
}

/// The number of rows `cols` columns take for `n` nodes.
pub fn grid_rows(n: u32, cols: u32) -> (r: u32)
    requires
        cols >= 1,
    ensures
        r == (n as int + cols as int - 1) / cols as int,
{
    let total: u64 = n as u64 + cols as u64 - 1;
    let r: u64 = total / cols as u64;
    assert(r <= n) by (nonlinear_arith)
        requires
            cols >= 1,
            total == n + cols - 1,
            r == total / cols as u64,
    ;
    r as u32
}

/// The (column, row) of the `i`-th node in a grid of `cols` columns.
pub fn grid_cell(i: u32, cols: u32) -> (cell: (u32, u32))
    requires
        cols >= 1,
    ensures
        cell.0 < cols,
        cell.0 == i % cols,
        cell.1 == i / cols,
        cell.1 * cols + cell.0 == i,
{
    let cell = (i % cols, i / cols);
    assert(cell.1 * cols + cell.0 == i) by (nonlinear_arith)
        requires
            cols >= 1,
            cell.0 == i % cols,
            cell.1 == i / cols,
    ;
    cell
}

} // verus!
