//! The board statistics that an evaluator scores: buried holes, bumpiness
//! and aggregate height, each summed up column by column.

use vstd::prelude::*;
use crate::board::{is_board, BOARD_HEIGHT, BOARD_WIDTH};
use crate::pieces::grid_of;

verus! {

/// Number of occupied cells of column `c` in the rows before `n`: the fill
/// count of the column, whatever the rows of its occupied cells.
pub open spec fn column_count(g: Seq<Seq<u8>>, c: int, n: int) -> int
    decreases n,
{
    if n <= 0 {
        0
    } else {
        column_count(g, c, n - 1) + if g[n - 1][c] != 0 {
            1int
        } else {
            0int
        }
    }
}

/// Sum, over the occupied cells of column `c` in the rows from 1 up to, not
/// including, `n`, of the cell's height above the floor: `BOARD_HEIGHT` less
/// its row.
pub open spec fn column_height(g: Seq<Seq<u8>>, c: int, n: int) -> int
    decreases n,
{
    if n <= 1 {
        0
    } else {
        column_height(g, c, n - 1) + if g[n - 1][c] != 0 {
            BOARD_HEIGHT - (n - 1)
        } else {
            0int
        }
    }
}

/// Some cell of column `c` above row `r` is occupied.
pub open spec fn is_covered(g: Seq<Seq<u8>>, c: int, r: int) -> bool {
    exists|f: int| 0 <= f < r && (#[trigger] g[f])[c] != 0
}

/// The cell at row `r`, column `c` is a hole: empty, with an occupied cell
/// somewhere above it in its column.
pub open spec fn is_hole(g: Seq<Seq<u8>>, c: int, r: int) -> bool {
    g[r][c] == 0 && is_covered(g, c, r)
}

/// Number of holes of column `c` in the rows before `n`.
pub open spec fn column_holes(g: Seq<Seq<u8>>, c: int, n: int) -> int
    decreases n,
{
    if n <= 0 {
        0
    } else {
        column_holes(g, c, n - 1) + if is_hole(g, c, n - 1) {
            1int
        } else {
            0int
        }
    }
}

/// Holes of the columns before `n`.
pub open spec fn holes_upto(g: Seq<Seq<u8>>, n: int) -> int
    decreases n,
{
    if n <= 0 {
        0
    } else {
        holes_upto(g, n - 1) + column_holes(g, n - 1, BOARD_HEIGHT as int)
    }
}

/// Height sums of the columns before `n`.
pub open spec fn height_upto(g: Seq<Seq<u8>>, n: int) -> int
    decreases n,
{
    if n <= 0 {
        0
    } else {
        height_upto(g, n - 1) + column_height(g, n - 1, BOARD_HEIGHT as int)
    }
}

/// Distance between two counts.
pub open spec fn gap(a: int, b: int) -> int {
    if a >= b {
        a - b
    } else {
        b - a
    }
}

/// Sum of the gaps between the fill counts of columns `c` and `c + 1`, for
/// the columns `c` before `n`.
pub open spec fn bumpiness_upto(g: Seq<Seq<u8>>, n: int) -> int
    decreases n,
{
    if n <= 0 {
        0
    } else {
        bumpiness_upto(g, n - 1) + gap(
            column_count(g, n - 1, BOARD_HEIGHT as int),
            column_count(g, n, BOARD_HEIGHT as int),
        )
    }
}

/// Number of buried empty cells of the board: every empty cell that has an
/// occupied cell above it in its column.
pub open spec fn holes(g: Seq<Seq<u8>>) -> int {
    holes_upto(g, BOARD_WIDTH as int)
}

/// Sum, over every occupied cell below row 0, of its height above the
/// floor. A stack counts once for each of its cells.
pub open spec fn aggregate_height(g: Seq<Seq<u8>>) -> int {
    height_upto(g, BOARD_WIDTH as int)
}

/// Sum of the gaps between the fill counts of neighbouring columns. The
/// fill count of a column is the number of its occupied cells, not the
/// height of its topmost one.
pub open spec fn bumpiness(g: Seq<Seq<u8>>) -> int {
    bumpiness_upto(g, BOARD_WIDTH - 1)
}

/// The three statistics of one column: its holes, its fill count and its
/// height sum.
pub fn column_statistics(board: &Vec<Vec<u8>>, c: usize) -> (out: (usize, usize, usize))
    requires
        is_board(grid_of(*board)),
        c < BOARD_WIDTH,
    ensures
        out.0 == column_holes(grid_of(*board), c as int, BOARD_HEIGHT as int),
        out.1 == column_count(grid_of(*board), c as int, BOARD_HEIGHT as int),
        out.2 == column_height(grid_of(*board), c as int, BOARD_HEIGHT as int),
        out.0 <= BOARD_HEIGHT,
        out.1 <= BOARD_HEIGHT,
        out.2 <= 484,
{
    let ghost g = grid_of(*board);
    let mut holes: usize = 0;
    let mut fill: usize = 0;
    let mut height: usize = 0;
    let mut covered: bool = false;
    let mut r: usize = 0;
    while r < BOARD_HEIGHT
        invariant
            r <= BOARD_HEIGHT,
            c < BOARD_WIDTH,
            g == grid_of(*board),
            is_board(g),
            covered == is_covered(g, c as int, r as int),
            holes == column_holes(g, c as int, r as int),
            fill == column_count(g, c as int, r as int),
            height == column_height(g, c as int, r as int),
            holes <= r,
            fill <= r,
            height <= BOARD_HEIGHT * r,
        decreases BOARD_HEIGHT - r,
    {
        assert(g[r as int].len() == BOARD_WIDTH);
        let cell: u8 = board[r][c];
        if cell != 0 {
            fill += 1;
            if r >= 1 {
                height += BOARD_HEIGHT - r;
            }
        } else if covered {
            holes += 1;
        }
        proof {
            if cell != 0 {
                assert(g[r as int][c as int] != 0);
                assert(is_covered(g, c as int, r + 1));
            } else if covered {
                let f = choose|f: int| 0 <= f < r && (#[trigger] g[f])[c as int] != 0;
                assert(0 <= f < r + 1 && g[f][c as int] != 0);
                assert(is_covered(g, c as int, r + 1));
            } else {
                assert(!is_covered(g, c as int, r + 1)) by {
                    if is_covered(g, c as int, r + 1) {
                        let f = choose|f: int| 0 <= f < r + 1 && (#[trigger] g[f])[c as int] != 0;
                        if f < r {
                            assert(is_covered(g, c as int, r as int));
                        }
                    }
                }
            }
        }
        if cell != 0 {
            covered = true;
        }
        r += 1;
    }
    (holes, fill, height)
}

/// The holes, the bumpiness and the aggregate height of the board.
pub fn board_statistics(board: &Vec<Vec<u8>>) -> (out: (usize, usize, usize))
    requires
        is_board(grid_of(*board)),
    ensures
        out.0 == holes(grid_of(*board)),
        out.1 == bumpiness(grid_of(*board)),
        out.2 == aggregate_height(grid_of(*board)),
{
    let ghost g = grid_of(*board);
    let mut holes: usize = 0;
    let mut height: usize = 0;
    let mut bumps: usize = 0;
    let mut previous: usize = 0;
    let mut c: usize = 0;
    while c < BOARD_WIDTH
        invariant
            c <= BOARD_WIDTH,
            g == grid_of(*board),
            is_board(g),
            holes == holes_upto(g, c as int),
            height == height_upto(g, c as int),
            bumps == bumpiness_upto(g, c - 1),
            c > 0 ==> previous == column_count(g, c - 1, BOARD_HEIGHT as int),
            previous <= BOARD_HEIGHT,
            holes <= BOARD_HEIGHT * c,
            height <= 484 * c,
            bumps <= BOARD_HEIGHT * c,
        decreases BOARD_WIDTH - c,
    {
        let column = column_statistics(board, c);
        holes += column.0;
        height += column.2;
        if c > 0 {
            if previous >= column.1 {
                bumps += previous - column.1;
            } else {
                bumps += column.1 - previous;
            }
        }
        previous = column.1;
        c += 1;
    }
    (holes, bumps, height)
}

} // verus!
