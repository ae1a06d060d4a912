//! The board grid and the physics of a placement: where a piece comes to
//! rest, how it is stamped onto the grid, and how full rows are cleared.

use vstd::prelude::*;
use crate::pieces::{
    cells_are, filled_before, filled_cells, filled_in_row, grid_of, is_rect, row_occupied,
};

verus! {

/// Number of columns of the board.
pub const BOARD_WIDTH: usize = 10;

/// Number of rows of the board; row 0 is the top.
pub const BOARD_HEIGHT: usize = 22;

/// A grid of the board's dimensions.
pub open spec fn is_board(g: Seq<Seq<u8>>) -> bool {
    &&& g.len() == BOARD_HEIGHT
    &&& forall|r: int| 0 <= r < g.len() ==> (#[trigger] g[r]).len() == BOARD_WIDTH
}

/// Every cell of the grid holds a code from 0 to 7.
pub open spec fn codes_ok(g: Seq<Seq<u8>>) -> bool {
    forall|r: int, c: int| 0 <= r < g.len() && 0 <= c < g[r].len() ==> #[trigger] g[r][c] <= 7
}

/// A row of the board's width with every cell empty.
pub open spec fn empty_row() -> Seq<u8> {
    Seq::new(BOARD_WIDTH as nat, |c: int| 0u8)
}

/// `n` empty rows.
pub open spec fn empty_rows(n: int) -> Seq<Seq<u8>> {
    Seq::new(n as nat, |r: int| empty_row())
}

/// A fresh empty row of the board's width.
pub fn blank_row() -> (row: Vec<u8>)
    ensures
        row@ == empty_row(),
{
    let mut row: Vec<u8> = Vec::new();
    let mut c: usize = 0;
    while c < BOARD_WIDTH
        invariant
            c <= BOARD_WIDTH,
            row.len() == c,
            forall|a: int| 0 <= a < c ==> row[a] == 0,
        decreases BOARD_WIDTH - c,
    {
        row.push(0);
        c += 1;
    }
    assert(row@ =~= empty_row());
    row
}

/// A board with every cell empty.
pub fn blank_board() -> (board: Vec<Vec<u8>>)
    ensures
        grid_of(board) == empty_rows(BOARD_HEIGHT as int),
        is_board(grid_of(board)),
        codes_ok(grid_of(board)),
{
    let mut board: Vec<Vec<u8>> = Vec::new();
    let mut r: usize = 0;
    while r < BOARD_HEIGHT
        invariant
            r <= BOARD_HEIGHT,
            board.len() == r,
            forall|a: int| 0 <= a < r ==> (#[trigger] board[a])@ == empty_row(),
        decreases BOARD_HEIGHT - r,
    {
        board.push(blank_row());
        r += 1;
    }
    assert(grid_of(board) =~= empty_rows(BOARD_HEIGHT as int));
    board
}

/// Whether the rows and cells are those of a board: the board's dimensions,
/// and codes from 0 to 7.
pub fn is_valid_board(board: &Vec<Vec<u8>>) -> (ok: bool)
    ensures
        ok == (is_board(grid_of(*board)) && codes_ok(grid_of(*board))),
{
    let ghost g = grid_of(*board);
    if board.len() != BOARD_HEIGHT {
        return false;
    }
    let mut r: usize = 0;
    while r < BOARD_HEIGHT
        invariant
            r <= BOARD_HEIGHT,
            g == grid_of(*board),
            g.len() == BOARD_HEIGHT,
            forall|a: int| 0 <= a < r ==> (#[trigger] g[a]).len() == BOARD_WIDTH,
            forall|a: int, b: int| 0 <= a < r && 0 <= b < g[a].len() ==> #[trigger] g[a][b] <= 7,
        decreases BOARD_HEIGHT - r,
    {
        if board[r].len() != BOARD_WIDTH {
            assert(g[r as int].len() != BOARD_WIDTH);
            return false;
        }
        let mut c: usize = 0;
        while c < BOARD_WIDTH
            invariant
                c <= BOARD_WIDTH,
                r < BOARD_HEIGHT,
                g == grid_of(*board),
                g.len() == BOARD_HEIGHT,
                g[r as int].len() == BOARD_WIDTH,
                forall|b: int| 0 <= b < c ==> #[trigger] g[r as int][b] <= 7,
            decreases BOARD_WIDTH - c,
        {
            if board[r][c] > 7 {
                assert(g[r as int][c as int] > 7);
                return false;
            }
            c += 1;
        }
        r += 1;
    }
    true
}

/// A cell matrix that can be dropped at column `x`: rectangular, not empty,
/// no taller than the board, and inside the board's width from `x` on.
pub open spec fn fits(s: Seq<Seq<u8>>, x: int) -> bool {
    &&& is_rect(s, s.len() as int, s[0].len() as int)
    &&& s.len() <= BOARD_HEIGHT
    &&& s[0].len() > 0
    &&& 0 <= x
    &&& x + s[0].len() <= BOARD_WIDTH
}

/// With the shape's top-left corner at row `y`, column `x`: the shape's cell
/// `(j, i)` is occupied and the grid cell one row below it is occupied too.
pub open spec fn blocked_at(g: Seq<Seq<u8>>, s: Seq<Seq<u8>>, x: int, y: int, j: int, i: int) -> bool {
    s[j][i] != 0 && g[y + 1 + j][x + i] != 0
}

/// Moving the shape one row down from row `y` would put one of its occupied
/// cells onto an occupied cell of the grid.
pub open spec fn blocked_below(g: Seq<Seq<u8>>, s: Seq<Seq<u8>>, x: int, y: int) -> bool {
    exists|j: int, i: int|
        0 <= j < s.len() && 0 <= i < s[0].len() && #[trigger] blocked_at(g, s, x, y, j, i)
}

/// The shape comes to rest at row `y`: it touches the floor there, or it is
/// blocked from below.
pub open spec fn rests_at(g: Seq<Seq<u8>>, s: Seq<Seq<u8>>, x: int, y: int) -> bool {
    y == BOARD_HEIGHT - s.len() || blocked_below(g, s, x, y)
}

/// `y` is the first row, from the top, at which the shape comes to rest.
pub open spec fn is_landing_row(g: Seq<Seq<u8>>, s: Seq<Seq<u8>>, x: int, y: int) -> bool {
    &&& 0 <= y <= BOARD_HEIGHT - s.len()
    &&& rests_at(g, s, x, y)
    &&& forall|z: int| 0 <= z < y ==> !rests_at(g, s, x, z)
}

/// The row at which the shape, dropped at column `x`, comes to rest.
pub open spec fn landing_row(g: Seq<Seq<u8>>, s: Seq<Seq<u8>>, x: int) -> int {
    choose|y: int| is_landing_row(g, s, x, y)
}

/// A landing row is the only one: whatever row meets `is_landing_row` is
/// `landing_row`.
pub proof fn lemma_landing_row_unique(g: Seq<Seq<u8>>, s: Seq<Seq<u8>>, x: int, y: int)
    requires
        is_landing_row(g, s, x, y),
    ensures
        landing_row(g, s, x) == y,
{
    let w = landing_row(g, s, x);
    assert(is_landing_row(g, s, x, w));
    if w < y {
        assert(!rests_at(g, s, x, w));
    } else if y < w {
        assert(!rests_at(g, s, x, y));
    }
}

/// Where the shape rests at no row above `y`, it has a landing row.
proof fn lemma_lands_from(g: Seq<Seq<u8>>, s: Seq<Seq<u8>>, x: int, y: int)
    requires
        0 <= y <= BOARD_HEIGHT - s.len(),
        forall|z: int| 0 <= z < y ==> !rests_at(g, s, x, z),
    ensures
        exists|w: int| is_landing_row(g, s, x, w),
    decreases BOARD_HEIGHT - s.len() - y,
{
    if rests_at(g, s, x, y) {
        assert(is_landing_row(g, s, x, y));
    } else {
        lemma_lands_from(g, s, x, y + 1);
    }
}

/// Some row is the landing row: the shape rests on the floor at the latest.
pub proof fn lemma_landing_row_exists(g: Seq<Seq<u8>>, s: Seq<Seq<u8>>, x: int)
    requires
        0 < s.len() <= BOARD_HEIGHT,
    ensures
        is_landing_row(g, s, x, landing_row(g, s, x)),
{
    lemma_lands_from(g, s, x, 0);
}

/// Whether the piece, one row below row `y`, would overlap the board.
pub fn is_blocked_below(board: &Vec<Vec<u8>>, piece: &Vec<Vec<u8>>, x: usize, y: usize) -> (b: bool)
    requires
        is_board(grid_of(*board)),
        fits(grid_of(*piece), x as int),
        y + piece.len() < BOARD_HEIGHT,
    ensures
        b == blocked_below(grid_of(*board), grid_of(*piece), x as int, y as int),
{
    let ghost g = grid_of(*board);
    let ghost s = grid_of(*piece);
    let h: usize = piece.len();
    let w: usize = piece[0].len();
    let mut j: usize = 0;
    while j < h
        invariant
            j <= h,
            h == piece.len(),
            w == piece[0].len(),
            g == grid_of(*board),
            s == grid_of(*piece),
            is_board(g),
            fits(s, x as int),
            y + h < BOARD_HEIGHT,
            forall|a: int, i: int| 0 <= a < j && 0 <= i < w ==> !#[trigger] blocked_at(g, s, x as int, y as int, a, i),
        decreases h - j,
    {
        let mut i: usize = 0;
        while i < w
            invariant
                i <= w,
                j < h,
                h == piece.len(),
                w == piece[0].len(),
                g == grid_of(*board),
                s == grid_of(*piece),
                is_board(g),
                fits(s, x as int),
                y + h < BOARD_HEIGHT,
                forall|a: int, c: int| 0 <= a < j && 0 <= c < w ==> !#[trigger] blocked_at(g, s, x as int, y as int, a, c),
                forall|c: int| 0 <= c < i ==> !#[trigger] blocked_at(g, s, x as int, y as int, j as int, c),
            decreases w - i,
        {
            assert(s[j as int].len() == w);
            assert(g[y + 1 + j].len() == BOARD_WIDTH);
            if piece[j][i] != 0 && board[y + 1 + j][x + i] != 0 {
                assert(blocked_at(g, s, x as int, y as int, j as int, i as int));
                return true;
            }
            i += 1;
        }
        j += 1;
    }
    false
}

/// Finds the row at which the piece, dropped at column `x`, comes to rest:
/// rows are tried from the top down.
pub fn find_landing_row(board: &Vec<Vec<u8>>, piece: &Vec<Vec<u8>>, x: usize) -> (y: usize)
    requires
        is_board(grid_of(*board)),
        fits(grid_of(*piece), x as int),
    ensures
        is_landing_row(grid_of(*board), grid_of(*piece), x as int, y as int),
        y == landing_row(grid_of(*board), grid_of(*piece), x as int),
{
    let ghost g = grid_of(*board);
    let ghost s = grid_of(*piece);
    let floor: usize = BOARD_HEIGHT - piece.len();
    let mut y: usize = 0;
    while y < floor
        invariant
            y <= floor,
            floor == BOARD_HEIGHT - piece.len(),
            g == grid_of(*board),
            s == grid_of(*piece),
            is_board(g),
            fits(s, x as int),
            forall|z: int| 0 <= z < y ==> !rests_at(g, s, x as int, z),
        decreases floor - y,
    {
        if is_blocked_below(board, piece, x, y) {
            proof {
                lemma_landing_row_unique(g, s, x as int, y as int);
            }
            return y;
        }
        y += 1;
    }
    proof {
        lemma_landing_row_unique(g, s, x as int, y as int);
    }
    y
}

/// The shape, with its top-left corner at row `y`, column `x`, has an
/// occupied cell over the grid cell at row `r`, column `c`.
pub open spec fn covers(s: Seq<Seq<u8>>, x: int, y: int, r: int, c: int) -> bool {
    y <= r < y + s.len() && x <= c < x + s[0].len() && s[r - y][c - x] != 0
}

/// The grid with the shape stamped on at row `y`, column `x`: an empty cell
/// that the shape covers takes the shape's code, every other cell stays.
pub open spec fn stamped(g: Seq<Seq<u8>>, s: Seq<Seq<u8>>, x: int, y: int) -> Seq<Seq<u8>> {
    Seq::new(
        g.len(),
        |r: int|
            Seq::new(
                g[r].len(),
                |c: int|
                    if g[r][c] == 0 && covers(s, x, y, r, c) {
                        s[r - y][c - x]
                    } else {
                        g[r][c]
                    },
            ),
    )
}

/// Stamping keeps the grid's dimensions, leaves every occupied cell as it
/// was, and changes no cell that the shape does not cover.
pub proof fn lemma_stamp_never_overwrites(g: Seq<Seq<u8>>, s: Seq<Seq<u8>>, x: int, y: int)
    requires
        is_board(g),
    ensures
        is_board(stamped(g, s, x, y)),
        forall|r: int, c: int|
            0 <= r < BOARD_HEIGHT && 0 <= c < BOARD_WIDTH && (g[r][c] != 0 || !covers(s, x, y, r, c))
                ==> #[trigger] stamped(g, s, x, y)[r][c] == g[r][c],
{
}

/// Stamping a shape whose cells hold a piece identifier keeps the codes of
/// the grid from 0 to 7.
pub proof fn lemma_stamped_codes(g: Seq<Seq<u8>>, s: Seq<Seq<u8>>, x: int, y: int, code: int)
    requires
        codes_ok(g),
        is_rect(s, s.len() as int, s[0].len() as int),
        cells_are(s, code),
        code <= 7,
    ensures
        codes_ok(stamped(g, s, x, y)),
{
    let t = stamped(g, s, x, y);
    assert forall|r: int, c: int| 0 <= r < t.len() && 0 <= c < t[r].len() implies #[trigger] t[r][c]
        <= 7 by {
        assert(g[r][c] <= 7);
        if g[r][c] == 0 && covers(s, x, y, r, c) {
            assert(s[r - y].len() == s[0].len());
            assert(s[r - y][c - x] == 0 || s[r - y][c - x] == code);
        }
    }
}

/// Stamps the piece onto a copy of the board at row `y`, column `x`.
pub fn stamp(board: &Vec<Vec<u8>>, piece: &Vec<Vec<u8>>, x: usize, y: usize) -> (out: Vec<Vec<u8>>)
    requires
        is_board(grid_of(*board)),
        fits(grid_of(*piece), x as int),
        y + piece.len() <= BOARD_HEIGHT,
    ensures
        grid_of(out) == stamped(grid_of(*board), grid_of(*piece), x as int, y as int),
{
    let ghost g = grid_of(*board);
    let ghost s = grid_of(*piece);
    let h: usize = piece.len();
    let w: usize = piece[0].len();
    let mut out: Vec<Vec<u8>> = Vec::new();
    let mut r: usize = 0;
    while r < BOARD_HEIGHT
        invariant
            r <= BOARD_HEIGHT,
            h == piece.len(),
            w == piece[0].len(),
            g == grid_of(*board),
            s == grid_of(*piece),
            is_board(g),
            fits(s, x as int),
            y + h <= BOARD_HEIGHT,
            out.len() == r,
            forall|a: int| 0 <= a < r ==> (#[trigger] out[a])@ == stamped(g, s, x as int, y as int)[a],
        decreases BOARD_HEIGHT - r,
    {
        let mut row: Vec<u8> = Vec::new();
        let mut c: usize = 0;
        assert(g[r as int].len() == BOARD_WIDTH);
        while c < BOARD_WIDTH
            invariant
                c <= BOARD_WIDTH,
                r < BOARD_HEIGHT,
                h == piece.len(),
                w == piece[0].len(),
                g == grid_of(*board),
                s == grid_of(*piece),
                is_board(g),
                fits(s, x as int),
                y + h <= BOARD_HEIGHT,
                row.len() == c,
                forall|b: int| 0 <= b < c ==> #[trigger] row[b] == stamped(g, s, x as int, y as int)[r as int][b],
            decreases BOARD_WIDTH - c,
        {
            assert(g[r as int].len() == BOARD_WIDTH);
            let old_cell: u8 = board[r][c];
            let mut cell: u8 = old_cell;
            if old_cell == 0 && y <= r && r < y + h && x <= c && c < x + w {
                assert(s[r - y].len() == w);
                let code: u8 = piece[r - y][c - x];
                if code != 0 {
                    cell = code;
                }
            }
            row.push(cell);
            c += 1;
        }
        assert(row@ =~= stamped(g, s, x as int, y as int)[r as int]);
        out.push(row);
        r += 1;
    }
    assert(grid_of(out) =~= stamped(g, s, x as int, y as int));
    out
}

/// Every cell of the grid that the shape covers, with its top-left corner at
/// row `y`, column `x`, is empty: the shape lies clear of what the grid holds.
pub open spec fn lies_free(g: Seq<Seq<u8>>, s: Seq<Seq<u8>>, x: int, y: int) -> bool {
    forall|r: int, c: int|
        0 <= r < BOARD_HEIGHT && 0 <= c < BOARD_WIDTH && #[trigger] covers(s, x, y, r, c)
            ==> g[r][c] == 0
}

/// A shape that comes to rest below the top row lies clear of what the grid
/// holds: the row above its landing row did not block it.
pub proof fn lemma_lands_free(g: Seq<Seq<u8>>, s: Seq<Seq<u8>>, x: int, y: int)
    requires
        is_board(g),
        fits(s, x),
        is_landing_row(g, s, x, y),
        y >= 1,
    ensures
        lies_free(g, s, x, y),
{
    assert(!rests_at(g, s, x, y - 1));
    assert forall|r: int, c: int|
        0 <= r < BOARD_HEIGHT && 0 <= c < BOARD_WIDTH && #[trigger] covers(s, x, y, r, c) implies g[r][c]
        == 0 by {
        assert(!blocked_at(g, s, x, y - 1, r - y, c - x));
    }
}

/// Where the shape lies clear of what the grid holds, stamping changes
/// exactly the cells that the shape covers: each goes from empty to the
/// shape's code, and every other cell stays.
pub proof fn lemma_stamp_changes_covered(g: Seq<Seq<u8>>, s: Seq<Seq<u8>>, x: int, y: int)
    requires
        is_board(g),
        lies_free(g, s, x, y),
    ensures
        forall|r: int, c: int|
            0 <= r < BOARD_HEIGHT && 0 <= c < BOARD_WIDTH ==> #[trigger] stamped(g, s, x, y)[r][c] == (
            if covers(s, x, y, r, c) {
                s[r - y][c - x]
            } else {
                g[r][c]
            }),
{
    let t = stamped(g, s, x, y);
    assert forall|r: int, c: int| 0 <= r < BOARD_HEIGHT && 0 <= c < BOARD_WIDTH implies #[trigger] t[r][c]
        == (if covers(s, x, y, r, c) {
        s[r - y][c - x]
    } else {
        g[r][c]
    }) by {
        assert(g[r].len() == BOARD_WIDTH);
    }
}

/// A row of the stamped grid that the shape does not reach is the row of the
/// grid.
proof fn lemma_row_not_reached(g: Seq<Seq<u8>>, s: Seq<Seq<u8>>, x: int, y: int, r: int)
    requires
        is_board(g),
        0 <= r < BOARD_HEIGHT,
        !(y <= r < y + s.len()),
    ensures
        stamped(g, s, x, y)[r] == g[r],
{
    assert(stamped(g, s, x, y)[r] =~= g[r]);
}

/// A row without an empty cell.
pub open spec fn is_full(row: Seq<u8>) -> bool {
    forall|c: int| 0 <= c < row.len() ==> row[c] != 0
}

/// The test that keeps a row when full rows are cleared.
pub open spec fn has_gap() -> spec_fn(Seq<u8>) -> bool {
    |row: Seq<u8>| !is_full(row)
}

/// Number of full rows of the grid.
pub open spec fn full_rows(g: Seq<Seq<u8>>) -> int {
    g.len() - g.filter(has_gap()).len()
}

/// The grid after its full rows are cleared: the rows that have a gap keep
/// their order and sink to the bottom, under as many empty rows as were
/// removed.
pub open spec fn cleared(g: Seq<Seq<u8>>) -> Seq<Seq<u8>> {
    empty_rows(full_rows(g)) + g.filter(has_gap())
}

/// Points for clearing `k` rows with one placement.
pub open spec fn line_score(k: int) -> int {
    if k == 1 {
        40
    } else if k == 2 {
        100
    } else if k == 3 {
        300
    } else if k == 4 {
        1200
    } else {
        0
    }
}

/// Whether the row has no empty cell.
pub fn row_is_full(row: &Vec<u8>) -> (b: bool)
    ensures
        b == is_full(row@),
{
    let mut c: usize = 0;
    while c < row.len()
        invariant
            c <= row.len(),
            forall|a: int| 0 <= a < c ==> row[a] != 0,
        decreases row.len() - c,
    {
        if row[c] == 0 {
            return false;
        }
        c += 1;
    }
    true
}

/// Clears the full rows of the board in one pass from the top: each full row
/// is taken out and an empty row is put in at the top. Returns how many rows
/// were cleared.
pub fn clear_full_rows(board: &mut Vec<Vec<u8>>) -> (count: usize)
    requires
        is_board(grid_of(*old(board))),
    ensures
        grid_of(*final(board)) == cleared(grid_of(*old(board))),
        count == full_rows(grid_of(*old(board))),
        is_board(grid_of(*final(board))),
{
    let ghost orig = grid_of(*board);
    let mut count: usize = 0;
    let mut j: usize = 0;
    proof {
        assert(orig.take(0) =~= Seq::<Seq<u8>>::empty());
        reveal(Seq::filter);
        assert(orig.skip(0) =~= orig);
        assert(grid_of(*board) =~= empty_rows(0) + orig.take(0).filter(has_gap()) + orig.skip(0));
    }
    while j < BOARD_HEIGHT
        invariant
            j <= BOARD_HEIGHT,
            is_board(orig),
            board.len() == BOARD_HEIGHT,
            count + orig.take(j as int).filter(has_gap()).len() == j,
            grid_of(*board) == empty_rows(count as int) + orig.take(j as int).filter(has_gap())
                + orig.skip(j as int),
        decreases BOARD_HEIGHT - j,
    {
        let ghost before = grid_of(*board);
        let ghost kept = orig.take(j as int).filter(has_gap());
        proof {
            assert(before[j as int] == orig.skip(j as int)[0]);
            assert(orig.take(j as int + 1) =~= orig.take(j as int).push(orig[j as int]));
            orig.take(j as int).lemma_filter_push(orig[j as int], has_gap());
        }
        if row_is_full(&board[j]) {
            board.remove(j);
            let row = blank_row();
            board.insert(0, row);
            proof {
                let after = grid_of(*board);
                let target = empty_rows(count as int + 1) + kept + orig.skip(j as int + 1);
                assert(after.len() == target.len());
                assert forall|i: int| 0 <= i < after.len() implies after[i] == target[i] by {
                    if i == 0 {
                    } else if i <= j {
                        assert(after[i] == before[i - 1]);
                    } else {
                        assert(after[i] == before[i]);
                    }
                }
                assert(after =~= target);
            }
            count += 1;
        } else {
            proof {
                assert(grid_of(*board) =~= empty_rows(count as int) + kept.push(orig[j as int])
                    + orig.skip(j as int + 1));
            }
        }
        j += 1;
    }
    proof {
        assert(orig.take(BOARD_HEIGHT as int) =~= orig);
        assert(grid_of(*board) =~= cleared(orig));
        lemma_cleared_is_board(orig);
    }
    count
}

/// Each row that survives clearing is a row of the grid.
proof fn lemma_filter_keeps_members(g: Seq<Seq<u8>>, k: int)
    requires
        0 <= k < g.filter(has_gap()).len(),
    ensures
        g.contains(g.filter(has_gap())[k]),
    decreases g.len(),
{
    reveal(Seq::filter);
    if g.len() > 0 {
        let sub = g.drop_last().filter(has_gap());
        if k < sub.len() {
            lemma_filter_keeps_members(g.drop_last(), k);
            let i = choose|i: int| 0 <= i < g.drop_last().len() && g.drop_last()[i] == sub[k];
            assert(g[i] == sub[k]);
        } else {
            assert(g[g.len() - 1] == g.last());
        }
    }
}

/// Clearing keeps the board's dimensions.
pub proof fn lemma_cleared_is_board(g: Seq<Seq<u8>>)
    requires
        is_board(g),
    ensures
        is_board(cleared(g)),
        0 <= full_rows(g) <= BOARD_HEIGHT,
{
    let kept = g.filter(has_gap());
    g.lemma_filter_len(has_gap());
    let c = cleared(g);
    assert forall|r: int| 0 <= r < c.len() implies (#[trigger] c[r]).len() == BOARD_WIDTH by {
        if r >= full_rows(g) {
            let k = r - full_rows(g);
            assert(c[r] == kept[k]);
            lemma_filter_keeps_members(g, k);
        }
    }
}

/// Clearing the full rows keeps the codes of the grid from 0 to 7.
pub proof fn lemma_cleared_codes(g: Seq<Seq<u8>>)
    requires
        codes_ok(g),
    ensures
        codes_ok(cleared(g)),
{
    let kept = g.filter(has_gap());
    g.lemma_filter_len(has_gap());
    let t = cleared(g);
    assert forall|r: int, c: int| 0 <= r < t.len() && 0 <= c < t[r].len() implies #[trigger] t[r][c]
        <= 7 by {
        if r >= full_rows(g) {
            let k = r - full_rows(g);
            assert(t[r] == kept[k]);
            lemma_filter_keeps_members(g, k);
            let i = choose|i: int| 0 <= i < g.len() && g[i] == kept[k];
            assert(g[i][c] <= 7);
        }
    }
}

/// Where every row passes the test, the filter keeps the sequence as it is.
proof fn lemma_filter_keeps_all(g: Seq<Seq<u8>>)
    requires
        g.filter(has_gap()).len() == g.len(),
    ensures
        g.filter(has_gap()) == g,
    decreases g.len(),
{
    reveal(Seq::filter);
    if g.len() > 0 {
        g.drop_last().lemma_filter_len(has_gap());
        lemma_filter_keeps_all(g.drop_last());
        assert(g.drop_last().push(g.last()) =~= g);
    }
}

/// Where no row is full, clearing changes nothing.
pub proof fn lemma_nothing_to_clear(g: Seq<Seq<u8>>)
    requires
        full_rows(g) == 0,
    ensures
        cleared(g) == g,
{
    lemma_filter_keeps_all(g);
    assert(cleared(g) =~= g);
}

/// Number of full rows among the first `n` rows of the grid.
pub open spec fn full_before(g: Seq<Seq<u8>>, n: int) -> int
    decreases n,
{
    if n <= 0 {
        0
    } else {
        full_before(g, n - 1) + if is_full(g[n - 1]) {
            1int
        } else {
            0int
        }
    }
}

/// The rows that clearing keeps of the first `n` are those that are not
/// full.
proof fn lemma_kept_of_front(g: Seq<Seq<u8>>, n: int)
    requires
        0 <= n <= g.len(),
    ensures
        g.take(n).filter(has_gap()).len() == n - full_before(g, n),
        0 <= full_before(g, n) <= n,
    decreases n,
{
    reveal(Seq::filter);
    if n > 0 {
        lemma_kept_of_front(g, n - 1);
        assert(g.take(n) =~= g.take(n - 1).push(g[n - 1]));
        g.take(n - 1).lemma_filter_push(g[n - 1], has_gap());
    }
}

/// The count of full rows is the number of rows that are full.
pub proof fn lemma_full_rows_counted(g: Seq<Seq<u8>>)
    ensures
        full_rows(g) == full_before(g, g.len() as int),
{
    lemma_kept_of_front(g, g.len() as int);
    assert(g.take(g.len() as int) =~= g);
}

/// Where no row is counted as full, none is full.
proof fn lemma_none_full(g: Seq<Seq<u8>>, n: int, r: int)
    requires
        0 <= r < n <= g.len(),
        full_before(g, n) == 0,
    ensures
        !is_full(g[r]),
    decreases n,
{
    lemma_kept_of_front(g, n - 1);
    if r < n - 1 {
        lemma_none_full(g, n - 1, r);
    }
}

/// Rows that are not full add nothing to the count of full rows.
proof fn lemma_full_before_tail(g: Seq<Seq<u8>>, m: int, n: int)
    requires
        0 <= m <= n,
        forall|r: int| m <= r < n ==> !is_full(#[trigger] g[r]),
    ensures
        full_before(g, n) == full_before(g, m),
    decreases n,
{
    if n > m {
        lemma_full_before_tail(g, m, n - 1);
    }
}

/// Between two rows there are no more full rows than rows.
proof fn lemma_full_before_step(g: Seq<Seq<u8>>, m: int, n: int)
    requires
        0 <= m <= n,
    ensures
        full_before(g, m) <= full_before(g, n) <= full_before(g, m) + (n - m),
    decreases n,
{
    if n > m {
        lemma_full_before_step(g, m, n - 1);
    }
}

/// Where the two top rows have a gap, they are the first rows that clearing
/// keeps.
proof fn lemma_top_rows_kept(g: Seq<Seq<u8>>)
    requires
        g.len() >= 2,
        !is_full(g[0]),
        !is_full(g[1]),
    ensures
        g.filter(has_gap()).len() >= 2,
        g.filter(has_gap())[0] == g[0],
        g.filter(has_gap())[1] == g[1],
{
    let front = g.take(2);
    let back = g.skip(2);
    let none = Seq::<Seq<u8>>::empty();
    assert(g =~= front + back);
    Seq::filter_distributes_over_add(front, back, has_gap());
    assert(front =~= none.push(g[0]).push(g[1]));
    assert(none.filter(has_gap()) =~= none) by {
        reveal(Seq::filter);
    }
    none.lemma_filter_push(g[0], has_gap());
    none.push(g[0]).lemma_filter_push(g[1], has_gap());
}

/// Stamping a shape onto a board without a full row fills up no more rows
/// than the shape is high.
pub proof fn lemma_stamp_fills_few_rows(g: Seq<Seq<u8>>, s: Seq<Seq<u8>>, x: int, y: int)
    requires
        is_board(g),
        full_rows(g) == 0,
        0 <= y,
        y + s.len() <= BOARD_HEIGHT,
    ensures
        0 <= full_rows(stamped(g, s, x, y)) <= s.len(),
{
    let t = stamped(g, s, x, y);
    lemma_full_rows_counted(g);
    lemma_full_rows_counted(t);
    assert forall|r: int|
        0 <= r < BOARD_HEIGHT && !(y <= r < y + s.len()) implies !is_full(#[trigger] t[r]) by {
        lemma_none_full(g, BOARD_HEIGHT as int, r);
        lemma_row_not_reached(g, s, x, y, r);
    }
    lemma_full_before_tail(t, 0, y);
    lemma_full_before_step(t, y, y + s.len());
    lemma_full_before_tail(t, y + s.len(), BOARD_HEIGHT as int);
}

/// The two top rows hold no occupied cell.
pub open spec fn top_rows_clear(g: Seq<Seq<u8>>) -> bool {
    forall|c: int| 0 <= c < BOARD_WIDTH ==> g[0][c] == 0 && g[1][c] == 0
}

/// Whether the two top rows of the board are empty.
pub fn has_clear_top(board: &Vec<Vec<u8>>) -> (b: bool)
    requires
        is_board(grid_of(*board)),
    ensures
        b == top_rows_clear(grid_of(*board)),
{
    let ghost g = grid_of(*board);
    let mut c: usize = 0;
    while c < BOARD_WIDTH
        invariant
            c <= BOARD_WIDTH,
            g == grid_of(*board),
            is_board(g),
            forall|a: int| 0 <= a < c ==> g[0][a] == 0 && g[1][a] == 0,
        decreases BOARD_WIDTH - c,
    {
        assert(g[0].len() == BOARD_WIDTH && g[1].len() == BOARD_WIDTH);
        if board[0][c] != 0 || board[1][c] != 0 {
            return false;
        }
        c += 1;
    }
    true
}

/// Number of empty cells among the first `n` cells of the row.
pub open spec fn empty_in_row(row: Seq<u8>, n: int) -> int
    decreases n,
{
    if n <= 0 {
        0
    } else {
        empty_in_row(row, n - 1) + if row[n - 1] == 0 {
            1int
        } else {
            0int
        }
    }
}

/// Number of empty cells in the rows of the grid before row `n`, each row
/// counted over the board's width.
pub open spec fn empty_before(g: Seq<Seq<u8>>, n: int) -> int
    decreases n,
{
    if n <= 0 {
        0
    } else {
        empty_before(g, n - 1) + empty_in_row(g[n - 1], BOARD_WIDTH as int)
    }
}

/// Number of empty cells of the board.
pub open spec fn empty_cells(g: Seq<Seq<u8>>) -> int {
    empty_before(g, BOARD_HEIGHT as int)
}

/// Every cell that is empty in `after` is empty in `before`.
pub open spec fn only_fills(before: Seq<Seq<u8>>, after: Seq<Seq<u8>>) -> bool {
    forall|r: int, c: int|
        0 <= r < BOARD_HEIGHT && 0 <= c < BOARD_WIDTH && #[trigger] after[r][c] == 0
            ==> before[r][c] == 0
}

/// A row in which cells were only filled has no more empty cells than
/// before, and fewer where the cell at `at` was filled.
proof fn lemma_row_fills(before: Seq<u8>, after: Seq<u8>, n: int, at: int)
    requires
        forall|c: int| 0 <= c < n && #[trigger] after[c] == 0 ==> before[c] == 0,
    ensures
        0 <= empty_in_row(after, n) <= empty_in_row(before, n),
        0 <= at < n && before[at] == 0 && after[at] != 0 ==> empty_in_row(after, n) < empty_in_row(
            before,
            n,
        ),
    decreases n,
{
    if n > 0 {
        lemma_row_fills(before, after, n - 1, at);
        if after[n - 1] == 0 {
            assert(before[n - 1] == 0);
        }
    }
}

/// A grid in which cells were only filled has no more empty cells than
/// before, and fewer where the cell at row `row`, column `at` was filled.
proof fn lemma_grid_fills(before: Seq<Seq<u8>>, after: Seq<Seq<u8>>, n: int, row: int, at: int)
    requires
        only_fills(before, after),
        0 <= n <= BOARD_HEIGHT,
    ensures
        0 <= empty_before(after, n) <= empty_before(before, n),
        0 <= row < n && 0 <= at < BOARD_WIDTH && before[row][at] == 0 && after[row][at] != 0
            ==> empty_before(after, n) < empty_before(before, n),
    decreases n,
{
    if n > 0 {
        lemma_grid_fills(before, after, n - 1, row, at);
        assert forall|c: int| 0 <= c < BOARD_WIDTH && #[trigger] after[n - 1][c] == 0 implies before[n
            - 1][c] == 0 by {}
        lemma_row_fills(before[n - 1], after[n - 1], BOARD_WIDTH as int, at);
    }
}

/// Stamping empties no cell.
proof fn lemma_stamp_only_fills(g: Seq<Seq<u8>>, s: Seq<Seq<u8>>, x: int, y: int)
    requires
        is_board(g),
    ensures
        only_fills(g, stamped(g, s, x, y)),
{
    let t = stamped(g, s, x, y);
    assert forall|r: int, k: int|
        0 <= r < BOARD_HEIGHT && 0 <= k < BOARD_WIDTH && #[trigger] t[r][k] == 0 implies g[r][k]
        == 0 by {
        assert(g[r].len() == BOARD_WIDTH);
    }
}

/// The cell of the grid under the shape's cell `(0, i)` when the shape lies
/// at its landing row `y`: after the stamping it is occupied, and it was
/// empty before unless the shape rests at the very top.
proof fn lemma_top_cell_lands(g: Seq<Seq<u8>>, s: Seq<Seq<u8>>, x: int, y: int, i: int)
    requires
        is_board(g),
        fits(s, x),
        is_landing_row(g, s, x, y),
        0 <= i < s[0].len(),
        s[0][i] != 0,
    ensures
        stamped(g, s, x, y)[y][x + i] != 0,
        y > 0 ==> g[y][x + i] == 0,
{
    assert(g[y].len() == BOARD_WIDTH);
    assert(covers(s, x, y, y, x + i));
    if y > 0 {
        assert(!rests_at(g, s, x, y - 1));
        assert(!blocked_at(g, s, x, y - 1, 0, i));
    }
}

/// A drop that clears no row and leaves the two top rows empty fills at
/// least one cell: the board has fewer empty cells after it.
pub proof fn lemma_quiet_drop_fills(g: Seq<Seq<u8>>, s: Seq<Seq<u8>>, x: int)
    requires
        is_board(g),
        fits(s, x),
        row_occupied(s, 0),
        full_rows(stamped(g, s, x, landing_row(g, s, x))) == 0,
        top_rows_clear(cleared(stamped(g, s, x, landing_row(g, s, x)))),
    ensures
        cleared(stamped(g, s, x, landing_row(g, s, x))) == stamped(g, s, x, landing_row(g, s, x)),
        0 <= empty_cells(stamped(g, s, x, landing_row(g, s, x))) < empty_cells(g),
{
    let y = landing_row(g, s, x);
    let t = stamped(g, s, x, y);
    lemma_landing_row_exists(g, s, x);
    lemma_nothing_to_clear(t);
    let i = choose|i: int| 0 <= i < s[0].len() && #[trigger] s[0][i] != 0;
    lemma_top_cell_lands(g, s, x, y, i);
    lemma_stamp_only_fills(g, s, x, y);
    lemma_grid_fills(g, t, BOARD_HEIGHT as int, y, x + i);
    if y == 0 {
        assert(t[0][x + i] != 0);
    }
}

/// `n`, held between 0 and `limit`.
pub open spec fn clip(n: int, limit: int) -> int {
    if n < 0 {
        0
    } else if n > limit {
        limit
    } else {
        n
    }
}

/// In a row of the grid that the shape reaches, stamping a shape that lies
/// free takes as many empty cells away as the shape's row has occupied cells
/// over those columns.
proof fn lemma_row_stamped(g: Seq<Seq<u8>>, s: Seq<Seq<u8>>, x: int, y: int, r: int, n: int)
    requires
        is_board(g),
        fits(s, x),
        lies_free(g, s, x, y),
        0 <= y,
        y + s.len() <= BOARD_HEIGHT,
        0 <= r < BOARD_HEIGHT,
        0 <= n <= BOARD_WIDTH,
    ensures
        empty_in_row(stamped(g, s, x, y)[r], n) == empty_in_row(g[r], n) - (if y <= r < y + s.len() {
            filled_in_row(s[r - y], clip(n - x, s[0].len() as int))
        } else {
            0
        }),
    decreases n,
{
    let t = stamped(g, s, x, y);
    assert(g[r].len() == BOARD_WIDTH);
    if n > 0 {
        lemma_row_stamped(g, s, x, y, r, n - 1);
        let c = n - 1;
        if y <= r < y + s.len() {
            assert(s[r - y].len() == s[0].len());
            if x <= c < x + s[0].len() {
                if s[r - y][c - x] != 0 {
                    assert(covers(s, x, y, r, c));
                }
            }
        }
        if covers(s, x, y, r, c) {
            assert(g[r][c] == 0);
        }
    }
}

/// Stamping a shape that lies free takes as many empty cells away from the
/// first `n` rows of the grid as the shape has occupied cells in them.
proof fn lemma_rows_stamped(g: Seq<Seq<u8>>, s: Seq<Seq<u8>>, x: int, y: int, n: int)
    requires
        is_board(g),
        fits(s, x),
        lies_free(g, s, x, y),
        0 <= y,
        y + s.len() <= BOARD_HEIGHT,
        0 <= n <= BOARD_HEIGHT,
    ensures
        empty_before(stamped(g, s, x, y), n) == empty_before(g, n) - filled_before(
            s,
            clip(n - y, s.len() as int),
        ),
    decreases n,
{
    if n > 0 {
        lemma_rows_stamped(g, s, x, y, n - 1);
        lemma_row_stamped(g, s, x, y, n - 1, BOARD_WIDTH as int);
        let r = n - 1;
        if y <= r < y + s.len() {
            assert(s[r - y].len() == s[0].len());
        }
    }
}

/// Stamping a shape that lies free takes as many empty cells away from the
/// board as the shape has occupied cells.
pub proof fn lemma_stamp_fills(g: Seq<Seq<u8>>, s: Seq<Seq<u8>>, x: int, y: int)
    requires
        is_board(g),
        fits(s, x),
        lies_free(g, s, x, y),
        0 <= y,
        y + s.len() <= BOARD_HEIGHT,
    ensures
        empty_cells(stamped(g, s, x, y)) == empty_cells(g) - filled_cells(s),
{
    lemma_rows_stamped(g, s, x, y, BOARD_HEIGHT as int);
}

/// A full row of the board's width has no empty cell, and an empty row has
/// nothing else.
proof fn lemma_row_extremes(row: Seq<u8>, n: int)
    requires
        0 <= n <= row.len(),
    ensures
        is_full(row) ==> empty_in_row(row, n) == 0,
        row == empty_row() ==> empty_in_row(row, n) == n,
    decreases n,
{
    if n > 0 {
        lemma_row_extremes(row, n - 1);
    }
}

/// Rows that are the same have the same empty cells.
proof fn lemma_empty_of_prefix(a: Seq<Seq<u8>>, b: Seq<Seq<u8>>, n: int)
    requires
        0 <= n <= a.len(),
        n <= b.len(),
        forall|i: int| 0 <= i < n ==> a[i] == b[i],
    ensures
        empty_before(a, n) == empty_before(b, n),
    decreases n,
{
    if n > 0 {
        lemma_empty_of_prefix(a, b, n - 1);
    }
}

/// The empty cells of rows put one after the other are those of the first
/// rows and those of the rows after them.
proof fn lemma_empty_of_both(a: Seq<Seq<u8>>, b: Seq<Seq<u8>>, n: int)
    requires
        0 <= n <= b.len(),
    ensures
        empty_before(a + b, a.len() + n) == empty_before(a, a.len() as int) + empty_before(b, n),
    decreases n,
{
    if n == 0 {
        lemma_empty_of_prefix(a, a + b, a.len() as int);
    } else {
        lemma_empty_of_both(a, b, n - 1);
        assert((a + b)[a.len() + n - 1] == b[n - 1]);
    }
}

/// `n` empty rows hold `n` times the board's width of empty cells.
proof fn lemma_empty_of_empty_rows(k: int, n: int)
    requires
        0 <= n <= k,
    ensures
        empty_before(empty_rows(k), n) == BOARD_WIDTH * n,
    decreases n,
{
    if n > 0 {
        lemma_empty_of_empty_rows(k, n - 1);
        lemma_row_extremes(empty_row(), BOARD_WIDTH as int);
    }
}

/// The rows with a gap hold every empty cell of the grid: a full row has
/// none.
proof fn lemma_empty_of_kept(g: Seq<Seq<u8>>)
    requires
        forall|r: int| 0 <= r < g.len() ==> (#[trigger] g[r]).len() == BOARD_WIDTH,
    ensures
        empty_before(g.filter(has_gap()), g.filter(has_gap()).len() as int) == empty_before(
            g,
            g.len() as int,
        ),
    decreases g.len(),
{
    reveal(Seq::filter);
    if g.len() > 0 {
        let front = g.drop_last();
        let kept = front.filter(has_gap());
        lemma_empty_of_kept(front);
        lemma_empty_of_prefix(front, g, front.len() as int);
        if has_gap()(g.last()) {
            lemma_empty_of_prefix(kept, kept.push(g.last()), kept.len() as int);
        } else {
            lemma_row_extremes(g.last(), BOARD_WIDTH as int);
        }
    }
}

/// Clearing gives the board as many empty cells as the full rows held
/// occupied ones: the board's width for each row cleared.
pub proof fn lemma_clearing_empties(g: Seq<Seq<u8>>)
    requires
        is_board(g),
    ensures
        empty_cells(cleared(g)) == empty_cells(g) + BOARD_WIDTH * full_rows(g),
{
    let kept = g.filter(has_gap());
    let k = full_rows(g);
    g.lemma_filter_len(has_gap());
    lemma_empty_of_kept(g);
    lemma_empty_of_empty_rows(k, k);
    lemma_empty_of_both(empty_rows(k), kept, kept.len() as int);
}

/// A drop that comes to rest below the top row changes the number of empty
/// cells of the board by what it fills and what it clears: the shape's
/// occupied cells less, and the board's width more for each row cleared.
pub proof fn lemma_drop_counts(g: Seq<Seq<u8>>, s: Seq<Seq<u8>>, x: int)
    requires
        is_board(g),
        fits(s, x),
        landing_row(g, s, x) >= 1,
    ensures
        lies_free(g, s, x, landing_row(g, s, x)),
        empty_cells(cleared(stamped(g, s, x, landing_row(g, s, x)))) == empty_cells(g)
            - filled_cells(s) + BOARD_WIDTH * full_rows(stamped(g, s, x, landing_row(g, s, x))),
{
    let y = landing_row(g, s, x);
    lemma_landing_row_exists(g, s, x);
    lemma_lands_free(g, s, x, y);
    lemma_stamp_fills(g, s, x, y);
    lemma_stamp_never_overwrites(g, s, x, y);
    lemma_clearing_empties(stamped(g, s, x, y));
}

/// A row of the stamped grid has a gap where the row of the grid is empty:
/// the shape is narrower than the board.
proof fn lemma_stamped_row_has_gap(g: Seq<Seq<u8>>, s: Seq<Seq<u8>>, x: int, y: int, r: int)
    requires
        is_board(g),
        fits(s, x),
        s[0].len() < BOARD_WIDTH,
        0 <= r < BOARD_HEIGHT,
        forall|c: int| 0 <= c < BOARD_WIDTH ==> g[r][c] == 0,
    ensures
        !is_full(stamped(g, s, x, y)[r]),
{
    let t = stamped(g, s, x, y);
    let c = if x == 0 {
        s[0].len() as int
    } else {
        0
    };
    assert(g[r].len() == BOARD_WIDTH);
    assert(!covers(s, x, y, r, c));
    assert(t[r][c] == 0);
}

/// A shape that comes to rest in the top row of a board whose two top rows
/// are empty and which has no full row, and does not end the game, lies clear
/// of what the board holds. Only a shape four rows high can do so: it fills
/// the gaps of rows 2 and 3, which are cleared.
proof fn lemma_top_landing_lies_free(g: Seq<Seq<u8>>, s: Seq<Seq<u8>>, x: int)
    requires
        is_board(g),
        fits(s, x),
        s.len() <= 4,
        s[0].len() <= 4,
        s.len() == 4 ==> s[0].len() == 1,
        forall|j: int| 0 <= j < s.len() ==> #[trigger] row_occupied(s, j),
        top_rows_clear(g),
        full_rows(g) == 0,
        is_landing_row(g, s, x, 0),
        top_rows_clear(cleared(stamped(g, s, x, 0))),
    ensures
        lies_free(g, s, x, 0),
{
    let t = stamped(g, s, x, 0);
    let kept = t.filter(has_gap());
    let k = full_rows(t);
    let h = s.len() as int;
    lemma_stamp_never_overwrites(g, s, x, 0);
    t.lemma_filter_len(has_gap());
    // The two top rows of the stamped board have a gap, and the top one a cell.
    assert(g[0].len() == BOARD_WIDTH && g[1].len() == BOARD_WIDTH);
    lemma_stamped_row_has_gap(g, s, x, 0, 0);
    lemma_stamped_row_has_gap(g, s, x, 0, 1);
    lemma_top_rows_kept(t);
    assert(row_occupied(s, 0));
    let i0 = choose|i: int| 0 <= i < s[0].len() && #[trigger] s[0][i] != 0;
    assert(covers(s, x, 0, 0, x + i0));
    assert(t[0][x + i0] != 0);
    // So at least two rows are cleared.
    let after = cleared(t);
    if k == 0 {
        assert(after[0] == kept[0]);
        assert(after[0][x + i0] != 0);
    } else if k == 1 {
        assert(after[1] == kept[0]);
        assert(after[1][x + i0] != 0);
    }
    assert(k >= 2);
    // No row of the board is full, so only rows 2 and 3 can have filled up.
    lemma_full_rows_counted(g);
    lemma_full_rows_counted(t);
    assert forall|r: int| 4 <= r < BOARD_HEIGHT implies !is_full(#[trigger] t[r]) by {
        lemma_none_full(g, BOARD_HEIGHT as int, r);
        lemma_row_not_reached(g, s, x, 0, r);
    }
    lemma_full_before_tail(t, 4, BOARD_HEIGHT as int);
    assert(full_before(t, 4) == full_before(t, 2) + (if is_full(t[2]) {
        1int
    } else {
        0int
    }) + (if is_full(t[3]) {
        1int
    } else {
        0int
    })) by {
        reveal_with_fuel(full_before, 3);
    }
    assert(full_before(t, 2) == 0) by {
        reveal_with_fuel(full_before, 3);
    }
    assert(is_full(t[2]) && is_full(t[3]));
    if h < 4 {
        lemma_none_full(g, BOARD_HEIGHT as int, 3);
        lemma_row_not_reached(g, s, x, 0, 3);
    }
    assert(h == 4);
    // The shape is one cell wide; it fills the gap of row 2 and of row 3.
    assert forall|r: int, c: int|
        0 <= r < BOARD_HEIGHT && 0 <= c < BOARD_WIDTH && #[trigger] covers(s, x, 0, r, c) implies g[r][c]
        == 0 by {
        assert(c == x);
        if r >= 2 {
            lemma_none_full(g, BOARD_HEIGHT as int, r);
            assert(g[r].len() == BOARD_WIDTH);
            let gap = choose|gap: int| 0 <= gap < g[r].len() && g[r][gap] == 0;
            assert(t[r].len() == BOARD_WIDTH);
            assert(t[r][gap] != 0);
            assert(covers(s, x, 0, r, gap));
            assert(gap == x);
        }
    }
}

/// A drop onto a board whose two top rows are empty and which has no full
/// row, by a shape that is one cell wide if it is four rows high, lies clear
/// of what the board holds unless it ends the game. The number of empty
/// cells of the board then changes by what the drop fills and what it
/// clears.
pub proof fn lemma_surviving_drop_counts(g: Seq<Seq<u8>>, s: Seq<Seq<u8>>, x: int)
    requires
        is_board(g),
        fits(s, x),
        s.len() <= 4,
        s[0].len() <= 4,
        s.len() == 4 ==> s[0].len() == 1,
        forall|j: int| 0 <= j < s.len() ==> #[trigger] row_occupied(s, j),
        top_rows_clear(g),
        full_rows(g) == 0,
        top_rows_clear(cleared(stamped(g, s, x, landing_row(g, s, x)))),
    ensures
        lies_free(g, s, x, landing_row(g, s, x)),
        empty_cells(cleared(stamped(g, s, x, landing_row(g, s, x)))) == empty_cells(g)
            - filled_cells(s) + BOARD_WIDTH * full_rows(stamped(g, s, x, landing_row(g, s, x))),
{
    let y = landing_row(g, s, x);
    lemma_landing_row_exists(g, s, x);
    if y >= 1 {
        lemma_lands_free(g, s, x, y);
    } else {
        lemma_top_landing_lies_free(g, s, x);
    }
    lemma_stamp_fills(g, s, x, y);
    lemma_stamp_never_overwrites(g, s, x, y);
    lemma_clearing_empties(stamped(g, s, x, y));
}

} // verus!
