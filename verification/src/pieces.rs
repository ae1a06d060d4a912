//! The piece catalog: seven shapes, each in four rotation states.

use vstd::prelude::*;

verus! {

/// The rows of a cell matrix, each row as a sequence of cell codes.
pub open spec fn grid_of(m: Vec<Vec<u8>>) -> Seq<Seq<u8>> {
    Seq::new(m@.len(), |i: int| m@[i]@)
}

/// A matrix of `height` rows, at least one, each of `width` cells.
pub open spec fn is_rect(m: Seq<Seq<u8>>, height: int, width: int) -> bool {
    &&& m.len() == height
    &&& height > 0
    &&& forall|i: int| 0 <= i < m.len() ==> (#[trigger] m[i]).len() == width
}

/// The matrix turned by a quarter: the cell at row `i`, column `j` of `m`
/// stands at row `j`, column `m.len() - 1 - i` of the result. Only the first
/// `m[0].len()` columns of `m` are read.
pub open spec fn rotated(m: Seq<Seq<u8>>) -> Seq<Seq<u8>> {
    Seq::new(m[0].len(), |j: int| Seq::new(m.len(), |k: int| m[m.len() - 1 - k][j]))
}

/// Replaces `matrix` by its quarter turn.
pub fn rotate_matrix(matrix: &mut Vec<Vec<u8>>)
    requires
        old(matrix).len() > 0,
        forall|i: int|
            0 <= i < old(matrix).len() ==> (#[trigger] old(matrix)[i]).len() >= old(matrix)[0].len(),
    ensures
        grid_of(*final(matrix)) == rotated(grid_of(*old(matrix))),
{
    let n: usize = matrix.len();
    let m: usize = matrix[0].len();
    let ghost source = grid_of(*matrix);
    let mut result: Vec<Vec<u8>> = Vec::new();
    let mut j: usize = 0;
    while j < m
        invariant
            j <= m,
            n == matrix.len(),
            n > 0,
            m == matrix[0].len(),
            source == grid_of(*matrix),
            forall|i: int| 0 <= i < matrix.len() ==> (#[trigger] matrix[i]).len() >= m,
            result.len() == j,
            forall|a: int| 0 <= a < j ==> (#[trigger] result[a])@ == rotated(source)[a],
        decreases m - j,
    {
        let mut row: Vec<u8> = Vec::new();
        let mut k: usize = 0;
        while k < n
            invariant
                k <= n,
                j < m,
                n == matrix.len(),
                source == grid_of(*matrix),
                forall|i: int| 0 <= i < matrix.len() ==> (#[trigger] matrix[i]).len() >= m,
                row.len() == k,
                forall|b: int| 0 <= b < k ==> #[trigger] row[b] == source[n - 1 - b][j as int],
            decreases n - k,
        {
            row.push(matrix[n - 1 - k][j]);
            k += 1;
        }
        assert(row@ =~= rotated(source)[j as int]);
        result.push(row);
        j += 1;
    }
    assert(grid_of(result) =~= rotated(source));
    *matrix = result;
}

/// A piece identifier: one of the seven shapes.
pub open spec fn is_piece(piece: int) -> bool {
    1 <= piece <= 7
}

/// The canonical cell matrix of a piece; an occupied cell holds the piece's
/// identifier.
pub open spec fn base_shape(piece: int) -> Seq<Seq<u8>> {
    if piece == 1 {
        seq![seq![0u8, 0u8, 1u8], seq![1u8, 1u8, 1u8]]
    } else if piece == 2 {
        seq![seq![2u8, 0u8, 0u8], seq![2u8, 2u8, 2u8]]
    } else if piece == 3 {
        seq![seq![0u8, 3u8, 3u8], seq![3u8, 3u8, 0u8]]
    } else if piece == 4 {
        seq![seq![4u8, 4u8, 0u8], seq![0u8, 4u8, 4u8]]
    } else if piece == 5 {
        seq![seq![0u8, 5u8, 0u8], seq![5u8, 5u8, 5u8]]
    } else if piece == 6 {
        seq![seq![6u8, 6u8], seq![6u8, 6u8]]
    } else {
        seq![seq![7u8, 7u8, 7u8, 7u8]]
    }
}

/// The cell matrix of a piece after `rotation` quarter turns.
pub open spec fn shape_of(piece: int, rotation: int) -> Seq<Seq<u8>>
    decreases rotation,
{
    if rotation <= 0 {
        base_shape(piece)
    } else {
        rotated(shape_of(piece, rotation - 1))
    }
}

/// Number of rows of a piece's canonical matrix.
pub open spec fn base_height(piece: int) -> int {
    if piece == 7 {
        1
    } else {
        2
    }
}

/// Number of columns of a piece's canonical matrix.
pub open spec fn base_width(piece: int) -> int {
    if piece == 6 {
        2
    } else if piece == 7 {
        4
    } else {
        3
    }
}

/// Number of rows of a piece's matrix after `rotation` quarter turns.
pub open spec fn shape_height(piece: int, rotation: int) -> int {
    if rotation % 2 == 0 {
        base_height(piece)
    } else {
        base_width(piece)
    }
}

/// Number of columns of a piece's matrix after `rotation` quarter turns.
pub open spec fn shape_width(piece: int, rotation: int) -> int {
    if rotation % 2 == 0 {
        base_width(piece)
    } else {
        base_height(piece)
    }
}

/// Every cell of the matrix is empty or holds `code`.
pub open spec fn cells_are(m: Seq<Seq<u8>>, code: int) -> bool {
    forall|j: int, i: int|
        0 <= j < m.len() && 0 <= i < m[j].len() ==> #[trigger] m[j][i] == 0 || m[j][i] == code
}

/// A quarter turn swaps the dimensions of a rectangular matrix and keeps the
/// codes that its cells hold.
pub proof fn lemma_rotated_rect(m: Seq<Seq<u8>>, height: int, width: int, code: int)
    requires
        is_rect(m, height, width),
        width > 0,
        cells_are(m, code),
    ensures
        is_rect(rotated(m), width, height),
        cells_are(rotated(m), code),
{
    let t = rotated(m);
    assert(m[0].len() == width);
    assert forall|j: int, i: int| 0 <= j < t.len() && 0 <= i < t[j].len() implies #[trigger] t[j][i]
        == 0 || t[j][i] == code by {
        let a = m.len() - 1 - i;
        assert(m[a].len() == width);
        assert(t[j][i] == m[a][j]);
    }
}

/// The canonical matrix of each piece is a rectangle of its base dimensions
/// whose occupied cells hold the piece's identifier.
pub proof fn lemma_base_shape(piece: int)
    requires
        is_piece(piece),
    ensures
        is_rect(base_shape(piece), base_height(piece), base_width(piece)),
        cells_are(base_shape(piece), piece),
{
}

/// Each rotation state of each piece is a rectangle, at most four cells high
/// and wide, whose occupied cells hold the piece's identifier.
pub proof fn lemma_shape_dims(piece: int, rotation: int)
    requires
        is_piece(piece),
        0 <= rotation,
    ensures
        is_rect(shape_of(piece, rotation), shape_height(piece, rotation), shape_width(piece, rotation)),
        cells_are(shape_of(piece, rotation), piece),
        1 <= shape_height(piece, rotation) <= 4,
        1 <= shape_width(piece, rotation) <= 4,
    decreases rotation,
{
    if rotation == 0 {
        lemma_base_shape(piece);
    } else {
        lemma_shape_dims(piece, rotation - 1);
        lemma_rotated_rect(
            shape_of(piece, rotation - 1),
            shape_height(piece, rotation - 1),
            shape_width(piece, rotation - 1),
            piece,
        );
    }
}

/// Row `j` of the matrix holds an occupied cell.
pub open spec fn row_occupied(m: Seq<Seq<u8>>, j: int) -> bool {
    exists|i: int| 0 <= i < m[j].len() && #[trigger] m[j][i] != 0
}

/// Column `i` of the matrix holds an occupied cell.
pub open spec fn column_occupied(m: Seq<Seq<u8>>, i: int) -> bool {
    exists|j: int| 0 <= j < m.len() && (#[trigger] m[j])[i] != 0
}

/// No row and no column of the matrix is empty.
pub open spec fn no_empty_line(m: Seq<Seq<u8>>) -> bool {
    &&& forall|j: int| 0 <= j < m.len() ==> #[trigger] row_occupied(m, j)
    &&& forall|i: int| 0 <= i < m[0].len() ==> #[trigger] column_occupied(m, i)
}

/// A quarter turn of a rectangular matrix without an empty row or column has
/// no empty row or column.
pub proof fn lemma_rotated_no_empty_line(m: Seq<Seq<u8>>, height: int, width: int)
    requires
        is_rect(m, height, width),
        width > 0,
        no_empty_line(m),
    ensures
        no_empty_line(rotated(m)),
{
    let t = rotated(m);
    assert(m[0].len() == width);
    assert forall|j: int| 0 <= j < t.len() implies #[trigger] row_occupied(t, j) by {
        assert(column_occupied(m, j));
        let a = choose|a: int| 0 <= a < m.len() && (#[trigger] m[a])[j] != 0;
        let k = m.len() - 1 - a;
        assert(t[j][k] == m[a][j]);
    }
    assert forall|k: int| 0 <= k < t[0].len() implies #[trigger] column_occupied(t, k) by {
        let a = m.len() - 1 - k;
        assert(row_occupied(m, a));
        assert(m[a].len() == width);
        let i = choose|i: int| 0 <= i < m[a].len() && #[trigger] m[a][i] != 0;
        assert(t[i][k] == m[a][i]);
    }
}

/// No row and no column of a piece's canonical matrix is empty.
pub proof fn lemma_base_no_empty_line(piece: int)
    requires
        is_piece(piece),
    ensures
        no_empty_line(base_shape(piece)),
{
    let m = base_shape(piece);
    assert forall|j: int| 0 <= j < m.len() implies #[trigger] row_occupied(m, j) by {
        if piece == 3 && j == 1 || piece == 4 && j == 0 || piece == 2 || piece == 6 || piece == 7 {
            assert(m[j][0] != 0);
        } else if piece == 5 && j == 0 {
            assert(m[j][1] != 0);
        } else {
            assert(m[j][2] != 0);
        }
    }
    assert forall|i: int| 0 <= i < m[0].len() implies #[trigger] column_occupied(m, i) by {
        if piece == 7 || piece == 6 || piece == 3 && i >= 1 || piece == 4 && i <= 1 || piece == 2
            && i == 0 {
            assert(m[0][i] != 0);
        } else {
            assert(m[1][i] != 0);
        }
    }
}

/// No row and no column of a rotation state of a piece is empty.
pub proof fn lemma_shape_no_empty_line(piece: int, rotation: int)
    requires
        is_piece(piece),
        0 <= rotation,
    ensures
        no_empty_line(shape_of(piece, rotation)),
    decreases rotation,
{
    if rotation == 0 {
        lemma_base_no_empty_line(piece);
    } else {
        lemma_shape_dims(piece, rotation - 1);
        lemma_shape_no_empty_line(piece, rotation - 1);
        lemma_rotated_no_empty_line(
            shape_of(piece, rotation - 1),
            shape_height(piece, rotation - 1),
            shape_width(piece, rotation - 1),
        );
    }
}

/// Number of occupied cells among the first `n` cells of the row.
pub open spec fn filled_in_row(row: Seq<u8>, n: int) -> int
    decreases n,
{
    if n <= 0 {
        0
    } else {
        filled_in_row(row, n - 1) + if row[n - 1] != 0 {
            1int
        } else {
            0int
        }
    }
}

/// Number of occupied cells in the first `n` rows of the matrix.
pub open spec fn filled_before(m: Seq<Seq<u8>>, n: int) -> int
    decreases n,
{
    if n <= 0 {
        0
    } else {
        filled_before(m, n - 1) + filled_in_row(m[n - 1], m[n - 1].len() as int)
    }
}

/// Number of occupied cells of the matrix.
pub open spec fn filled_cells(m: Seq<Seq<u8>>) -> int {
    filled_before(m, m.len() as int)
}

/// Every rotation state of every piece has four occupied cells.
pub proof fn lemma_four_cells(piece: int, rotation: int)
    requires
        is_piece(piece),
        0 <= rotation < 4,
    ensures
        filled_cells(shape_of(piece, rotation)) == 4,
{
    reveal_with_fuel(shape_of, 4);
    reveal_with_fuel(filled_in_row, 5);
    reveal_with_fuel(filled_before, 5);
    lemma_shape_dims(piece, rotation);
}

/// The canonical matrix of a piece.
pub fn canonical_shape(piece: usize) -> (m: Vec<Vec<u8>>)
    requires
        is_piece(piece as int),
    ensures
        grid_of(m) == base_shape(piece as int),
{
    let m: Vec<Vec<u8>> = if piece == 1 {
        vec![vec![0, 0, 1], vec![1, 1, 1]]
    } else if piece == 2 {
        vec![vec![2, 0, 0], vec![2, 2, 2]]
    } else if piece == 3 {
        vec![vec![0, 3, 3], vec![3, 3, 0]]
    } else if piece == 4 {
        vec![vec![4, 4, 0], vec![0, 4, 4]]
    } else if piece == 5 {
        vec![vec![0, 5, 0], vec![5, 5, 5]]
    } else if piece == 6 {
        vec![vec![6, 6], vec![6, 6]]
    } else {
        vec![vec![7, 7, 7, 7]]
    };
    assert(grid_of(m) =~~= base_shape(piece as int));
    m
}

/// The cell matrix of `piece` in rotation state `rotation`, made by turning
/// the canonical matrix `rotation` times.
pub fn shape(piece: usize, rotation: usize) -> (m: Vec<Vec<u8>>)
    requires
        is_piece(piece as int),
        rotation < 4,
    ensures
        grid_of(m) == shape_of(piece as int, rotation as int),
{
    let mut m: Vec<Vec<u8>> = canonical_shape(piece);
    let mut turn: usize = 0;
    while turn < rotation
        invariant
            turn <= rotation,
            is_piece(piece as int),
            grid_of(m) == shape_of(piece as int, turn as int),
        decreases rotation - turn,
    {
        proof {
            lemma_shape_dims(piece as int, turn as int);
            let g = grid_of(m);
            assert forall|i: int| 0 <= i < m.len() implies (#[trigger] m[i]).len() >= m[0].len() by {
                assert(g[i].len() == g[0].len());
            }
        }
        rotate_matrix(&mut m);
        turn += 1;
    }
    m
}

} // verus!
