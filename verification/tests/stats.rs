use tetris_engine::stats::{board_statistics, column_statistics};

fn empty() -> Vec<Vec<u8>> {
    vec![vec![0u8; 10]; 22]
}

fn with_cells(cells: &[(usize, usize)]) -> Vec<Vec<u8>> {
    let mut board = empty();
    for &(r, c) in cells {
        board[r][c] = 1;
    }
    board
}

#[test]
fn statistics_of_an_empty_board_are_zero() {
    assert_eq!(board_statistics(&empty()), (0, 0, 0));
}

#[test]
fn height_counts_every_occupied_cell_by_its_row() {
    // Rows 21 and 20 are 1 and 2 above the floor.
    let board = with_cells(&[(21, 0), (20, 0), (21, 1)]);
    let (holes, bumpiness, height) = board_statistics(&board);
    assert_eq!(height, 1 + 2 + 1);
    assert_eq!(holes, 0);
    // Fill counts 2, 1, 0, ...: gaps 1 and 1.
    assert_eq!(bumpiness, 2);
}

#[test]
fn height_of_a_tall_stack_counts_each_cell() {
    let board = with_cells(&[(21, 3), (20, 3), (19, 3), (18, 3)]);
    assert_eq!(board_statistics(&board), (0, 8, 1 + 2 + 3 + 4));
}

#[test]
fn holes_are_all_the_empty_cells_under_an_occupied_one() {
    let board = with_cells(&[(19, 0), (21, 1)]);
    let (holes, bumpiness, height) = board_statistics(&board);
    assert_eq!(holes, 2);
    assert_eq!(height, 3 + 1);
    assert_eq!(bumpiness, 1);
}

#[test]
fn holes_count_each_buried_run() {
    // Column 4: occupied at rows 10 and 15, empty in between and below.
    let board = with_cells(&[(10, 4), (15, 4)]);
    let column = column_statistics(&board, 4);
    assert_eq!(column.0, 4 + 6);
    assert_eq!(column.1, 2);
    assert_eq!(column.2, 12 + 7);
}

#[test]
fn top_row_counts_for_the_fill_but_not_for_the_height() {
    let board = with_cells(&[(0, 5)]);
    let (holes, bumpiness, height) = board_statistics(&board);
    assert_eq!(holes, 21);
    // Fill counts 0, 1, 0 around column 5: gaps 1 and 1.
    assert_eq!(bumpiness, 2);
    assert_eq!(height, 0);
    assert_eq!(column_statistics(&board, 5), (21, 1, 0));
}

#[test]
fn bumpiness_of_a_cell_in_the_top_left_corner() {
    let board = with_cells(&[(0, 0)]);
    let (_, bumpiness, _) = board_statistics(&board);
    assert_eq!(bumpiness, 1);
}

#[test]
fn bumpiness_stays_when_cells_move_inside_their_column() {
    let low = with_cells(&[(21, 2), (20, 2), (21, 6)]);
    let high = with_cells(&[(0, 2), (9, 2), (3, 6)]);
    assert_eq!(board_statistics(&low).1, 2 + 2 + 1 + 1);
    assert_eq!(board_statistics(&high).1, board_statistics(&low).1);
}

#[test]
fn bumpiness_sums_the_gaps_between_fill_counts() {
    // Fill counts by column: 3, 0, 2, 2, 0, 0, 0, 0, 0, 1.
    let board = with_cells(&[(21, 0), (20, 0), (19, 0), (21, 2), (20, 2), (21, 3), (5, 3), (21, 9)]);
    let (_, bumpiness, _) = board_statistics(&board);
    assert_eq!(bumpiness, 3 + 2 + 0 + 2 + 0 + 0 + 0 + 0 + 1);
}

#[test]
fn bumpiness_goes_by_the_count_not_by_the_top() {
    // One cell high up in column 0 and one on the floor in column 1.
    let board = with_cells(&[(3, 0), (21, 1)]);
    let (_, bumpiness, _) = board_statistics(&board);
    assert_eq!(bumpiness, 0 + 1);
}

#[test]
fn statistics_of_a_full_board() {
    let board = vec![vec![1u8; 10]; 22];
    // Rows 1 to 21: heights 21 down to 1, in each of ten columns.
    assert_eq!(board_statistics(&board), (0, 0, 10 * 231));
    assert_eq!(column_statistics(&board, 0), (0, 22, 231));
}
