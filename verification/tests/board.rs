use tetris_engine::board::{
    blank_board, blank_row, clear_full_rows, find_landing_row, has_clear_top, is_blocked_below,
    is_valid_board, row_is_full, stamp, BOARD_HEIGHT, BOARD_WIDTH,
};
use tetris_engine::pieces::shape;

fn empty() -> Vec<Vec<u8>> {
    vec![vec![0u8; 10]; 22]
}

fn with_cells(cells: &[(usize, usize, u8)]) -> Vec<Vec<u8>> {
    let mut board = empty();
    for &(r, c, v) in cells {
        board[r][c] = v;
    }
    board
}

#[test]
fn board_dimensions_are_ten_by_twenty_two() {
    assert_eq!(BOARD_WIDTH, 10);
    assert_eq!(BOARD_HEIGHT, 22);
    assert_eq!(blank_board(), empty());
    assert_eq!(blank_row(), vec![0u8; 10]);
}

#[test]
fn landing_row_on_an_empty_board_is_the_floor() {
    let board = empty();
    assert_eq!(find_landing_row(&board, &shape(6, 0), 0), 20);
    assert_eq!(find_landing_row(&board, &shape(7, 0), 3), 21);
    assert_eq!(find_landing_row(&board, &shape(7, 1), 9), 18);
    assert_eq!(find_landing_row(&board, &shape(1, 1), 8), 19);
}

#[test]
fn landing_row_is_above_an_occupied_cell() {
    let board = with_cells(&[(21, 0, 3)]);
    assert_eq!(find_landing_row(&board, &shape(6, 0), 0), 19);
    assert_eq!(find_landing_row(&board, &shape(6, 0), 1), 20);
    let board = with_cells(&[(21, 2, 3)]);
    assert_eq!(find_landing_row(&board, &shape(1, 0), 0), 19);
}

#[test]
fn landing_row_lets_an_empty_corner_nest() {
    // The third piece has no cell at the right of its lower row.
    let board = with_cells(&[(21, 2, 1)]);
    assert_eq!(find_landing_row(&board, &shape(3, 0), 0), 20);
    let board = with_cells(&[(21, 0, 1)]);
    assert_eq!(find_landing_row(&board, &shape(3, 0), 0), 19);
}

#[test]
fn landing_row_is_the_first_blocked_row_from_the_top() {
    // An overhang at row 10 stops the piece although there is room below it.
    let board = with_cells(&[(10, 4, 2)]);
    assert_eq!(find_landing_row(&board, &shape(6, 0), 4), 8);
    assert_eq!(find_landing_row(&board, &shape(6, 0), 3), 8);
    assert_eq!(find_landing_row(&board, &shape(6, 0), 5), 20);
}

#[test]
fn blocked_below_looks_one_row_down() {
    let board = with_cells(&[(21, 0, 3)]);
    let square = shape(6, 0);
    assert!(is_blocked_below(&board, &square, 0, 19));
    assert!(!is_blocked_below(&board, &square, 0, 18));
    assert!(!is_blocked_below(&board, &square, 1, 19));
}

#[test]
fn stamp_fills_the_cells_under_the_piece() {
    let board = empty();
    let out = stamp(&board, &shape(5, 0), 3, 20);
    let expected = with_cells(&[(20, 4, 5), (21, 3, 5), (21, 4, 5), (21, 5, 5)]);
    assert_eq!(out, expected);
    assert_eq!(board, empty());
}

#[test]
fn stamp_never_overwrites_an_occupied_cell() {
    let board = with_cells(&[(2, 0, 5)]);
    let bar = shape(7, 1);
    assert_eq!(find_landing_row(&board, &bar, 0), 0);
    let out = stamp(&board, &bar, 0, 0);
    let expected = with_cells(&[(0, 0, 7), (1, 0, 7), (2, 0, 5), (3, 0, 7)]);
    assert_eq!(out, expected);
}

#[test]
fn stamp_keeps_every_cell_outside_the_piece() {
    let mut board = empty();
    for c in 0..10 {
        board[21][c] = ((c % 7) + 1) as u8;
    }
    board[21][4] = 0;
    let out = stamp(&board, &shape(6, 0), 0, 19);
    for r in 0..22 {
        for c in 0..10 {
            let under = (19..21).contains(&r) && c < 2;
            if under {
                assert_eq!(out[r][c], 6);
            } else {
                assert_eq!(out[r][c], board[r][c]);
            }
        }
    }
}

#[test]
fn full_row_has_no_empty_cell() {
    assert!(row_is_full(&vec![1, 2, 3]));
    assert!(!row_is_full(&vec![1, 0, 3]));
    assert!(row_is_full(&vec![]));
}

#[test]
fn clear_without_full_rows_changes_nothing() {
    let mut board = with_cells(&[(21, 0, 1), (20, 3, 2)]);
    let before = board.clone();
    assert_eq!(clear_full_rows(&mut board), 0);
    assert_eq!(board, before);
}

#[test]
fn clear_takes_out_every_full_row_in_one_pass() {
    let mut board = empty();
    board[21] = vec![1; 10];
    board[20] = vec![0, 2, 0, 0, 0, 0, 0, 0, 0, 0];
    board[19] = vec![3; 10];
    board[18] = vec![0, 0, 4, 0, 0, 0, 0, 0, 0, 0];
    let count = clear_full_rows(&mut board);
    assert_eq!(count, 2);
    let mut expected = empty();
    expected[21] = vec![0, 2, 0, 0, 0, 0, 0, 0, 0, 0];
    expected[20] = vec![0, 0, 4, 0, 0, 0, 0, 0, 0, 0];
    assert_eq!(board, expected);
}

#[test]
fn clear_of_neighbouring_full_rows() {
    let mut board = empty();
    for r in 18..22 {
        board[r] = vec![7; 10];
    }
    board[17][5] = 1;
    assert_eq!(clear_full_rows(&mut board), 4);
    let expected = with_cells(&[(21, 5, 1)]);
    assert_eq!(board, expected);
}

#[test]
fn clear_of_a_board_of_full_rows_leaves_it_empty() {
    let mut board = vec![vec![1u8; 10]; 22];
    assert_eq!(clear_full_rows(&mut board), 22);
    assert_eq!(board, empty());
}

#[test]
fn clear_top_rows_are_the_first_two() {
    assert!(has_clear_top(&empty()));
    assert!(has_clear_top(&with_cells(&[(2, 0, 1)])));
    assert!(!has_clear_top(&with_cells(&[(0, 9, 1)])));
    assert!(!has_clear_top(&with_cells(&[(1, 4, 1)])));
}

#[test]
fn valid_board_has_the_dimensions_and_codes_up_to_seven() {
    assert!(is_valid_board(&empty()));
    assert!(is_valid_board(&with_cells(&[(5, 5, 7)])));
    assert!(!is_valid_board(&with_cells(&[(5, 5, 8)])));
    assert!(!is_valid_board(&vec![vec![0u8; 10]; 21]));
    assert!(!is_valid_board(&vec![vec![0u8; 10]; 23]));
    let mut ragged = empty();
    ragged[7].push(0);
    assert!(!is_valid_board(&ragged));
    let mut short = empty();
    short[21].pop();
    assert!(!is_valid_board(&short));
}
