use std::collections::VecDeque;
use tetris_engine::pos::Position;

fn with_board(board: Vec<Vec<u8>>) -> Position {
    Position::new(1, VecDeque::new(), 0, 0, board, Vec::new(), None)
}

#[test]
fn render_of_an_empty_board() {
    let text = with_board(vec![vec![0u8; 10]; 22]).render();
    assert_eq!(text, "0 0 0 0 0 0 0 0 0 0 \n".repeat(22));
}

#[test]
fn render_writes_each_code_with_a_space() {
    let mut board = vec![vec![0u8; 10]; 22];
    board[0][0] = 7;
    board[21] = vec![1, 2, 3, 4, 5, 6, 7, 0, 0, 1];
    let text = with_board(board).render();
    let lines: Vec<&str> = text.split('\n').collect();
    assert_eq!(lines.len(), 23);
    assert_eq!(lines[0], "7 0 0 0 0 0 0 0 0 0 ");
    assert_eq!(lines[1], "0 0 0 0 0 0 0 0 0 0 ");
    assert_eq!(lines[21], "1 2 3 4 5 6 7 0 0 1 ");
    assert_eq!(lines[22], "");
}

#[test]
fn render_writes_larger_codes_in_decimal() {
    let mut board = vec![vec![0u8; 10]; 22];
    board[3] = vec![9, 10, 99, 100, 101, 255, 110, 200, 19, 0];
    let text = with_board(board).render();
    let lines: Vec<&str> = text.split('\n').collect();
    assert_eq!(lines[3], "9 10 99 100 101 255 110 200 19 0 ");
}
