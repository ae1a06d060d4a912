use tetris_engine::pieces::{canonical_shape, rotate_matrix, shape};

#[test]
fn rotate_turns_a_row_into_a_column() {
    let mut m = vec![vec![1u8, 2, 3]];
    rotate_matrix(&mut m);
    assert_eq!(m, vec![vec![1u8], vec![2], vec![3]]);
}

#[test]
fn rotate_moves_each_cell_a_quarter_turn() {
    // The cell at row i, column j goes to row j, column n - 1 - i.
    let mut m = vec![vec![1u8, 2, 3], vec![4, 5, 6]];
    rotate_matrix(&mut m);
    assert_eq!(m, vec![vec![4u8, 1], vec![5, 2], vec![6, 3]]);
}

#[test]
fn rotate_four_times_gives_the_matrix_back() {
    let start = vec![vec![0u8, 5, 0], vec![5, 5, 5]];
    let mut m = start.clone();
    for _ in 0..4 {
        rotate_matrix(&mut m);
    }
    assert_eq!(m, start);
}

#[test]
fn rotate_reads_only_the_first_rows_width() {
    let mut m = vec![vec![1u8, 2], vec![3, 4, 9]];
    rotate_matrix(&mut m);
    assert_eq!(m, vec![vec![3u8, 1], vec![4, 2]]);
}

#[test]
fn canonical_shapes_are_the_seven_pieces() {
    assert_eq!(canonical_shape(1), vec![vec![0u8, 0, 1], vec![1, 1, 1]]);
    assert_eq!(canonical_shape(2), vec![vec![2u8, 0, 0], vec![2, 2, 2]]);
    assert_eq!(canonical_shape(3), vec![vec![0u8, 3, 3], vec![3, 3, 0]]);
    assert_eq!(canonical_shape(4), vec![vec![4u8, 4, 0], vec![0, 4, 4]]);
    assert_eq!(canonical_shape(5), vec![vec![0u8, 5, 0], vec![5, 5, 5]]);
    assert_eq!(canonical_shape(6), vec![vec![6u8, 6], vec![6, 6]]);
    assert_eq!(canonical_shape(7), vec![vec![7u8, 7, 7, 7]]);
}

#[test]
fn shape_rotation_states_of_the_first_piece() {
    assert_eq!(shape(1, 0), vec![vec![0u8, 0, 1], vec![1, 1, 1]]);
    assert_eq!(shape(1, 1), vec![vec![1u8, 0], vec![1, 0], vec![1, 1]]);
    assert_eq!(shape(1, 2), vec![vec![1u8, 1, 1], vec![1, 0, 0]]);
    assert_eq!(shape(1, 3), vec![vec![1u8, 1], vec![0, 1], vec![0, 1]]);
}

#[test]
fn shape_of_the_bar_stands_up_on_odd_rotations() {
    assert_eq!(shape(7, 0), vec![vec![7u8, 7, 7, 7]]);
    assert_eq!(shape(7, 1), vec![vec![7u8], vec![7], vec![7], vec![7]]);
    assert_eq!(shape(7, 2), vec![vec![7u8, 7, 7, 7]]);
    assert_eq!(shape(7, 3), vec![vec![7u8], vec![7], vec![7], vec![7]]);
}

#[test]
fn shape_of_the_square_is_the_same_in_every_rotation() {
    for rotation in 0..4 {
        assert_eq!(shape(6, rotation), vec![vec![6u8, 6], vec![6, 6]]);
    }
}

#[test]
fn shape_dimensions_swap_with_each_turn() {
    for piece in 1..8usize {
        let base = shape(piece, 0);
        for rotation in 0..4usize {
            let m = shape(piece, rotation);
            let (h, w) = if rotation % 2 == 0 {
                (base.len(), base[0].len())
            } else {
                (base[0].len(), base.len())
            };
            assert_eq!(m.len(), h);
            for row in &m {
                assert_eq!(row.len(), w);
                for &cell in row {
                    assert!(cell == 0 || cell as usize == piece);
                }
            }
            let filled: usize = m.iter().map(|row| row.iter().filter(|&&c| c != 0).count()).sum();
            assert_eq!(filled, 4);
        }
    }
}
