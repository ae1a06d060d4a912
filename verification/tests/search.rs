use std::collections::VecDeque;
use tetris_engine::pos::{Features, Position};
use tetris_engine::search::{best_move, can_go_on, play_to_completion, score_outcomes, select_best, try_moves};

fn empty() -> Vec<Vec<u8>> {
    vec![vec![0u8; 10]; 22]
}

fn queue(items: &[usize]) -> VecDeque<usize> {
    items.iter().copied().collect()
}

fn fewest_holes(f: &Features) -> i64 {
    -(f.holes as i64)
}

fn most_lines(f: &Features) -> i64 {
    f.completed_lines as i64
}

fn tallest(f: &Features) -> i64 {
    f.aggregate_height as i64
}

/// A board on which every placement reaches the two top rows.
fn doomed() -> Vec<Vec<u8>> {
    let mut board = empty();
    for c in 0..9 {
        board[2][c] = 1;
    }
    board[3][9] = 1;
    board
}

#[test]
fn select_best_takes_the_highest_score() {
    assert_eq!(select_best(&vec![Some(1), Some(7), Some(3)]), Some(1));
    assert_eq!(select_best(&vec![Some(-9), Some(-2), Some(-3)]), Some(1));
    assert_eq!(select_best(&vec![Some(i64::MIN)]), Some(0));
}

#[test]
fn select_best_keeps_the_first_of_equal_scores() {
    assert_eq!(select_best(&vec![None, Some(3), Some(5), Some(5)]), Some(2));
    assert_eq!(select_best(&vec![Some(0), Some(0), Some(0)]), Some(0));
}

#[test]
fn select_best_passes_over_what_was_not_scored() {
    assert_eq!(select_best(&vec![None, None, Some(-4), None]), Some(2));
    assert_eq!(select_best(&vec![None, None]), None);
    assert_eq!(select_best(&Vec::new()), None);
}

#[test]
fn score_outcomes_asks_the_evaluator_for_each_state() {
    let found = vec![
        Some(Features { holes: 3, bumpiness: 0, aggregate_height: 0, completed_lines: 0 }),
        None,
        Some(Features { holes: 0, bumpiness: 9, aggregate_height: 9, completed_lines: 9 }),
    ];
    assert_eq!(score_outcomes(&fewest_holes, &found), vec![Some(-3), None, Some(0)]);
}

#[test]
fn try_moves_gives_an_outcome_for_each_candidate() {
    let p = Position::new(6, queue(&[1, 2]), 4, 0, empty(), vec![], None);
    let (moves, found) = try_moves(&p);
    assert_eq!(moves, p.gen_legal_moves());
    assert_eq!(found.len(), moves.len());
    // The square at the left on an empty board: two cells in each of two columns.
    assert_eq!(
        found[0],
        Some(Features { holes: 0, bumpiness: 2, aggregate_height: 6, completed_lines: 4 })
    );
}

#[test]
fn best_move_of_equal_scores_is_the_first_candidate() {
    let p = Position::new(5, queue(&[1, 2]), 0, 0, empty(), vec![], None);
    let flat = |_: &Features| 0i64;
    assert_eq!(best_move(&flat, &p), Some((0, 0, false)));
}

#[test]
fn best_move_takes_the_placement_that_clears_a_row() {
    let mut board = empty();
    for c in 0..6 {
        board[21][c] = 1;
    }
    let p = Position::new(7, queue(&[1, 2]), 0, 0, board, vec![], None);
    assert_eq!(best_move(&most_lines, &p), Some((6, 0, false)));
}

#[test]
fn best_move_may_swap_the_held_piece_in() {
    let mut board = empty();
    for c in 0..6 {
        board[21][c] = 1;
    }
    let p = Position::new(6, queue(&[1, 2]), 0, 0, board, vec![], Some(7));
    assert_eq!(best_move(&most_lines, &p), Some((6, 0, true)));
}

#[test]
fn best_move_passes_over_placements_that_end_the_game() {
    // The left column is stacked up to row 3: a piece that comes to rest on it ends the game.
    let mut board = empty();
    for r in 3..22 {
        board[r][0] = 1;
    }
    let p = Position::new(6, queue(&[1, 2]), 0, 0, board, vec![], None);
    assert!(p.apply_move(0, 0, false, true).is_none());
    let choice = best_move(&tallest, &p).unwrap();
    assert!(p.apply_move(choice.0, choice.1, choice.2, true).is_some());
    // The choice is the first of the highest among the placements that go on.
    let (moves, found) = try_moves(&p);
    assert_eq!(found[0], None);
    let mut expected: Option<(usize, i64)> = None;
    for (i, outcome) in found.iter().enumerate() {
        if let Some(f) = outcome {
            let score = tallest(f);
            if expected.map_or(true, |(_, high)| score > high) {
                expected = Some((i, score));
            }
        }
    }
    assert_eq!(choice, moves[expected.unwrap().0]);
}

#[test]
fn best_move_is_none_where_every_placement_ends_the_game() {
    let p = Position::new(1, queue(&[2, 3]), 0, 0, doomed(), vec![], Some(7));
    for (x, rotation, swap) in p.gen_legal_moves() {
        assert!(p.apply_move(x, rotation, swap, true).is_none());
    }
    assert_eq!(best_move(&fewest_holes, &p), None);
}

#[test]
fn best_move_gives_the_same_answer_each_time() {
    let mut board = empty();
    board[21] = vec![1, 1, 0, 0, 1, 1, 1, 0, 0, 0];
    board[20] = vec![1, 0, 0, 0, 0, 1, 1, 0, 0, 0];
    let p = Position::new(3, queue(&[4, 5, 6]), 0, 0, board, vec![], Some(2));
    let score = |f: &Features| -(f.holes as i64) * 8 - (f.bumpiness as i64) - (f.aggregate_height as i64);
    let first = best_move(&score, &p);
    assert!(first.is_some());
    for _ in 0..10 {
        assert_eq!(best_move(&score, &p), first);
    }
}

#[test]
fn best_move_scores_no_lower_than_any_other_candidate() {
    let mut board = empty();
    board[21] = vec![1, 1, 0, 0, 1, 1, 1, 0, 0, 0];
    board[20] = vec![1, 0, 0, 0, 0, 1, 1, 0, 0, 0];
    let p = Position::new(3, queue(&[4, 5, 6]), 0, 0, board, vec![], Some(2));
    let (moves, found) = try_moves(&p);
    let choice = best_move(&fewest_holes, &p).unwrap();
    let at = moves.iter().position(|m| *m == choice).unwrap();
    let chosen = fewest_holes(&found[at].unwrap());
    for (i, outcome) in found.iter().enumerate() {
        if let Some(f) = outcome {
            assert!(fewest_holes(f) <= chosen);
            if i < at {
                assert!(fewest_holes(f) < chosen);
            }
        }
    }
}

#[test]
fn fewest_holes_never_makes_a_hole_where_it_can_be_avoided() {
    for _ in 0..5 {
        let mut p = Position::default();
        for _ in 0..60 {
            let (_, found) = try_moves(&p);
            let without_hole = found.iter().flatten().any(|f| f.holes == 0);
            let choice = match best_move(&fewest_holes, &p) {
                Some(m) => m,
                None => break,
            };
            let next = p.apply_move(choice.0, choice.1, choice.2, true).unwrap();
            if without_hole {
                assert_eq!(next.features().holes, 0);
            }
            let least = found.iter().flatten().map(|f| f.holes).min().unwrap();
            assert_eq!(next.features().holes, least);
            p = next;
        }
    }
}

#[test]
fn can_go_on_until_the_counters_are_nearly_full() {
    let p = Position::new(1, queue(&[2]), 0, 0, empty(), vec![], None);
    assert!(can_go_on(&p));
    let p = Position::new(1, queue(&[2]), usize::MAX - 22, i64::MAX - 1200, empty(), vec![], None);
    assert!(can_go_on(&p));
    let p = Position::new(1, queue(&[2]), usize::MAX - 21, 0, empty(), vec![], None);
    assert!(!can_go_on(&p));
    let p = Position::new(1, queue(&[2]), 0, i64::MAX - 1199, empty(), vec![], None);
    assert!(!can_go_on(&p));
}

#[test]
fn play_to_completion_ends_where_no_placement_survives() {
    let last = play_to_completion(&tallest, Position::default());
    assert!(last.is_well_formed());
    assert_eq!(best_move(&tallest, &last), None);
    assert!(last.board[0].iter().all(|&c| c == 0));
    assert!(last.board[1].iter().all(|&c| c == 0));
    assert_eq!(last.next_pieces.len(), 4);
}

#[test]
fn play_to_completion_returns_a_doomed_state_as_it_is() {
    let p = Position::new(1, queue(&[2, 3]), 3, 140, doomed(), vec![5], Some(7));
    let last = play_to_completion(&fewest_holes, p);
    assert_eq!(last.board, doomed());
    assert_eq!(last.score, 140);
    assert_eq!(last.lines, 3);
    assert_eq!(last.current_piece, 1);
    assert_eq!(last.next_pieces, queue(&[2, 3]));
    assert_eq!(last.bag, vec![5]);
    assert_eq!(last.pocket, Some(7));
}

#[test]
fn play_to_completion_stops_where_the_counters_are_full() {
    let p = Position::new(1, queue(&[2, 3]), usize::MAX - 3, 0, empty(), vec![], None);
    let last = play_to_completion(&fewest_holes, p);
    assert_eq!(last.board, empty());
    assert_eq!(last.lines, usize::MAX - 3);
    assert_eq!(last.current_piece, 1);
}

#[test]
fn play_to_completion_stops_where_the_queue_is_empty() {
    let p = Position::new(6, queue(&[]), 2, 100, empty(), vec![3, 4], Some(1));
    let last = play_to_completion(&fewest_holes, p);
    assert_eq!(last.board, empty());
    assert_eq!(last.current_piece, 6);
    assert_eq!(last.next_pieces, queue(&[]));
    assert_eq!(last.bag, vec![3, 4]);
    assert_eq!(last.pocket, Some(1));
    assert_eq!(last.score, 100);
    assert_eq!(last.lines, 2);
}

#[test]
fn play_to_completion_scores_what_the_rows_cleared_give() {
    let score = |f: &Features| {
        (f.completed_lines as i64) * 100 - (f.holes as i64) * 8 - (f.bumpiness as i64)
            - (f.aggregate_height as i64)
    };
    let mut p = Position::default();
    let mut turns = 0;
    let mut points = 0i64;
    let mut lines = 0usize;
    while let Some(m) = best_move(&score, &p) {
        let next = p.apply_move(m.0, m.1, m.2, true).unwrap();
        let cleared = next.lines - p.lines;
        let gain = match cleared {
            1 => 40,
            2 => 100,
            3 => 300,
            4 => 1200,
            _ => 0,
        };
        assert_eq!(next.score - p.score, gain);
        points += gain;
        lines += cleared;
        p = next;
        turns += 1;
        if turns == 120 {
            break;
        }
    }
    assert_eq!(p.score, points);
    assert_eq!(p.lines, lines);
}
