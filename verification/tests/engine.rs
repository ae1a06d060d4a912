use std::collections::VecDeque;
use tetris_engine::engine::{Engine, Turn};
use tetris_engine::pos::{Features, Position};

type Evaluator = fn(&Features) -> i64;

fn empty() -> Vec<Vec<u8>> {
    vec![vec![0u8; 10]; 22]
}

fn queue(items: &[usize]) -> VecDeque<usize> {
    items.iter().copied().collect()
}

fn fewest_holes(f: &Features) -> i64 {
    -(f.holes as i64)
}

fn most_lines(f: &Features) -> i64 {
    f.completed_lines as i64
}

fn doomed() -> Vec<Vec<u8>> {
    let mut board = empty();
    for c in 0..9 {
        board[2][c] = 1;
    }
    board[3][9] = 1;
    board
}

#[test]
fn new_engine_is_not_ready_and_holds_a_fresh_game() {
    let engine: Engine<Evaluator> = Engine::new();
    assert!(!engine.is_ready());
    let p = engine.position();
    assert_eq!(p.board, empty());
    assert_eq!(p.score, 0);
    assert_eq!(p.lines, 0);
    assert_eq!(p.pocket, None);
    assert_eq!(p.next_pieces.len(), 4);
    assert!(p.is_well_formed());
}

#[test]
fn load_makes_the_engine_ready_and_keeps_the_state() {
    let engine: Engine<Evaluator> = Engine::new();
    let current = engine.position().current_piece;
    let engine = engine.load(fewest_holes);
    assert!(engine.is_ready());
    assert_eq!(engine.position().current_piece, current);
}

#[test]
fn go_without_an_evaluator_is_not_ready() {
    let engine: Engine<Evaluator> = Engine::new();
    let current = engine.position().current_piece;
    let (engine, turn) = engine.go();
    assert_eq!(turn, Turn::NotReady);
    assert_eq!(engine.position().board, empty());
    assert_eq!(engine.position().current_piece, current);
}

#[test]
fn play_game_without_an_evaluator_plays_nothing() {
    let engine: Engine<Evaluator> = Engine::new();
    let (engine, score) = engine.play_game();
    assert_eq!(score, None);
    assert_eq!(engine.position().board, empty());
}

#[test]
fn inject_takes_over_a_well_formed_state() {
    let engine: Engine<Evaluator> = Engine::new();
    let mut board = empty();
    board[21][0] = 3;
    let p = Position::new(2, queue(&[1, 4]), 6, 500, board.clone(), vec![], Some(5));
    let (engine, taken) = engine.inject(p);
    assert!(taken);
    assert_eq!(engine.position().board, board);
    assert_eq!(engine.position().current_piece, 2);
    assert_eq!(engine.position().next_pieces, queue(&[1, 4]));
    assert_eq!(engine.position().lines, 6);
    assert_eq!(engine.position().score, 500);
    assert_eq!(engine.position().pocket, Some(5));
}

#[test]
fn inject_turns_away_a_malformed_state() {
    let engine: Engine<Evaluator> = Engine::new();
    let (engine, taken) = engine.inject(Position::new(9, queue(&[1]), 0, 0, empty(), vec![], None));
    assert!(!taken);
    assert!(engine.position().is_well_formed());
    let short = vec![vec![0u8; 10]; 21];
    let (engine, taken) = engine.inject(Position::new(1, queue(&[1]), 0, 0, short, vec![], None));
    assert!(!taken);
    assert_eq!(engine.position().board, empty());
    let (engine, taken) = engine.inject(Position::new(1, queue(&[0]), 0, 0, empty(), vec![], None));
    assert!(!taken);
    assert_eq!(engine.position().next_pieces.len(), 4);
}

#[test]
fn inject_takes_over_a_state_with_an_empty_queue() {
    let mut board = empty();
    board[21][4] = 2;
    let engine: Engine<Evaluator> = Engine::new().load(fewest_holes);
    let (engine, taken) = engine.inject(Position::new(3, queue(&[]), 8, 900, board.clone(), vec![], None));
    assert!(taken);
    assert!(engine.is_ready());
    assert_eq!(engine.position().current_piece, 3);
    assert_eq!(engine.position().next_pieces, queue(&[]));
    assert_eq!(engine.position().lines, 8);
    assert_eq!(engine.position().score, 900);
    assert_eq!(engine.position().board, board);
    assert_eq!(engine.position().pocket, None);
}

#[test]
fn inject_replaces_the_whole_state() {
    let engine: Engine<Evaluator> = Engine::new();
    let first = Position::new(2, queue(&[1, 4]), 6, 500, empty(), vec![7], Some(5));
    let (engine, _) = engine.inject(first);
    let mut board = empty();
    board[20][9] = 1;
    let second = Position::new(4, queue(&[6]), 0, 0, board.clone(), vec![], None);
    let (engine, taken) = engine.inject(second);
    assert!(taken);
    assert_eq!(engine.position().current_piece, 4);
    assert_eq!(engine.position().next_pieces, queue(&[6]));
    assert_eq!(engine.position().lines, 0);
    assert_eq!(engine.position().score, 0);
    assert_eq!(engine.position().board, board);
    assert_eq!(engine.position().bag, Vec::<usize>::new());
    assert_eq!(engine.position().pocket, None);
    assert!(!engine.is_ready());
}

#[test]
fn go_with_an_empty_queue_makes_no_placement() {
    let engine: Engine<Evaluator> = Engine::new().load(fewest_holes);
    let (engine, _) = engine.inject(Position::new(3, queue(&[]), 8, 900, empty(), vec![], None));
    let (engine, turn) = engine.go();
    assert_eq!(turn, Turn::QueueEmpty);
    assert_eq!(engine.position().current_piece, 3);
    assert_eq!(engine.position().board, empty());
    assert_eq!(engine.position().score, 900);
}

#[test]
fn go_with_an_empty_queue_and_no_evaluator_is_not_ready() {
    let engine: Engine<Evaluator> = Engine::new();
    let (engine, _) = engine.inject(Position::new(3, queue(&[]), 0, 0, empty(), vec![], None));
    let (_, turn) = engine.go();
    assert_eq!(turn, Turn::NotReady);
}

#[test]
fn play_game_with_an_empty_queue_ends_at_once() {
    let engine: Engine<Evaluator> = Engine::new().load(fewest_holes);
    let (engine, _) = engine.inject(Position::new(3, queue(&[]), 8, 900, empty(), vec![], None));
    let (engine, score) = engine.play_game();
    assert_eq!(score, Some(900));
    assert_eq!(engine.position().score, 0);
    assert_eq!(engine.position().next_pieces.len(), 4);
}

#[test]
fn go_plays_the_placement_that_the_search_picks() {
    let mut board = empty();
    for c in 0..6 {
        board[21][c] = 1;
    }
    let p = Position::new(7, queue(&[1, 2]), 0, 0, board, vec![3], None);
    let engine: Engine<Evaluator> = Engine::new().load(most_lines);
    let (engine, taken) = engine.inject(p);
    assert!(taken);
    let (engine, turn) = engine.go();
    assert_eq!(turn, Turn::Played((6, 0, false)));
    assert_eq!(engine.position().board, empty());
    assert_eq!(engine.position().lines, 1);
    assert_eq!(engine.position().score, 40);
    assert_eq!(engine.position().current_piece, 1);
    assert_eq!(engine.position().next_pieces, queue(&[2, 3]));
    assert!(engine.is_ready());
}

#[test]
fn go_on_a_doomed_board_reports_the_end_of_the_game() {
    let p = Position::new(1, queue(&[2, 3]), 0, 70, doomed(), vec![], Some(7));
    let engine: Engine<Evaluator> = Engine::new().load(fewest_holes);
    let (engine, taken) = engine.inject(p);
    assert!(taken);
    let (engine, turn) = engine.go();
    assert_eq!(turn, Turn::GameOver);
    assert_eq!(engine.position().board, doomed());
    assert_eq!(engine.position().score, 70);
}

#[test]
fn go_with_full_counters_plays_nothing() {
    let p = Position::new(1, queue(&[2, 3]), 0, i64::MAX - 10, empty(), vec![], None);
    let engine: Engine<Evaluator> = Engine::new().load(fewest_holes);
    let (engine, _) = engine.inject(p);
    let (engine, turn) = engine.go();
    assert_eq!(turn, Turn::CountersFull);
    assert_eq!(engine.position().board, empty());
    assert_eq!(engine.position().score, i64::MAX - 10);
}

#[test]
fn play_game_reports_the_score_and_starts_anew() {
    let p = Position::new(1, queue(&[2, 3]), 3, 140, doomed(), vec![], Some(7));
    let engine: Engine<Evaluator> = Engine::new().load(fewest_holes);
    let (engine, _) = engine.inject(p);
    let (engine, score) = engine.play_game();
    assert_eq!(score, Some(140));
    assert!(engine.is_ready());
    assert_eq!(engine.position().board, empty());
    assert_eq!(engine.position().score, 0);
    assert_eq!(engine.position().lines, 0);
    assert_eq!(engine.position().pocket, None);
    assert_eq!(engine.position().next_pieces.len(), 4);
}

#[test]
fn play_game_from_the_start_comes_to_an_end() {
    let engine: Engine<Evaluator> = Engine::new().load(fewest_holes);
    let (engine, score) = engine.play_game();
    assert!(score.unwrap() >= 0);
    assert_eq!(engine.position().board, empty());
}
