use tetris_engine::bag::{draw, fresh_cycle, is_valid_bag, take_last};

fn sorted(mut v: Vec<usize>) -> Vec<usize> {
    v.sort();
    v
}

#[test]
fn fresh_cycle_holds_each_piece_once() {
    for _ in 0..50 {
        assert_eq!(sorted(fresh_cycle()), vec![1, 2, 3, 4, 5, 6, 7]);
    }
}

#[test]
fn fresh_cycle_comes_in_more_than_one_order() {
    let first = fresh_cycle();
    let mut differs = false;
    for _ in 0..200 {
        if fresh_cycle() != first {
            differs = true;
        }
    }
    assert!(differs);
}

#[test]
fn fresh_cycle_is_not_always_in_ascending_order() {
    let mut shuffled = false;
    for _ in 0..200 {
        if fresh_cycle() != vec![1, 2, 3, 4, 5, 6, 7] {
            shuffled = true;
        }
    }
    assert!(shuffled);
}

#[test]
fn take_last_gives_the_last_item_and_the_rest() {
    assert_eq!(take_last(vec![3, 1, 4]), (4, vec![3, 1]));
    assert_eq!(take_last(vec![7]), (7, vec![]));
}

#[test]
fn draw_from_a_bag_with_items_takes_the_last() {
    let bag = vec![2, 5, 3];
    assert_eq!(draw(&bag), (3, vec![2, 5]));
    assert_eq!(bag, vec![2, 5, 3]);
}

#[test]
fn draw_from_an_empty_bag_starts_a_cycle() {
    let (piece, rest) = draw(&Vec::new());
    assert_eq!(rest.len(), 6);
    let mut all = rest.clone();
    all.push(piece);
    assert_eq!(sorted(all), vec![1, 2, 3, 4, 5, 6, 7]);
}

#[test]
fn seven_draws_give_each_piece_once_and_the_eighth_starts_anew() {
    for _ in 0..20 {
        let mut bag: Vec<usize> = Vec::new();
        let mut drawn = Vec::new();
        for _ in 0..7 {
            let (piece, rest) = draw(&bag);
            drawn.push(piece);
            bag = rest;
        }
        assert_eq!(sorted(drawn), vec![1, 2, 3, 4, 5, 6, 7]);
        assert!(bag.is_empty());
        let (piece, rest) = draw(&bag);
        assert!((1..=7).contains(&piece));
        assert_eq!(rest.len(), 6);
        assert!(!rest.contains(&piece));
    }
}

#[test]
fn seven_draws_from_a_full_bag_take_it_from_the_back() {
    let mut bag = vec![4, 2, 7, 1, 6, 3, 5];
    let mut drawn = Vec::new();
    for _ in 0..7 {
        let (piece, rest) = draw(&bag);
        drawn.push(piece);
        bag = rest;
    }
    assert_eq!(drawn, vec![5, 3, 6, 1, 7, 2, 4]);
    assert!(bag.is_empty());
}

#[test]
fn valid_bag_has_piece_identifiers_without_repeats() {
    assert!(is_valid_bag(&vec![]));
    assert!(is_valid_bag(&vec![1, 7, 3]));
    assert!(is_valid_bag(&vec![1, 2, 3, 4, 5, 6, 7]));
    assert!(!is_valid_bag(&vec![0]));
    assert!(!is_valid_bag(&vec![8]));
    assert!(!is_valid_bag(&vec![2, 5, 2]));
    assert!(!is_valid_bag(&vec![1, 2, 3, 4, 5, 6, 7, 1]));
}
