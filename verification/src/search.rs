//! The search: every candidate placement is tried, the state that follows is
//! scored by an evaluator, and the best placement is picked.

use vstd::prelude::*;
use crate::board::{is_board, line_score, BOARD_HEIGHT};
use crate::pos::{Features, Position};
use crate::stats::{aggregate_height, bumpiness, holes};

verus! {

/// What trying one placement gives: the statistics of the state that
/// follows, or `None` where the placement ends the game.
pub open spec fn outcome(position: Position, m: (usize, usize, bool)) -> Option<Features> {
    if position.survives(m.0, m.1, m.2) {
        let g = position.settled(m.0, m.1, m.2);
        Some(
            Features {
                holes: holes(g) as usize,
                bumpiness: bumpiness(g) as usize,
                aggregate_height: aggregate_height(g) as usize,
                completed_lines: (position.lines + position.rows_cleared(m.0, m.1, m.2)) as usize,
            },
        )
    } else {
        None
    }
}

/// The outcomes of the candidate placements, in the order in which they are
/// listed.
pub open spec fn outcomes(position: Position) -> Seq<Option<Features>> {
    Seq::new(position.legal_moves().len(), |i: int| outcome(position, position.legal_moves()[i]))
}

/// The counters of the state have room for what any candidate placement adds
/// to them.
pub open spec fn counters_fit(position: Position) -> bool {
    forall|i: int|
        0 <= i < position.legal_moves().len() ==> {
            let m = #[trigger] position.legal_moves()[i];
            &&& position.lines + position.rows_cleared(m.0, m.1, m.2) <= usize::MAX
            &&& position.score + line_score(position.rows_cleared(m.0, m.1, m.2)) <= i64::MAX
        }
}

/// A state from which the search can try every candidate placement: it is
/// well formed, its queue holds a piece, and its counters have room.
pub open spec fn searchable(position: Position) -> bool {
    &&& position.well_formed()
    &&& position.next_pieces@.len() >= 1
    &&& counters_fit(position)
}

/// Tries every candidate placement, with a piece drawn for each piece taken
/// from the queue, and returns the outcomes in the order of the candidates.
pub fn try_moves(position: &Position) -> (tried: (Vec<(usize, usize, bool)>, Vec<Option<Features>>))
    requires
        searchable(*position),
    ensures
        tried.0@ == position.legal_moves(),
        tried.1@ == outcomes(*position),
{
    let moves = position.gen_legal_moves();
    let mut found: Vec<Option<Features>> = Vec::new();
    let mut i: usize = 0;
    while i < moves.len()
        invariant
            i <= moves.len(),
            searchable(*position),
            moves@ == position.legal_moves(),
            found.len() == i,
            forall|k: int| 0 <= k < i ==> #[trigger] found[k] == outcome(*position, moves[k]),
        decreases moves.len() - i,
    {
        let m = moves[i];
        proof {
            position.lemma_legal_moves_can_place(i as int);
            assert(m == position.legal_moves()[i as int]);
        }
        let next = position.apply_move(m.0, m.1, m.2, true);
        let result = match next {
            Some(after) => Some(after.features()),
            None => None,
        };
        found.push(result);
        i += 1;
    }
    assert(found@ =~= outcomes(*position));
    (moves, found)
}

/// The evaluator accepts every statistics value.
pub open spec fn accepts_all<F: Fn(&Features) -> i64>(evaluator: F) -> bool {
    forall|f: Features| call_requires(evaluator, (&f,))
}

/// `scores` is what the evaluator gave for the outcomes: a score for each
/// state that follows a placement, in the same place, and `None` where the
/// placement ends the game.
pub open spec fn scored<F: Fn(&Features) -> i64>(
    evaluator: F,
    found: Seq<Option<Features>>,
    scores: Seq<Option<i64>>,
) -> bool {
    &&& scores.len() == found.len()
    &&& forall|i: int|
        0 <= i < found.len() ==> match #[trigger] found[i] {
            Some(f) => scores[i] is Some && call_ensures(evaluator, (&f,), scores[i]->0),
            None => scores[i] is None,
        }
}

/// Asks the evaluator for the score of each outcome.
pub fn score_outcomes<F: Fn(&Features) -> i64>(evaluator: &F, found: &Vec<Option<Features>>) -> (scores:
    Vec<Option<i64>>)
    requires
        accepts_all(*evaluator),
    ensures
        scored(*evaluator, found@, scores@),
{
    let mut scores: Vec<Option<i64>> = Vec::new();
    let mut i: usize = 0;
    while i < found.len()
        invariant
            i <= found.len(),
            accepts_all(*evaluator),
            scores.len() == i,
            forall|k: int|
                0 <= k < i ==> match #[trigger] found@[k] {
                    Some(f) => scores@[k] is Some && call_ensures(*evaluator, (&f,), scores@[k]->0),
                    None => scores@[k] is None,
                },
        decreases found.len() - i,
    {
        let score = match &found[i] {
            Some(features) => Some(evaluator(features)),
            None => None,
        };
        scores.push(score);
        i += 1;
    }
    scores
}

/// `i` is the place of the best score: no score is higher, and every score
/// before it is lower.
pub open spec fn is_first_best(scores: Seq<Option<i64>>, i: int) -> bool {
    &&& 0 <= i < scores.len()
    &&& scores[i] is Some
    &&& forall|j: int|
        0 <= j < scores.len() && (#[trigger] scores[j]) is Some ==> {
            &&& scores[j]->0 <= scores[i]->0
            &&& j < i ==> scores[j]->0 < scores[i]->0
        }
}

/// Finds the place of the highest score; of equal scores the first wins.
/// Returns `None` where there is no score at all.
pub fn select_best(scores: &Vec<Option<i64>>) -> (best: Option<usize>)
    ensures
        match best {
            Some(i) => is_first_best(scores@, i as int),
            None => forall|j: int| 0 <= j < scores.len() ==> (#[trigger] scores[j]) is None,
        },
{
    let mut best: Option<usize> = None;
    let mut high: i64 = 0;
    let mut i: usize = 0;
    while i < scores.len()
        invariant
            i <= scores.len(),
            match best {
                Some(b) => {
                    &&& b < i
                    &&& scores[b as int] == Some(high)
                    &&& forall|j: int|
                        0 <= j < i && (#[trigger] scores[j]) is Some ==> {
                            &&& scores[j]->0 <= high
                            &&& j < b ==> scores[j]->0 < high
                        }
                },
                None => forall|j: int| 0 <= j < i ==> (#[trigger] scores[j]) is None,
            },
        decreases scores.len() - i,
    {
        if let Some(score) = scores[i] {
            if best.is_none() || score > high {
                best = Some(i);
                high = score;
            }
        }
        i += 1;
    }
    best
}

/// `choice` is the candidate placement with the best score, the first of
/// them where several share it, or `None` where nothing was scored.
pub open spec fn is_choice(
    position: Position,
    scores: Seq<Option<i64>>,
    choice: Option<(usize, usize, bool)>,
) -> bool {
    match choice {
        Some(m) => exists|i: int| is_first_best(scores, i) && position.legal_moves()[i] == m,
        None => forall|j: int| 0 <= j < scores.len() ==> (#[trigger] scores[j]) is None,
    }
}

/// `choice` is what the search may return for the state: for some scores that
/// the evaluator can give for the outcomes of the candidate placements, it
/// is the placement with the best score.
pub open spec fn is_best_move<F: Fn(&Features) -> i64>(
    evaluator: F,
    position: Position,
    choice: Option<(usize, usize, bool)>,
) -> bool {
    exists|scores: Seq<Option<i64>>|
        #[trigger] scored(evaluator, outcomes(position), scores) && is_choice(position, scores, choice)
}

/// Some candidate placement does not end the game.
pub open spec fn has_survivor(position: Position) -> bool {
    exists|i: int|
        0 <= i < position.legal_moves().len() && position.survives(
            (#[trigger] position.legal_moves()[i]).0,
            position.legal_moves()[i].1,
            position.legal_moves()[i].2,
        )
}

/// Picks the placement to make: every candidate is tried, the states that
/// follow are scored by the evaluator, and the candidate with the highest
/// score is returned; of equal scores the one listed first wins. Candidates
/// that end the game are not scored. Returns `None` where every candidate
/// ends the game.
pub fn best_move<F: Fn(&Features) -> i64>(evaluator: &F, position: &Position) -> (choice: Option<
    (usize, usize, bool),
>)
    requires
        searchable(*position),
        accepts_all(*evaluator),
    ensures
        is_best_move(*evaluator, *position, choice),
        choice is Some <==> has_survivor(*position),
        choice matches Some(m) ==> {
            &&& position.legal_moves().contains(m)
            &&& position.can_place(m.0, m.1, m.2)
            &&& position.survives(m.0, m.1, m.2)
        },
{
    let tried = try_moves(position);
    let scores = score_outcomes(evaluator, &tried.1);
    let best = select_best(&scores);
    let ghost found = outcomes(*position);
    match best {
        Some(i) => {
            let m = tried.0[i];
            proof {
                assert(found[i as int] is Some);
                assert(m == position.legal_moves()[i as int]);
                position.lemma_legal_moves_can_place(i as int);
                assert(is_choice(*position, scores@, Some(m)));
            }
            Some(m)
        },
        None => {
            proof {
                assert(is_choice(*position, scores@, None));
                assert forall|i: int| 0 <= i < position.legal_moves().len() implies !position.survives(
                    (#[trigger] position.legal_moves()[i]).0,
                    position.legal_moves()[i].1,
                    position.legal_moves()[i].2,
                ) by {
                    assert(scores@[i] is None);
                    assert(found[i] is None);
                }
            }
            None
        },
    }
}

/// The evaluator gives one score for each statistics value.
pub open spec fn is_function<F: Fn(&Features) -> i64>(evaluator: F) -> bool {
    forall|f: Features, a: i64, b: i64|
        call_ensures(evaluator, (&f,), a) && call_ensures(evaluator, (&f,), b) ==> a == b
}

/// The search is deterministic: with an evaluator that gives one score for
/// each statistics value, whatever the search may return for a state is the
/// same placement.
pub proof fn lemma_best_move_deterministic<F: Fn(&Features) -> i64>(
    evaluator: F,
    position: Position,
    first: Option<(usize, usize, bool)>,
    second: Option<(usize, usize, bool)>,
)
    requires
        is_function(evaluator),
        is_best_move(evaluator, position, first),
        is_best_move(evaluator, position, second),
    ensures
        first == second,
{
    let found = outcomes(position);
    let a = choose|scores: Seq<Option<i64>>|
        #[trigger] scored(evaluator, found, scores) && is_choice(position, scores, first);
    let b = choose|scores: Seq<Option<i64>>|
        #[trigger] scored(evaluator, found, scores) && is_choice(position, scores, second);
    assert forall|i: int| 0 <= i < found.len() implies a[i] == b[i] by {
        match found[i] {
            Some(f) => {
                assert(call_ensures(evaluator, (&f,), a[i]->0));
                assert(call_ensures(evaluator, (&f,), b[i]->0));
            },
            None => {},
        }
    }
    assert(a =~= b);
    match (first, second) {
        (Some(m), Some(n)) => {
            let i = choose|i: int| is_first_best(a, i) && position.legal_moves()[i] == m;
            let j = choose|j: int| is_first_best(a, j) && position.legal_moves()[j] == n;
            if i < j {
                assert(a[i] is Some);
            } else if j < i {
                assert(a[j] is Some);
            }
        },
        (Some(m), None) => {
            let i = choose|i: int| is_first_best(a, i) && position.legal_moves()[i] == m;
            assert(a[i] is Some);
        },
        (None, Some(n)) => {
            let j = choose|j: int| is_first_best(a, j) && position.legal_moves()[j] == n;
            assert(a[j] is Some);
        },
        (None, None) => {},
    }
}

/// The counters of the state have room for the most that a placement can
/// add to them.
pub open spec fn has_headroom(position: Position) -> bool {
    &&& position.lines + BOARD_HEIGHT <= usize::MAX
    &&& position.score + 1200 <= i64::MAX
}

/// Counters with room for the most that a placement can add have room for
/// what any candidate placement adds.
pub proof fn lemma_headroom_fits(position: Position)
    requires
        is_board(position.grid()),
        has_headroom(position),
    ensures
        counters_fit(position),
{
    assert forall|i: int| 0 <= i < position.legal_moves().len() implies {
        let m = #[trigger] position.legal_moves()[i];
        &&& position.lines + position.rows_cleared(m.0, m.1, m.2) <= usize::MAX
        &&& position.score + line_score(position.rows_cleared(m.0, m.1, m.2)) <= i64::MAX
    } by {
        let m = position.legal_moves()[i];
        position.lemma_placement_never_overwrites(m.0, m.1, m.2);
    }
}

/// Whether the counters of the state have room for the most that a
/// placement can add to them.
pub fn can_go_on(position: &Position) -> (ok: bool)
    ensures
        ok == has_headroom(*position),
{
    position.lines <= usize::MAX - BOARD_HEIGHT && position.score <= i64::MAX - 1200
}

/// A turn can be played from the state: its queue holds the piece that falls
/// next, and its counters have room for the most that a placement can add.
pub open spec fn can_play(position: Position) -> bool {
    &&& position.next_pieces@.len() >= 1
    &&& has_headroom(position)
}

/// One turn of a game that the search plays: a turn can be played from
/// `before`, and `after` follows `before` by a placement that the search may
/// return for `before`, made with a piece drawn for each piece taken from the
/// queue.
pub open spec fn is_turn<F: Fn(&Features) -> i64>(evaluator: F, before: Position, after: Position) -> bool {
    &&& can_play(before)
    &&& exists|m: (usize, usize, bool)|
        #[trigger] is_best_move(evaluator, before, Some(m)) && before.leads_to(
            m.0,
            m.1,
            m.2,
            true,
            after,
        )
}

/// The turn from `states[k]` to `states[k + 1]` is one that the search
/// plays.
pub open spec fn turn_at<F: Fn(&Features) -> i64>(evaluator: F, states: Seq<Position>, k: int) -> bool {
    is_turn(evaluator, states[k], states[k + 1])
}

/// `states` are the states of a game that the search plays from `first` to
/// `last`, turn by turn.
pub open spec fn is_game<F: Fn(&Features) -> i64>(
    evaluator: F,
    first: Position,
    last: Position,
    states: Seq<Position>,
) -> bool {
    &&& states.len() >= 1
    &&& states[0] == first
    &&& states[states.len() - 1] == last
    &&& forall|k: int| 0 <= k < states.len() - 1 ==> #[trigger] turn_at(evaluator, states, k)
}

/// Plays on from the state until the game is over: as long as some candidate
/// placement does not end the game, the placement that the search picks is
/// made, with a piece drawn for each piece taken from the queue. Returns the
/// last state reached. The game also stops where no turn can be played: where
/// the queue of a state holds no piece to fall next, or its counters have no
/// room left for what a placement can add.
pub fn play_to_completion<F: Fn(&Features) -> i64>(evaluator: &F, position: Position) -> (last:
    Position)
    requires
        position.well_formed(),
        accepts_all(*evaluator),
    ensures
        last.well_formed(),
        !can_play(last) || !has_survivor(last),
        exists|states: Seq<Position>| is_game(*evaluator, position, last, states),
{
    let mut current = position;
    let ghost mut states: Seq<Position> = seq![position];
    loop
        invariant
            current.well_formed(),
            accepts_all(*evaluator),
            is_game(*evaluator, position, current, states),
        decreases usize::MAX - current.lines, current.free_cells(),
    {
        if current.next_pieces.len() == 0 || !can_go_on(&current) {
            return current;
        }
        proof {
            lemma_headroom_fits(current);
        }
        let choice = best_move(evaluator, &current);
        match choice {
            None => {
                return current;
            },
            Some(m) => {
                let next = current.apply_move(m.0, m.1, m.2, true);
                match next {
                    None => {
                        return current;
                    },
                    Some(after) => {
                        proof {
                            current.lemma_placement_never_overwrites(m.0, m.1, m.2);
                            if current.rows_cleared(m.0, m.1, m.2) == 0 {
                                current.lemma_quiet_move_fills(m.0, m.1, m.2);
                            }
                            let longer = states.push(after);
                            assert(is_turn(*evaluator, current, after));
                            assert forall|k: int| 0 <= k < longer.len() - 1 implies #[trigger] turn_at(
                                *evaluator,
                                longer,
                                k,
                            ) by {
                                if k < states.len() - 1 {
                                    assert(turn_at(*evaluator, states, k));
                                    assert(longer[k] == states[k]);
                                    assert(longer[k + 1] == states[k + 1]);
                                } else {
                                    assert(longer[k] == current);
                                    assert(longer[k + 1] == after);
                                }
                            }
                            assert(is_game(*evaluator, position, after, longer));
                            states = longer;
                        }
                        current = after;
                    },
                }
            },
        }
    }
}

} // verus!
