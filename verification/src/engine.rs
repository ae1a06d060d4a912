//! The engine that a driver talks to: it holds the state of the game and the
//! evaluator, once one is loaded, and answers the driver's requests.

use vstd::prelude::*;
use crate::pos::{Features, Position};
use crate::search::{
    accepts_all, best_move, can_go_on, can_play, has_headroom, has_survivor, is_best_move,
    is_game, lemma_headroom_fits, play_to_completion,
};

verus! {

/// How a request for one turn ended.
#[derive(Clone, Copy, Debug, PartialEq, Eq)]
pub enum Turn {
    /// No evaluator is loaded; nothing was decided.
    NotReady,
    /// The queue of the state holds no piece to fall next; no placement can
    /// be made.
    QueueEmpty,
    /// The counters of the state have no room for another placement.
    CountersFull,
    /// Every candidate placement ends the game; the state was left as it was.
    GameOver,
    /// The placement `(column, rotation, swap)` was picked and made.
    Played((usize, usize, bool)),
}

/// The state of the game together with the evaluator that scores it, if one
/// is loaded. The state that an engine holds is always well formed.
pub struct Engine<F: Fn(&Features) -> i64> {
    evaluator: Option<F>,
    position: Position,
}

impl<F: Fn(&Features) -> i64> Engine<F> {
    #[verifier::type_invariant]
    spec fn holds(&self) -> bool {
        &&& self.position.well_formed()
        &&& self.evaluator matches Some(evaluator) ==> accepts_all(evaluator)
    }

    /// The state of the game that the engine holds.
    pub closed spec fn state(&self) -> Position {
        self.position
    }

    /// The evaluator that the engine holds, if one is loaded.
    pub closed spec fn loaded(&self) -> Option<F> {
        self.evaluator
    }

    /// An engine at the start of a game, with no evaluator loaded.
    pub fn new() -> (engine: Self)
        ensures
            engine.loaded() is None,
            engine.state().is_fresh(),
    {
        Engine { evaluator: None, position: Position::default() }
    }

    /// Whether an evaluator is loaded.
    pub fn is_ready(&self) -> (ready: bool)
        ensures
            ready == self.loaded() is Some,
    {
        self.evaluator.is_some()
    }

    /// The state of the game.
    pub fn position(&self) -> (position: &Position)
        ensures
            *position == self.state(),
            position.well_formed(),
    {
        proof {
            use_type_invariant(self);
        }
        &self.position
    }

    /// Loads an evaluator in place of the one that was loaded, if any. The
    /// state of the game stays.
    pub fn load(self, evaluator: F) -> (engine: Self)
        requires
            accepts_all(evaluator),
        ensures
            engine.loaded() == Some(evaluator),
            engine.state() == self.state(),
    {
        proof {
            use_type_invariant(&self);
        }
        Engine { evaluator: Some(evaluator), position: self.position }
    }

    /// Takes over a state from outside, as it is, in place of the state held
    /// so far. A state that is not well formed is turned away: the engine is
    /// then returned as it was, with `false`.
    pub fn inject(self, position: Position) -> (out: (Self, bool))
        ensures
            out.1 == position.well_formed(),
            out.0.loaded() == self.loaded(),
            out.0.state() == if out.1 {
                position
            } else {
                self.state()
            },
    {
        proof {
            use_type_invariant(&self);
        }
        if position.is_well_formed() {
            (Engine { evaluator: self.evaluator, position }, true)
        } else {
            (self, false)
        }
    }

    /// Plays one turn: the placement that the search picks is made, with a
    /// piece drawn for each piece taken from the queue. Without an evaluator,
    /// without a piece in the queue, without room in the counters, or where
    /// every candidate placement ends the game, the engine is returned as it
    /// was, and the result says which of these it was, the first that holds.
    pub fn go(self) -> (out: (Self, Turn))
        ensures
            out.0.loaded() == self.loaded(),
            match out.1 {
                Turn::NotReady => self.loaded() is None && out.0.state() == self.state(),
                Turn::QueueEmpty => {
                    &&& self.loaded() is Some
                    &&& self.state().next_pieces@.len() == 0
                    &&& out.0.state() == self.state()
                },
                Turn::CountersFull => {
                    &&& self.loaded() is Some
                    &&& self.state().next_pieces@.len() >= 1
                    &&& !has_headroom(self.state())
                    &&& out.0.state() == self.state()
                },
                Turn::GameOver => {
                    &&& self.loaded() is Some
                    &&& can_play(self.state())
                    &&& !has_survivor(self.state())
                    &&& out.0.state() == self.state()
                },
                Turn::Played(m) => {
                    &&& self.loaded() is Some
                    &&& can_play(self.state())
                    &&& has_survivor(self.state())
                    &&& is_best_move(self.loaded()->0, self.state(), Some(m))
                    &&& self.state().leads_to(m.0, m.1, m.2, true, out.0.state())
                },
            },
    {
        proof {
            use_type_invariant(&self);
        }
        let choice = match &self.evaluator {
            None => {
                return (self, Turn::NotReady);
            },
            Some(evaluator) => {
                if self.position.next_pieces.len() == 0 {
                    return (self, Turn::QueueEmpty);
                }
                if !can_go_on(&self.position) {
                    return (self, Turn::CountersFull);
                }
                proof {
                    lemma_headroom_fits(self.position);
                }
                best_move(evaluator, &self.position)
            },
        };
        match choice {
            None => (self, Turn::GameOver),
            Some(m) => {
                match self.position.apply_move(m.0, m.1, m.2, true) {
                    None => (self, Turn::GameOver),
                    Some(after) => (Engine { evaluator: self.evaluator, position: after }, Turn::Played(m)),
                }
            },
        }
    }

    /// Plays the game to its end and starts a new one: returns the score of
    /// the last state reached, and the engine at the start of a game. A state
    /// from which no turn can be played is itself the last state. Without an
    /// evaluator nothing is played: the engine is returned as it was, with
    /// `None`.
    pub fn play_game(self) -> (out: (Self, Option<i64>))
        ensures
            out.0.loaded() == self.loaded(),
            out.1 is Some <==> self.loaded() is Some,
            out.1 is None ==> out.0.state() == self.state(),
            out.1 matches Some(score) ==> {
                &&& exists|last: Position, states: Seq<Position>|
                    #[trigger] is_game(self.loaded()->0, self.state(), last, states) && last.score
                        == score && (!can_play(last) || !has_survivor(last))
                &&& out.0.state().is_fresh()
            },
    {
        proof {
            use_type_invariant(&self);
        }
        let Engine { evaluator, position } = self;
        match evaluator {
            None => (Engine { evaluator: None, position }, None),
            Some(evaluator) => {
                let last = play_to_completion(&evaluator, position);
                let score: i64 = last.score;
                (Engine { evaluator: Some(evaluator), position: Position::default() }, Some(score))
            },
        }
    }
}

} // verus!
