//! The game state and what a placement does to it.

use vstd::prelude::*;
use vstd::seq_lib::lemma_no_dup_in_concat;
use std::collections::VecDeque;
use crate::bag::{
    draw, draw_step, draws, fresh_cycle, is_bag, is_valid_bag, lemma_bag_drop_last,
    lemma_draw_step_keeps_bag, lemma_draws_join, lemma_draws_none, lemma_full_cycle, take_last,
};
use crate::board::{
    blank_board, clear_full_rows, cleared, codes_ok, covers, empty_cells, empty_rows,
    find_landing_row, full_rows, has_clear_top, is_board, is_valid_board, landing_row,
    lemma_cleared_codes, lemma_cleared_is_board, lemma_landing_row_exists,
    lemma_nothing_to_clear, lemma_quiet_drop_fills, lemma_stamp_changes_covered,
    lemma_stamp_fills_few_rows, lemma_stamp_never_overwrites, lemma_stamped_codes,
    lemma_surviving_drop_counts, lies_free, line_score, stamp, stamped, top_rows_clear,
    BOARD_HEIGHT, BOARD_WIDTH,
};
use crate::pieces::{
    filled_cells, grid_of, is_piece, lemma_four_cells, lemma_shape_dims,
    lemma_shape_no_empty_line, shape, shape_of, shape_width,
};
use crate::stats::{aggregate_height, board_statistics, bumpiness, holes};

verus! {

/// The four statistics of a state that an evaluator scores.
#[derive(Clone, Copy, Debug, PartialEq, Eq)]
pub struct Features {
    /// Buried empty cells of the board.
    pub holes: usize,
    /// Sum of the gaps between the fill counts of neighbouring columns.
    pub bumpiness: usize,
    /// Sum of the heights of the occupied cells.
    pub aggregate_height: usize,
    /// Rows cleared since the game began.
    pub completed_lines: usize,
}

/// A state of the game. It is handled as a value: a placement gives a new
/// state and leaves the one it started from as it was.
#[derive(Clone, Debug)]
pub struct Position {
    /// Points scored so far.
    pub score: i64,
    /// Identifier of the piece that falls next.
    pub current_piece: usize,
    /// The pieces that follow it, the next one first.
    pub next_pieces: VecDeque<usize>,
    /// The held piece, if one has been put aside.
    pub pocket: Option<usize>,
    /// What is left to draw of the cycle of seven pieces in progress.
    pub bag: Vec<usize>,
    /// Rows cleared so far.
    pub lines: usize,
    /// The grid, row by row from the top; 0 is an empty cell.
    pub board: Vec<Vec<u8>>,
}

impl Position {
    /// The board as rows of cell codes.
    pub open spec fn grid(&self) -> Seq<Seq<u8>> {
        grid_of(self.board)
    }

    /// What holds of every state of a game: the board has its dimensions and
    /// holds codes from 0 to 7, the pieces in play are piece identifiers,
    /// and the bag holds piece identifiers, none twice.
    pub open spec fn well_formed(&self) -> bool {
        &&& is_board(self.grid())
        &&& codes_ok(self.grid())
        &&& is_piece(self.current_piece as int)
        &&& self.pocket matches Some(held) ==> is_piece(held as int)
        &&& forall|i: int|
            0 <= i < self.next_pieces@.len() ==> is_piece(#[trigger] self.next_pieces@[i] as int)
        &&& is_bag(self.bag@)
    }

    /// Whether the state is well formed.
    pub fn is_well_formed(&self) -> (ok: bool)
        ensures
            ok == self.well_formed(),
    {
        if !is_valid_board(&self.board) {
            return false;
        }
        if self.current_piece < 1 || self.current_piece > 7 {
            return false;
        }
        if let Some(held) = self.pocket {
            if held < 1 || held > 7 {
                return false;
            }
        }
        let mut i: usize = 0;
        while i < self.next_pieces.len()
            invariant
                i <= self.next_pieces@.len(),
                forall|a: int| 0 <= a < i ==> is_piece(#[trigger] self.next_pieces@[a] as int),
            decreases self.next_pieces@.len() - i,
        {
            let piece: usize = self.next_pieces[i];
            if piece < 1 || piece > 7 {
                return false;
            }
            i += 1;
        }
        is_valid_bag(&self.bag)
    }

    /// The pieces in play from the one that falls next on: the current piece
    /// and the queue behind it.
    pub open spec fn upcoming(&self) -> Seq<usize> {
        seq![self.current_piece] + self.next_pieces@
    }

    /// A state at the start of a game: an empty board, no score, nothing
    /// held, and five pieces in play that are the first draws from an empty
    /// bag, the current piece first and four more for the queue.
    pub open spec fn is_fresh(&self) -> bool {
        &&& self.grid() == empty_rows(BOARD_HEIGHT as int)
        &&& self.score == 0
        &&& self.lines == 0
        &&& self.pocket is None
        &&& self.next_pieces@.len() == 4
        &&& draws(Seq::empty(), self.upcoming(), self.bag@)
    }

    /// A state made of the given parts, taken as they are.
    pub fn new(
        current_piece: usize,
        next_pieces: VecDeque<usize>,
        lines: usize,
        score: i64,
        board: Vec<Vec<u8>>,
        bag: Vec<usize>,
        pocket: Option<usize>,
    ) -> (position: Self)
        ensures
            position.current_piece == current_piece,
            position.next_pieces == next_pieces,
            position.lines == lines,
            position.score == score,
            position.board == board,
            position.bag == bag,
            position.pocket == pocket,
    {
        Position { current_piece, next_pieces, lines, bag, score, board, pocket }
    }

    /// The statistics of the state: those of its board, and the rows cleared
    /// so far.
    pub fn features(&self) -> (features: Features)
        requires
            is_board(self.grid()),
        ensures
            features.holes == holes(self.grid()),
            features.bumpiness == bumpiness(self.grid()),
            features.aggregate_height == aggregate_height(self.grid()),
            features.completed_lines == self.lines,
    {
        let statistics = board_statistics(&self.board);
        Features {
            holes: statistics.0,
            bumpiness: statistics.1,
            aggregate_height: statistics.2,
            completed_lines: self.lines,
        }
    }

    /// The hash of the board, for tables of states. The cells of the board
    /// are given no keys, so every board has the hash 0.
    pub fn get_hash(&self) -> (hash: u64)
        ensures
            hash == 0,
    {
        0
    }

    /// Draws one piece from the state's bag: returns it with the bag that is
    /// left. The state itself is not changed.
    pub fn random_piece(&self) -> (drawn: (usize, Vec<usize>))
        ensures
            draw_step(self.bag@, drawn.0, drawn.1@),
    {
        draw(&self.bag)
    }
}

impl Position {
    /// The piece that a placement with `swap` would bring in: the held
    /// piece, or with nothing held the piece at the front of the queue, if
    /// there is one.
    pub open spec fn swap_target(&self) -> Option<usize> {
        if self.pocket is Some {
            self.pocket
        } else if self.next_pieces@.len() > 0 {
            Some(self.next_pieces@[0])
        } else {
            None
        }
    }

    /// The placements of one piece in one rotation state: every column at
    /// which its matrix lies inside the board's width, from the left.
    pub open spec fn column_moves(piece: usize, rotation: int, swap: bool) -> Seq<
        (usize, usize, bool),
    > {
        Seq::new(
            (BOARD_WIDTH + 1 - shape_width(piece as int, rotation)) as nat,
            |x: int| (x as usize, rotation as usize, swap),
        )
    }

    /// The placements in one rotation state: those of the current piece,
    /// then those of the piece that `swap` would bring in, if there is one.
    pub open spec fn rotation_moves(&self, rotation: int) -> Seq<(usize, usize, bool)> {
        Self::column_moves(self.current_piece, rotation, false) + match self.swap_target() {
            Some(target) => Self::column_moves(target, rotation, true),
            None => Seq::empty(),
        }
    }

    /// The placements in the rotation states before `n`, in order.
    pub open spec fn moves_before(&self, n: int) -> Seq<(usize, usize, bool)>
        decreases n,
    {
        if n <= 0 {
            Seq::empty()
        } else {
            self.moves_before(n - 1) + self.rotation_moves(n - 1)
        }
    }

    /// Every candidate placement `(column, rotation, swap)`, rotation state
    /// by rotation state. Rotation states that look alike are all listed.
    pub open spec fn legal_moves(&self) -> Seq<(usize, usize, bool)> {
        self.moves_before(4)
    }

    /// The placements of `piece` in rotation state `rotation` are added to
    /// `moves`.
    fn push_column_moves(moves: &mut Vec<(usize, usize, bool)>, piece: usize, rotation: usize, swap: bool)
        requires
            is_piece(piece as int),
            rotation < 4,
        ensures
            final(moves)@ == old(moves)@ + Self::column_moves(piece, rotation as int, swap),
    {
        proof {
            lemma_shape_dims(piece as int, rotation as int);
        }
        let matrix = shape(piece, rotation);
        assert(grid_of(matrix)[0].len() == shape_width(piece as int, rotation as int));
        let size_x: usize = matrix[0].len();
        let ghost start = moves@;
        let mut x: usize = 0;
        while x < (BOARD_WIDTH + 1) - size_x
            invariant
                x <= BOARD_WIDTH + 1 - size_x,
                1 <= size_x <= 4,
                size_x == shape_width(piece as int, rotation as int),
                moves@ == start + Seq::new(x as nat, |i: int| (i as usize, rotation, swap)),
            decreases BOARD_WIDTH + 1 - size_x - x,
        {
            moves.push((x, rotation, swap));
            x += 1;
        }
        assert(moves@ =~= start + Self::column_moves(piece, rotation as int, swap));
    }

    /// Lists every candidate placement `(column, rotation, swap)`: for each
    /// rotation state the columns of the current piece, then those of the
    /// piece that a swap would bring in.
    pub fn gen_legal_moves(&self) -> (moves: Vec<(usize, usize, bool)>)
        requires
            is_piece(self.current_piece as int),
            self.swap_target() matches Some(target) ==> is_piece(target as int),
        ensures
            moves@ == self.legal_moves(),
    {
        let mut legal_moves: Vec<(usize, usize, bool)> = Vec::new();
        let mut rotation: usize = 0;
        while rotation < 4
            invariant
                rotation <= 4,
                is_piece(self.current_piece as int),
                self.swap_target() matches Some(target) ==> is_piece(target as int),
                legal_moves@ == self.moves_before(rotation as int),
            decreases 4 - rotation,
        {
            let ghost before = legal_moves@;
            Self::push_column_moves(&mut legal_moves, self.current_piece, rotation, false);
            if let Some(pocket_index) = self.pocket {
                Self::push_column_moves(&mut legal_moves, pocket_index, rotation, true);
            } else if self.next_pieces.len() > 0 {
                let next_piece: usize = self.next_pieces[0];
                Self::push_column_moves(&mut legal_moves, next_piece, rotation, true);
            }
            assert(legal_moves@ =~= before + self.rotation_moves(rotation as int));
            rotation += 1;
        }
        legal_moves
    }
}

impl Position {
    /// The piece that a placement drops: the current piece, or with `swap`
    /// the held piece, or with `swap` and nothing held the piece at the
    /// front of the queue.
    pub open spec fn dropped_piece(&self, swap: bool) -> usize {
        if !swap {
            self.current_piece
        } else if let Some(held) = self.pocket {
            held
        } else {
            self.next_pieces@[0]
        }
    }

    /// How many pieces a placement takes from the front of the queue: one to
    /// fall next, and with `swap` and nothing held one more, the piece that
    /// is dropped.
    pub open spec fn pieces_taken(&self, swap: bool) -> int {
        if swap && self.pocket is None {
            2
        } else {
            1
        }
    }

    /// What is held after a placement: with `swap` the piece that was
    /// current, else what was held before.
    pub open spec fn pocket_after(&self, swap: bool) -> Option<usize> {
        if swap {
            Some(self.current_piece)
        } else {
            self.pocket
        }
    }

    /// The placement names a rotation state and a column at which the
    /// dropped piece lies inside the board's width, and with `swap` there is
    /// a piece to swap in.
    pub open spec fn can_place(&self, x: usize, rotation: usize, swap: bool) -> bool {
        &&& rotation < 4
        &&& x + shape_width(self.dropped_piece(swap) as int, rotation as int) <= BOARD_WIDTH
        &&& swap && self.pocket is None ==> self.next_pieces@.len() > 0
    }

    /// The queue, with the pieces drawn in this turn if any are, holds the
    /// pieces that the placement takes from it.
    pub open spec fn queue_serves(&self, swap: bool, gen_next_piece: bool) -> bool {
        &&& self.next_pieces@.len() >= 1
        &&& self.next_pieces@.len() + (if gen_next_piece {
            1int
        } else {
            0int
        }) >= self.pieces_taken(swap)
    }

    /// The cell matrix that a placement drops.
    pub open spec fn dropped_shape(&self, rotation: usize, swap: bool) -> Seq<Seq<u8>> {
        shape_of(self.dropped_piece(swap) as int, rotation as int)
    }

    /// The board with the dropped piece stamped on where it comes to rest,
    /// before full rows are cleared.
    pub open spec fn landed(&self, x: usize, rotation: usize, swap: bool) -> Seq<Seq<u8>> {
        let s = self.dropped_shape(rotation, swap);
        stamped(self.grid(), s, x as int, landing_row(self.grid(), s, x as int))
    }

    /// Number of rows that the placement clears.
    pub open spec fn rows_cleared(&self, x: usize, rotation: usize, swap: bool) -> int {
        full_rows(self.landed(x, rotation, swap))
    }

    /// The board after the placement and the clearing of full rows.
    pub open spec fn settled(&self, x: usize, rotation: usize, swap: bool) -> Seq<Seq<u8>> {
        cleared(self.landed(x, rotation, swap))
    }

    /// The placement does not end the game: after it the two top rows are
    /// empty.
    pub open spec fn survives(&self, x: usize, rotation: usize, swap: bool) -> bool {
        top_rows_clear(self.settled(x, rotation, swap))
    }

    /// How the pieces in play of `after` come from those of `self`.
    ///
    /// Without `gen_next_piece` the placement takes its pieces from the front
    /// of the queue, the last of them to fall next, and the bag stays.
    ///
    /// With `gen_next_piece` one piece is drawn for each piece taken, so the
    /// queue keeps its length. The pieces drawn are the last of the upcoming
    /// pieces of `after`; they follow the old queue, and the placement takes
    /// its pieces from the front of that stream. The bag is what the draws
    /// leave of it.
    pub open spec fn queue_advances(&self, swap: bool, gen_next_piece: bool, after: Position) -> bool {
        let taken = self.pieces_taken(swap);
        if gen_next_piece {
            let drawn = after.upcoming().skip(after.upcoming().len() - taken);
            &&& after.next_pieces@.len() == self.next_pieces@.len()
            &&& after.upcoming() == (self.next_pieces@ + drawn).skip(taken - 1)
            &&& draws(self.bag@, drawn, after.bag@)
        } else {
            &&& after.current_piece == self.next_pieces@[taken - 1]
            &&& after.next_pieces@ == self.next_pieces@.skip(taken)
            &&& after.bag@ == self.bag@
        }
    }

    /// `after` is a state that the placement gives: its board is the board
    /// after the placement and the clearing, with the two top rows empty;
    /// its counters have grown by the rows cleared and the points for them;
    /// its held piece and its pieces in play are those that the placement
    /// leaves; and it is well formed.
    pub open spec fn leads_to(
        &self,
        x: usize,
        rotation: usize,
        swap: bool,
        gen_next_piece: bool,
        after: Position,
    ) -> bool {
        &&& after.grid() == self.settled(x, rotation, swap)
        &&& top_rows_clear(after.grid())
        &&& after.lines == self.lines + self.rows_cleared(x, rotation, swap)
        &&& after.score == self.score + line_score(self.rows_cleared(x, rotation, swap))
        &&& after.pocket == self.pocket_after(swap)
        &&& self.queue_advances(swap, gen_next_piece, after)
        &&& after.well_formed()
    }

    /// Drops a piece at column `x` in rotation state `rotation` and returns
    /// the state that follows, or `None` where the placement ends the game.
    ///
    /// With `swap` the held piece is dropped and the current piece is held in
    /// its place; where nothing is held yet, the piece at the front of the
    /// queue is dropped instead. The queue then gives the piece that falls
    /// next. With `gen_next_piece` a piece is drawn from the bag and added
    /// to the end of the queue for each piece taken from it.
    ///
    /// The piece comes to rest at the first row from the top where it touches
    /// the floor or is blocked from below. It fills the empty cells that it
    /// covers. Full rows are cleared and counted, and the score grows by the
    /// points for that count. The game is over where a cell of the two top
    /// rows is occupied after that.
    pub fn apply_move(&self, x: usize, rotation: usize, swap: bool, gen_next_piece: bool) -> (next:
        Option<Position>)
        requires
            self.well_formed(),
            self.can_place(x, rotation, swap),
            self.queue_serves(swap, gen_next_piece),
            self.lines + self.rows_cleared(x, rotation, swap) <= usize::MAX,
            self.score + line_score(self.rows_cleared(x, rotation, swap)) <= i64::MAX,
        ensures
            next is Some <==> self.survives(x, rotation, swap),
            next matches Some(after) ==> self.leads_to(x, rotation, swap, gen_next_piece, after),
    {
        let ghost queue = self.next_pieces@;
        let ghost mut drawn: Seq<usize> = Seq::empty();
        let mut new_next_pieces = self.next_pieces.clone();
        assert(new_next_pieces@ =~= queue);
        let mut new_current_piece: usize = new_next_pieces.pop_front().unwrap();
        let mut new_bag = self.bag.clone();
        assert(new_bag@ =~= self.bag@);
        let mut new_pocket = self.pocket;
        proof {
            lemma_draws_none(self.bag@);
        }
        if gen_next_piece {
            let pick = draw(&new_bag);
            new_next_pieces.push_back(pick.0);
            proof {
                lemma_draws_none(pick.1@);
                lemma_draws_join(self.bag@, pick.0, pick.1@, Seq::empty(), pick.1@);
                drawn = seq![pick.0];
                assert(seq![pick.0] + Seq::<usize>::empty() =~= drawn);
                lemma_draw_step_keeps_bag(self.bag@, pick.0, pick.1@);
            }
            new_bag = pick.1;
        }
        let ghost first_bag = new_bag@;
        let ghost first_drawn = drawn;
        assert(new_next_pieces@ =~= (queue + drawn).skip(1));
        let piece_id: usize = if !swap {
            self.current_piece
        } else if let Some(held) = self.pocket {
            new_pocket = Some(self.current_piece);
            held
        } else {
            new_pocket = Some(self.current_piece);
            let front: usize = new_current_piece;
            new_current_piece = new_next_pieces.pop_front().unwrap();
            if gen_next_piece {
                let pick = draw(&new_bag);
                new_next_pieces.push_back(pick.0);
                proof {
                    lemma_draws_none(pick.1@);
                    lemma_draws_join(first_bag, pick.0, pick.1@, Seq::empty(), pick.1@);
                    assert(seq![pick.0] + Seq::<usize>::empty() =~= seq![pick.0]);
                    lemma_draws_join(self.bag@, first_drawn[0], first_bag, seq![pick.0], pick.1@);
                    drawn = seq![first_drawn[0], pick.0];
                    assert(seq![first_drawn[0]] + seq![pick.0] =~= drawn);
                    lemma_draw_step_keeps_bag(first_bag, pick.0, pick.1@);
                }
                new_bag = pick.1;
            }
            front
        };
        let ghost taken = self.pieces_taken(swap);
        assert(piece_id == self.dropped_piece(swap));
        assert(new_next_pieces@ =~= (queue + drawn).skip(taken));
        assert(new_current_piece == (queue + drawn)[taken - 1]);
        let ghost tail = seq![new_current_piece] + new_next_pieces@;
        assert(tail =~= (queue + drawn).skip(taken - 1));
        assert(drawn =~= tail.skip(tail.len() - drawn.len()));
        assert(!gen_next_piece ==> queue + drawn =~= queue);

        let ghost g = self.grid();
        let ghost s = self.dropped_shape(rotation, swap);
        proof {
            lemma_shape_dims(piece_id as int, rotation as int);
        }
        let piece = shape(piece_id, rotation);
        let y: usize = find_landing_row(&self.board, &piece, x);
        let mut new_board = stamp(&self.board, &piece, x, y);
        proof {
            lemma_stamped_codes(g, s, x as int, y as int, piece_id as int);
            lemma_cleared_codes(stamped(g, s, x as int, y as int));
        }
        let line_count: usize = clear_full_rows(&mut new_board);
        let gain: i64 = if line_count == 1 {
            40
        } else if line_count == 2 {
            100
        } else if line_count == 3 {
            300
        } else if line_count == 4 {
            1200
        } else {
            0
        };
        if !has_clear_top(&new_board) {
            return None;
        }
        let after = Position::new(
            new_current_piece,
            new_next_pieces,
            self.lines + line_count,
            self.score + gain,
            new_board,
            new_bag,
            new_pocket,
        );
        proof {
            let stream = queue + drawn;
            assert forall|i: int| 0 <= i < after.next_pieces@.len() implies is_piece(
                #[trigger] after.next_pieces@[i] as int,
            ) by {
                assert(after.next_pieces@[i] == stream[i + taken]);
                if i + taken < queue.len() {
                    assert(stream[i + taken] == queue[i + taken]);
                } else {
                    assert(stream[i + taken] == drawn[i + taken - queue.len()]);
                }
            }
            assert(is_piece(after.current_piece as int)) by {
                if taken - 1 < queue.len() {
                    assert(stream[taken - 1] == queue[taken - 1]);
                } else {
                    assert(stream[taken - 1] == drawn[taken - 1 - queue.len()]);
                }
            }
        }
        Some(after)
    }
}

impl Position {
    /// Every placement listed in the rotation states before `n` can be
    /// made.
    proof fn lemma_moves_before_can_place(&self, n: int, i: int)
        requires
            is_piece(self.current_piece as int),
            self.swap_target() matches Some(target) ==> is_piece(target as int),
            0 <= n <= 4,
            0 <= i < self.moves_before(n).len(),
        ensures
            self.can_place(self.moves_before(n)[i].0, self.moves_before(n)[i].1, self.moves_before(n)[i].2),
        decreases n,
    {
        let earlier = self.moves_before(n - 1);
        if i < earlier.len() {
            self.lemma_moves_before_can_place(n - 1, i);
        } else {
            let k = i - earlier.len();
            let own = Self::column_moves(self.current_piece, n - 1, false);
            lemma_shape_dims(self.current_piece as int, n - 1);
            if k < own.len() {
                assert(self.moves_before(n)[i] == own[k]);
            } else {
                let target = self.swap_target()->Some_0;
                lemma_shape_dims(target as int, n - 1);
                let other = Self::column_moves(target, n - 1, true);
                assert(self.moves_before(n)[i] == other[k - own.len()]);
            }
        }
    }

    /// Every candidate placement can be made: it names a rotation state and
    /// a column at which the piece it drops lies inside the board.
    pub proof fn lemma_legal_moves_can_place(&self, i: int)
        requires
            is_piece(self.current_piece as int),
            self.swap_target() matches Some(target) ==> is_piece(target as int),
            0 <= i < self.legal_moves().len(),
        ensures
            self.can_place(self.legal_moves()[i].0, self.legal_moves()[i].1, self.legal_moves()[i].2),
    {
        self.lemma_moves_before_can_place(4, i);
    }

    /// What is listed for one rotation state is listed among the candidates
    /// of the rotation states before any later `n`.
    proof fn lemma_rotation_moves_listed(&self, rotation: int, n: int, k: int)
        requires
            0 <= rotation < n,
            0 <= k < self.rotation_moves(rotation).len(),
        ensures
            self.moves_before(n).contains(self.rotation_moves(rotation)[k]),
        decreases n,
    {
        let earlier = self.moves_before(n - 1);
        let all = self.moves_before(n);
        if rotation == n - 1 {
            assert(all[earlier.len() + k] == self.rotation_moves(rotation)[k]);
        } else {
            self.lemma_rotation_moves_listed(rotation, n - 1, k);
            let m = self.rotation_moves(rotation)[k];
            let i = choose|i: int| 0 <= i < earlier.len() && earlier[i] == m;
            assert(all[i] == m);
        }
    }

    /// Every placement that can be made is a candidate: the candidates are
    /// exactly the placements that name a rotation state and a column at
    /// which the piece they drop lies inside the board.
    pub proof fn lemma_can_place_is_legal(&self, x: usize, rotation: usize, swap: bool)
        requires
            is_piece(self.current_piece as int),
            self.swap_target() matches Some(target) ==> is_piece(target as int),
            self.can_place(x, rotation, swap),
        ensures
            self.legal_moves().contains((x, rotation, swap)),
    {
        let own = Self::column_moves(self.current_piece, rotation as int, false);
        lemma_shape_dims(self.current_piece as int, rotation as int);
        if !swap {
            assert(own[x as int] == (x, rotation, swap));
            assert(self.rotation_moves(rotation as int)[x as int] == (x, rotation, swap));
            self.lemma_rotation_moves_listed(rotation as int, 4, x as int);
        } else {
            let target = self.swap_target()->Some_0;
            assert(target == self.dropped_piece(swap));
            lemma_shape_dims(target as int, rotation as int);
            let other = Self::column_moves(target, rotation as int, true);
            assert(other[x as int] == (x, rotation, swap));
            assert(self.rotation_moves(rotation as int)[own.len() + x] == (x, rotation, swap));
            self.lemma_rotation_moves_listed(rotation as int, 4, own.len() + x);
        }
    }

    /// The candidates of the rotation states before `n` are all of a rotation
    /// state before `n`, and no two of them are the same.
    proof fn lemma_moves_before_distinct(&self, n: int)
        requires
            is_piece(self.current_piece as int),
            self.swap_target() matches Some(target) ==> is_piece(target as int),
            0 <= n <= 4,
        ensures
            self.moves_before(n).no_duplicates(),
            forall|i: int| 0 <= i < self.moves_before(n).len() ==> (#[trigger] self.moves_before(n)[i]).1 < n,
        decreases n,
    {
        if n > 0 {
            self.lemma_moves_before_distinct(n - 1);
            let earlier = self.moves_before(n - 1);
            let own = Self::column_moves(self.current_piece, n - 1, false);
            lemma_shape_dims(self.current_piece as int, n - 1);
            let other = match self.swap_target() {
                Some(target) => Self::column_moves(target, n - 1, true),
                None => Seq::empty(),
            };
            if let Some(target) = self.swap_target() {
                lemma_shape_dims(target as int, n - 1);
            }
            let these = self.rotation_moves(n - 1);
            assert(these == own + other);
            assert forall|i: int| 0 <= i < these.len() implies (#[trigger] these[i]).1 == n - 1 by {
                if i < own.len() {
                    assert(these[i] == own[i]);
                } else {
                    assert(these[i] == other[i - own.len()]);
                }
            }
            assert(own.no_duplicates());
            assert(other.no_duplicates());
            lemma_no_dup_in_concat(own, other);
            lemma_no_dup_in_concat(earlier, these);
            let all = self.moves_before(n);
            assert forall|i: int| 0 <= i < all.len() implies (#[trigger] all[i]).1 < n by {
                if i < earlier.len() {
                    assert(all[i] == earlier[i]);
                } else {
                    assert(all[i] == these[i - earlier.len()]);
                }
            }
        }
    }

    /// No candidate placement is listed twice.
    pub proof fn lemma_legal_moves_distinct(&self)
        requires
            is_piece(self.current_piece as int),
            self.swap_target() matches Some(target) ==> is_piece(target as int),
        ensures
            self.legal_moves().no_duplicates(),
    {
        self.lemma_moves_before_distinct(4);
    }

    /// A placement never writes outside the board and never changes a cell
    /// that was occupied: the board with the piece stamped on, and the board
    /// after the clearing, have the board's dimensions, and each cell that
    /// was occupied before holds what it held once the piece is stamped on.
    pub proof fn lemma_placement_never_overwrites(&self, x: usize, rotation: usize, swap: bool)
        requires
            is_board(self.grid()),
        ensures
            is_board(self.landed(x, rotation, swap)),
            is_board(self.settled(x, rotation, swap)),
            0 <= self.rows_cleared(x, rotation, swap) <= BOARD_HEIGHT,
            forall|r: int, c: int|
                0 <= r < BOARD_HEIGHT && 0 <= c < BOARD_WIDTH && self.grid()[r][c] != 0
                    ==> #[trigger] self.landed(x, rotation, swap)[r][c] == self.grid()[r][c],
    {
        let s = self.dropped_shape(rotation, swap);
        let y = landing_row(self.grid(), s, x as int);
        lemma_stamp_never_overwrites(self.grid(), s, x as int, y);
        lemma_cleared_is_board(self.landed(x, rotation, swap));
    }

    /// Holding a piece: a placement with `swap` puts the piece that was
    /// current aside. What it drops is the piece that was held, or with
    /// nothing held the piece at the front of the queue. In the state that
    /// follows, a placement with `swap` drops the piece that was put aside.
    pub proof fn lemma_hold_swaps(&self, x: usize, rotation: usize, gen_next_piece: bool, after: Position)
        requires
            self.leads_to(x, rotation, true, gen_next_piece, after),
        ensures
            after.pocket == Some(self.current_piece),
            self.pocket matches Some(held) ==> self.dropped_piece(true) == held,
            self.pocket is None ==> self.dropped_piece(true) == self.next_pieces@[0],
            after.dropped_piece(true) == self.current_piece,
    {
    }

    /// The row at which the piece that a placement drops comes to rest.
    pub open spec fn landing(&self, x: usize, rotation: usize, swap: bool) -> int {
        landing_row(self.grid(), self.dropped_shape(rotation, swap), x as int)
    }

    /// What a placement changes, on a board whose two top rows are empty and
    /// which has no full row, unless it ends the game. The piece comes to
    /// rest on empty cells only. With the piece stamped on, exactly the four
    /// cells that it covers have changed, from empty to the piece's
    /// identifier; they lie in the columns from `x` on, as many as the piece
    /// is wide. At most four rows are cleared. The board after the placement
    /// has four empty cells less than before, and the board's width more for
    /// each row cleared; where no row is cleared it is the board with the
    /// piece stamped on.
    pub proof fn lemma_placement_fills_four(&self, x: usize, rotation: usize, swap: bool)
        requires
            self.well_formed(),
            self.can_place(x, rotation, swap),
            top_rows_clear(self.grid()),
            full_rows(self.grid()) == 0,
            self.survives(x, rotation, swap),
        ensures
            lies_free(
                self.grid(),
                self.dropped_shape(rotation, swap),
                x as int,
                self.landing(x, rotation, swap),
            ),
            filled_cells(self.dropped_shape(rotation, swap)) == 4,
            forall|r: int, c: int|
                0 <= r < BOARD_HEIGHT && 0 <= c < BOARD_WIDTH ==> #[trigger] self.landed(
                    x,
                    rotation,
                    swap,
                )[r][c] == (if covers(
                    self.dropped_shape(rotation, swap),
                    x as int,
                    self.landing(x, rotation, swap),
                    r,
                    c,
                ) {
                    self.dropped_piece(swap) as u8
                } else {
                    self.grid()[r][c]
                }),
            forall|r: int, c: int|
                covers(
                    self.dropped_shape(rotation, swap),
                    x as int,
                    self.landing(x, rotation, swap),
                    r,
                    c,
                ) ==> x <= c < x + shape_width(self.dropped_piece(swap) as int, rotation as int),
            0 <= self.rows_cleared(x, rotation, swap) <= 4,
            empty_cells(self.settled(x, rotation, swap)) == self.free_cells() - 4 + BOARD_WIDTH
                * self.rows_cleared(x, rotation, swap),
            self.rows_cleared(x, rotation, swap) == 0 ==> self.settled(x, rotation, swap)
                == self.landed(x, rotation, swap),
    {
        let piece = self.dropped_piece(swap) as int;
        let g = self.grid();
        let s = self.dropped_shape(rotation, swap);
        let y = self.landing(x, rotation, swap);
        let t = self.landed(x, rotation, swap);
        lemma_shape_dims(piece, rotation as int);
        lemma_shape_no_empty_line(piece, rotation as int);
        lemma_four_cells(piece, rotation as int);
        lemma_landing_row_exists(g, s, x as int);
        lemma_surviving_drop_counts(g, s, x as int);
        lemma_stamp_changes_covered(g, s, x as int, y);
        lemma_stamp_fills_few_rows(g, s, x as int, y);
        assert forall|r: int, c: int| 0 <= r < BOARD_HEIGHT && 0 <= c < BOARD_WIDTH implies #[trigger] t[r][c]
            == (if covers(s, x as int, y, r, c) {
            self.dropped_piece(swap) as u8
        } else {
            g[r][c]
        }) by {
            if covers(s, x as int, y, r, c) {
                assert(s[r - y].len() == s[0].len());
                assert(s[r - y][c - x] == 0 || s[r - y][c - x] == piece);
            }
        }
        if self.rows_cleared(x, rotation, swap) == 0 {
            lemma_nothing_to_clear(t);
        }
    }

    /// Number of empty cells of the board.
    pub open spec fn free_cells(&self) -> int {
        empty_cells(self.grid())
    }

    /// A placement that clears no row and does not end the game fills at
    /// least one cell of the board.
    pub proof fn lemma_quiet_move_fills(&self, x: usize, rotation: usize, swap: bool)
        requires
            self.well_formed(),
            self.can_place(x, rotation, swap),
            self.survives(x, rotation, swap),
            self.rows_cleared(x, rotation, swap) == 0,
        ensures
            0 <= empty_cells(self.settled(x, rotation, swap)) < self.free_cells(),
    {
        let piece = self.dropped_piece(swap) as int;
        lemma_shape_dims(piece, rotation as int);
        lemma_shape_no_empty_line(piece, rotation as int);
        lemma_quiet_drop_fills(self.grid(), self.dropped_shape(rotation, swap), x as int);
    }
}

impl Default for Position {
    /// The state at the start of a game, with its pieces drawn from a bag
    /// in a random order.
    fn default() -> (position: Self)
        ensures
            position.well_formed(),
            position.is_fresh(),
    {
        let bag = fresh_cycle();
        let ghost cycle = bag@;
        proof {
            lemma_full_cycle(cycle);
        }
        let first = take_last(bag);
        let current_piece: usize = first.0;
        let mut bag = first.1;
        let ghost after_first = bag@;
        let ghost mut drawn: Seq<usize> = Seq::empty();
        let mut next_pieces: VecDeque<usize> = VecDeque::with_capacity(4);
        proof {
            assert(after_first.push(current_piece) =~= cycle);
            lemma_bag_drop_last(cycle);
            lemma_draws_none(after_first);
        }
        let mut n: usize = 0;
        while n < 4
            invariant
                n <= 4,
                is_bag(after_first),
                is_bag(bag@),
                after_first.len() == 6,
                bag@.len() == 6 - n,
                next_pieces@.len() == n,
                forall|i: int| 0 <= i < n ==> is_piece(#[trigger] next_pieces@[i] as int),
                bag@ == after_first.take(6 - n),
                forall|i: int| 0 <= i < n ==> #[trigger] next_pieces@[i] == after_first[5 - i],
            decreases 4 - n,
        {
            proof {
                lemma_bag_drop_last(bag@);
            }
            let pick = take_last(bag);
            next_pieces.push_back(pick.0);
            bag = pick.1;
            n += 1;
        }
        let board = blank_board();
        let position = Position {
            current_piece,
            next_pieces,
            lines: 0,
            score: 0,
            board,
            bag,
            pocket: None,
        };
        proof {
            let queue = position.next_pieces@;
            let b1 = after_first.take(5);
            let b2 = after_first.take(4);
            let b3 = after_first.take(3);
            let b4 = after_first.take(2);
            assert(b1.drop_last() =~= b2);
            assert(b2.drop_last() =~= b3);
            assert(b3.drop_last() =~= b4);
            assert(after_first.drop_last() =~= b1);
            lemma_draws_none(b4);
            lemma_draws_join(b3, queue[3], b4, Seq::empty(), b4);
            assert(seq![queue[3]] + Seq::<usize>::empty() =~= queue.skip(3));
            lemma_draws_join(b2, queue[2], b3, queue.skip(3), b4);
            assert(seq![queue[2]] + queue.skip(3) =~= queue.skip(2));
            lemma_draws_join(b1, queue[1], b2, queue.skip(2), b4);
            assert(seq![queue[1]] + queue.skip(2) =~= queue.skip(1));
            lemma_draws_join(after_first, queue[0], b1, queue.skip(1), b4);
            assert(seq![queue[0]] + queue.skip(1) =~= queue);
            lemma_draws_join(Seq::empty(), current_piece, after_first, queue, b4);
        }
        position
    }
}

} // verus!
