//! The board as text: one line for each row, each cell as its code in
//! decimal followed by a space.

use vstd::prelude::*;
use crate::board::{is_board, BOARD_HEIGHT, BOARD_WIDTH};
use crate::pieces::grid_of;
use crate::pos::Position;

verus! {

/// `String::push` of the standard library adds the character to the end of
/// the string and changes nothing else of it.
pub assume_specification[ String::push ](text: &mut String, c: char)
    ensures
        final(text)@ == old(text)@.push(c),
;

/// The character of a decimal digit.
pub open spec fn digit(d: int) -> char {
    if d == 0 {
        '0'
    } else if d == 1 {
        '1'
    } else if d == 2 {
        '2'
    } else if d == 3 {
        '3'
    } else if d == 4 {
        '4'
    } else if d == 5 {
        '5'
    } else if d == 6 {
        '6'
    } else if d == 7 {
        '7'
    } else if d == 8 {
        '8'
    } else {
        '9'
    }
}

/// A number written in decimal, without leading zeros.
pub open spec fn decimal(n: int) -> Seq<char>
    decreases n,
{
    if n < 10 {
        seq![digit(n)]
    } else {
        decimal(n / 10).push(digit(n % 10))
    }
}

/// The first `n` cells of a row as text: each code in decimal, followed by a
/// space.
pub open spec fn row_text(row: Seq<u8>, n: int) -> Seq<char>
    decreases n,
{
    if n <= 0 {
        Seq::empty()
    } else {
        row_text(row, n - 1) + decimal(row[n - 1] as int).push(' ')
    }
}

/// The first `n` rows of the grid as text: each row over the board's width,
/// followed by a line feed.
pub open spec fn grid_text(g: Seq<Seq<u8>>, n: int) -> Seq<char>
    decreases n,
{
    if n <= 0 {
        Seq::empty()
    } else {
        grid_text(g, n - 1) + row_text(g[n - 1], BOARD_WIDTH as int).push('\n')
    }
}

/// The character of the decimal digit `d`.
fn digit_char(d: u8) -> (c: char)
    requires
        d < 10,
    ensures
        c == digit(d as int),
{
    if d == 0 {
        '0'
    } else if d == 1 {
        '1'
    } else if d == 2 {
        '2'
    } else if d == 3 {
        '3'
    } else if d == 4 {
        '4'
    } else if d == 5 {
        '5'
    } else if d == 6 {
        '6'
    } else if d == 7 {
        '7'
    } else if d == 8 {
        '8'
    } else {
        '9'
    }
}

/// Adds a cell code in decimal, and a space after it, to the text.
fn push_cell(text: &mut String, code: u8)
    ensures
        final(text)@ == old(text)@ + decimal(code as int).push(' '),
{
    let ghost start = text@;
    if code >= 100 {
        text.push(digit_char(code / 100));
    }
    if code >= 10 {
        text.push(digit_char((code / 10) % 10));
    }
    text.push(digit_char(code % 10));
    text.push(' ');
    proof {
        reveal_with_fuel(decimal, 3);
        assert(text@ =~= start + decimal(code as int).push(' '));
    }
}

impl Position {
    /// The board as text.
    pub open spec fn text(&self) -> Seq<char> {
        grid_text(self.grid(), BOARD_HEIGHT as int)
    }

    /// Writes out the board: a line for each row from the top, each cell as
    /// its code followed by a space.
    pub fn render(&self) -> (text: String)
        requires
            is_board(self.grid()),
        ensures
            text@ == self.text(),
    {
        let ghost g = self.grid();
        let mut text = String::new();
        let mut y: usize = 0;
        while y < BOARD_HEIGHT
            invariant
                y <= BOARD_HEIGHT,
                g == grid_of(self.board),
                is_board(g),
                text@ == grid_text(g, y as int),
            decreases BOARD_HEIGHT - y,
        {
            let ghost before = text@;
            let mut x: usize = 0;
            while x < BOARD_WIDTH
                invariant
                    x <= BOARD_WIDTH,
                    y < BOARD_HEIGHT,
                    g == grid_of(self.board),
                    is_board(g),
                    text@ == before + row_text(g[y as int], x as int),
                decreases BOARD_WIDTH - x,
            {
                assert(g[y as int].len() == BOARD_WIDTH);
                push_cell(&mut text, self.board[y][x]);
                x += 1;
            }
            text.push('\n');
            assert(text@ =~= before + row_text(g[y as int], BOARD_WIDTH as int).push('\n'));
            y += 1;
        }
        text
    }
}

} // verus!
