//! State of the interactive board display: a board, its side length, the
//! running message log and the colour the display plays.

use crate::board::{blank_grid, Board, Tile};
use vstd::prelude::*;

verus! {

/// The display application's state.
pub struct App {
    board: Board,
    size: usize,
    messages: Vec<String>,
    color: Tile,
}

impl App {
    pub closed spec fn spec_board(self) -> Board {
        self.board
    }

    pub closed spec fn spec_size(self) -> int {
        self.size as int
    }

    pub closed spec fn spec_messages(self) -> Seq<Seq<char>> {
        self.messages@.map_values(|m: String| m@)
    }

    pub closed spec fn spec_color(self) -> Tile {
        self.color
    }

    /// A fresh display for the given colour: a blank board of the default
    /// side length and a greeting in the log.
    pub fn new(color: Tile) -> (a: App)
        ensures
            a.spec_board().wf(),
            a.spec_board().side() == 6,
            a.spec_board().grid() == blank_grid(6),
            a.spec_size() == 6,
            a.spec_messages().len() == 2,
            a.spec_messages()[0] == "Starting game..."@,
            a.spec_messages()[1] == "Starting game..."@,
            a.spec_color() == color,
    {
        let default_size: u8 = 6;
        let mut messages: Vec<String> = Vec::new();
        messages.push(String::from_str("Starting game..."));
        messages.push(String::from_str("Starting game..."));
        let a = App {
            board: Board::new(default_size),
            size: default_size as usize,
            messages,
            color,
        };
        proof {
            assert(a.spec_messages().len() == 2);
        }
        a
    }

    /// The side length of the displayed board.
    pub fn size(&self) -> (s: usize)
        ensures
            s as int == self.spec_size(),
    {
        self.size
    }

    /// The colour this display plays.
    pub fn color(&self) -> (c: Tile)
        ensures
            c == self.spec_color(),
    {
        self.color
    }
}

} // verus!
