//! The match controller: the operator command grammar and the turn state
//! machine that validates a bot's move, applies it to the authoritative
//! board and reports what the driver must do next.

use crate::board::{blank_grid, idx_of, spec_winner, Board, Tile};
use crate::codec::{all_digits, dec_val, move_col, move_row, parse_move, parse_usize};
use crate::text::str_eq;
use vstd::prelude::*;

verus! {

/// A player's colour, as the bots are addressed.
#[derive(Clone, Copy, Debug, PartialEq, Eq, Structural)]
pub enum Color {
    Black,
    White,
}

impl Color {
    /// The one-letter tag of the colour on the wire and in renderings.
    pub fn as_str(&self) -> (r: &'static str)
        ensures
            *self == Color::Black ==> r@ == "B"@,
            *self == Color::White ==> r@ == "W"@,
    {
        match self {
            Color::Black => "B",
            Color::White => "W",
        }
    }
}

/// One command of the operator's read-eval-print loop.
#[derive(Clone, Copy, Debug, PartialEq, Eq, Structural)]
pub enum ReplCommand {
    Help,
    Check,
    Show,
    ShowAll,
    Exit,
    Next,
    Run(usize),
    Unknown,
}

/// The command a line of operator input denotes, tested in the same order
/// as the loop that serves it.
pub open spec fn spec_repl_command(s: Seq<char>) -> ReplCommand {
    if s == "help"@ || s == "h"@ {
        ReplCommand::Help
    } else if s == "check"@ || s == "c"@ {
        ReplCommand::Check
    } else if s == "show"@ || s == "s"@ {
        ReplCommand::Show
    } else if s == "showall"@ || s == "S"@ {
        ReplCommand::ShowAll
    } else if s == "exit"@ || s == "quit"@ {
        ReplCommand::Exit
    } else if s == "next"@ || s == "n"@ {
        ReplCommand::Next
    } else if s.len() >= 5 && s.subrange(0, 4) == "run "@ && all_digits(s.skip(4)) && dec_val(
        s.skip(4),
    ) <= usize::MAX as int {
        ReplCommand::Run(dec_val(s.skip(4)) as usize)
    } else {
        ReplCommand::Unknown
    }
}

/// Reads one line of operator input.
pub fn parse_repl_command(line: &str) -> (r: ReplCommand)
    ensures
        r == spec_repl_command(line@),
{
    if str_eq(line, "help") || str_eq(line, "h") {
        return ReplCommand::Help;
    }
    if str_eq(line, "check") || str_eq(line, "c") {
        return ReplCommand::Check;
    }
    if str_eq(line, "show") || str_eq(line, "s") {
        return ReplCommand::Show;
    }
    if str_eq(line, "showall") || str_eq(line, "S") {
        return ReplCommand::ShowAll;
    }
    if str_eq(line, "exit") || str_eq(line, "quit") {
        return ReplCommand::Exit;
    }
    if str_eq(line, "next") || str_eq(line, "n") {
        return ReplCommand::Next;
    }
    let len = line.unicode_len();
    if len >= 5 {
        let head = line.substring_char(0, 4);
        if str_eq(head, "run ") {
            let tail = line.substring_char(4, len);
            proof {
                assert(tail@ =~= line@.skip(4));
            }
            return match parse_usize(tail) {
                Some(v) => ReplCommand::Run(v),
                None => ReplCommand::Unknown,
            };
        }
    }
    ReplCommand::Unknown
}

/// What the driver must do after a turn was played.
#[derive(Clone, Copy, Debug, PartialEq, Eq, Structural)]
pub enum TurnOutcome {
    /// The move was malformed or illegal: the match cannot continue.
    Rejected,
    /// The pie rule was invoked: exchange the two bot processes and
    /// forward the swap notice.
    Swapped,
    /// A stone was placed: forward it to the opponent and read off the
    /// winner of the new position.
    Placed { row: usize, col: usize, winner: Tile },
}

/// The turn state machine: the authoritative board and whose move it is.
pub struct Match {
    board: Board,
    is_black_turn: bool,
}

impl Match {
    /// The authoritative board.
    pub closed spec fn spec_board(self) -> Board {
        self.board
    }

    /// Whether Black is to move.
    pub closed spec fn black_turn(self) -> bool {
        self.is_black_turn
    }

    pub open spec fn wf(self) -> bool {
        self.spec_board().wf()
    }

    /// A fresh match: a blank board, Black to move.
    pub fn new(size: u8) -> (m: Match)
        ensures
            m.wf(),
            m.spec_board().side() == size as int,
            m.spec_board().grid() == blank_grid(size as int),
            m.black_turn(),
    {
        Match { board: Board::new(size), is_black_turn: true }
    }

    /// The authoritative board, for display and win queries.
    pub fn board(&self) -> (b: &Board)
        ensures
            *b == self.spec_board(),
    {
        &self.board
    }

    /// The colour whose move it is.
    pub fn current_color(&self) -> (t: Tile)
        ensures
            t == (if self.black_turn() {
                Tile::Black
            } else {
                Tile::White
            }),
    {
        if self.is_black_turn {
            Tile::Black
        } else {
            Tile::White
        }
    }

    /// Plays the line a bot answered `make_move` with.  A malformed or
    /// illegal move rejects the turn and changes nothing.  The swap token
    /// changes no state here: the same colour stays to move, and the
    /// driver exchanges which process answers to which colour.  Any other
    /// valid move puts the mover's stone on the named cell, reports the
    /// winner of the new position, and passes the turn while the game is
    /// still undecided.
    pub fn play_turn(&mut self, mv: &str) -> (r: TurnOutcome)
        requires
            old(self).wf(),
        ensures
            final(self).wf(),
            final(self).spec_board().side() == old(self).spec_board().side(),
            !old(self).spec_board().spec_valid_move(mv@) ==> r == TurnOutcome::Rejected
                && *final(self) == *old(self),
            old(self).spec_board().spec_valid_move(mv@) && mv@ == "swap"@ ==> r
                == TurnOutcome::Swapped && *final(self) == *old(self),
            old(self).spec_board().spec_valid_move(mv@) && mv@ != "swap"@ ==> ({
                let n = old(self).spec_board().side();
                let mover = if old(self).black_turn() {
                    Tile::Black
                } else {
                    Tile::White
                };
                let g2 = old(self).spec_board().grid().update(
                    idx_of(n, move_row(mv@), move_col(mv@)),
                    mover,
                );
                &&& final(self).spec_board().grid() == g2
                &&& final(self).black_turn() == (if spec_winner(g2, n) == Tile::Empty {
                    !old(self).black_turn()
                } else {
                    old(self).black_turn()
                })
                &&& r == (TurnOutcome::Placed {
                    row: move_row(mv@) as usize,
                    col: move_col(mv@) as usize,
                    winner: spec_winner(g2, n),
                })
            }),
    {
        if !self.board.is_valid_move(mv) {
            return TurnOutcome::Rejected;
        }
        if str_eq(mv, "swap") {
            return TurnOutcome::Swapped;
        }
        let (row, col) = parse_move(mv).unwrap();
        let color = self.current_color();
        self.board.set(row, col, color);
        let winner = self.board.has_win();
        if winner == Tile::Empty {
            self.is_black_turn = !self.is_black_turn;
        }
        TurnOutcome::Placed { row, col, winner }
    }
}

} // verus!
