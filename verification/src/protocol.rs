//! The bot wire protocol: one command per line on the bot's standard
//! input.  This grammar is shared by the referee, the conformance harness
//! and any bot written against it.

use crate::codec::{all_digits, dec_val, is_move_chars, move_col, move_row, parse_move, parse_usize};
use crate::text::str_eq;
use vstd::prelude::*;

verus! {

/// One command of the bot wire protocol.
#[derive(Clone, Copy, Debug, PartialEq, Eq, Structural)]
pub enum BotCommand {
    /// Reset to a blank square board of the given side length.
    InitBoard(u8),
    /// Put the bot's own stone on a cell.
    SetYours { row: usize, col: usize },
    /// Put the opponent's stone on a cell.
    SetOthers { row: usize, col: usize },
    /// Clear a cell.
    Unset { row: usize, col: usize },
    /// Reply with the compact board string.
    ShowBoard,
    /// Reply with the chosen move.
    MakeMove,
    /// Reply with the win state seen from the bot's side.
    CheckWin,
    /// The opponent invoked the pie rule.
    Swap,
    /// Shut down cleanly.
    Quit,
}

/// The command a protocol line denotes, or `None` for a line outside the
/// grammar.
pub open spec fn spec_bot_command(s: Seq<char>) -> Option<BotCommand> {
    if s == "show_board"@ {
        Some(BotCommand::ShowBoard)
    } else if s == "make_move"@ {
        Some(BotCommand::MakeMove)
    } else if s == "check_win"@ {
        Some(BotCommand::CheckWin)
    } else if s == "swap"@ {
        Some(BotCommand::Swap)
    } else if s == "quit"@ {
        Some(BotCommand::Quit)
    } else if s.len() > 11 && s.subrange(0, 11) == "init_board "@ && all_digits(s.skip(11))
        && dec_val(s.skip(11)) <= 255 {
        Some(BotCommand::InitBoard(dec_val(s.skip(11)) as u8))
    } else if s.len() > 5 && s.subrange(0, 5) == "sety "@ && is_move_chars(s.skip(5)) {
        Some(
            BotCommand::SetYours {
                row: move_row(s.skip(5)) as usize,
                col: move_col(s.skip(5)) as usize,
            },
        )
    } else if s.len() > 5 && s.subrange(0, 5) == "seto "@ && is_move_chars(s.skip(5)) {
        Some(
            BotCommand::SetOthers {
                row: move_row(s.skip(5)) as usize,
                col: move_col(s.skip(5)) as usize,
            },
        )
    } else if s.len() > 6 && s.subrange(0, 6) == "unset "@ && is_move_chars(s.skip(6)) {
        Some(
            BotCommand::Unset {
                row: move_row(s.skip(6)) as usize,
                col: move_col(s.skip(6)) as usize,
            },
        )
    } else {
        None
    }
}

/// Reads one line of the bot wire protocol.
pub fn parse_bot_command(line: &str) -> (r: Option<BotCommand>)
    ensures
        r == spec_bot_command(line@),
{
    proof {
        // the command prefixes differ in their first characters
        reveal_strlit("init_board ");
        reveal_strlit("sety ");
        reveal_strlit("seto ");
        reveal_strlit("unset ");
    }
    if str_eq(line, "show_board") {
        return Some(BotCommand::ShowBoard);
    }
    if str_eq(line, "make_move") {
        return Some(BotCommand::MakeMove);
    }
    if str_eq(line, "check_win") {
        return Some(BotCommand::CheckWin);
    }
    if str_eq(line, "swap") {
        return Some(BotCommand::Swap);
    }
    if str_eq(line, "quit") {
        return Some(BotCommand::Quit);
    }
    let len = line.unicode_len();
    if len > 11 {
        let head = line.substring_char(0, 11);
        if str_eq(head, "init_board ") {
            let tail = line.substring_char(11, len);
            proof {
                assert(tail@ =~= line@.skip(11));
                // a line opening with `init_board ` opens with no other
                // command prefix
                if line@.subrange(0, 5) == "sety "@ || line@.subrange(0, 5) == "seto "@ {
                    assert(line@.subrange(0, 5)[0] == line@[0]);
                    assert(line@.subrange(0, 11)[0] == line@[0]);
                    assert(false);
                }
                if line@.len() > 6 && line@.subrange(0, 6) == "unset "@ {
                    assert(line@.subrange(0, 6)[0] == line@[0]);
                    assert(line@.subrange(0, 11)[0] == line@[0]);
                    assert(false);
                }
            }
            return match parse_usize(tail) {
                Some(v) => if v <= 255 {
                    Some(BotCommand::InitBoard(v as u8))
                } else {
                    None
                },
                None => None,
            };
        }
    }
    if len > 5 {
        let head = line.substring_char(0, 5);
        let sety = str_eq(head, "sety ");
        let seto = str_eq(head, "seto ");
        if sety || seto {
            let tail = line.substring_char(5, len);
            proof {
                assert(tail@ =~= line@.skip(5));
                // a line opening with `sety ` or `seto ` does not open
                // with `unset `
                if line@.len() > 6 && line@.subrange(0, 6) == "unset "@ {
                    assert(line@.subrange(0, 6)[0] == line@[0]);
                    assert(line@.subrange(0, 5)[0] == line@[0]);
                    assert(false);
                }
            }
            return match parse_move(tail) {
                Some((row, col)) => if sety {
                    Some(BotCommand::SetYours { row, col })
                } else {
                    Some(BotCommand::SetOthers { row, col })
                },
                None => None,
            };
        }
    }
    if len > 6 {
        let head = line.substring_char(0, 6);
        if str_eq(head, "unset ") {
            let tail = line.substring_char(6, len);
            proof {
                assert(tail@ =~= line@.skip(6));
            }
            return match parse_move(tail) {
                Some((row, col)) => Some(BotCommand::Unset { row, col }),
                None => None,
            };
        }
    }
    None
}

} // verus!
