// Exercises the move codec, the wire formats, the command grammars and
// the match state machine on concrete values.
use hex_referee::board::{Board, Tile};
use hex_referee::codec::{format_move, parse_move, parse_usize};
use hex_referee::controller::{parse_repl_command, Color, Match, ReplCommand, TurnOutcome};
use hex_referee::display::App;
use hex_referee::protocol::{parse_bot_command, BotCommand};
use hex_referee::testing::BotTest;
use std::path::PathBuf;

#[test]
fn compact_round_trip() {
    // reading a well-formed compact string and serialising again is the
    // identity
    for s in [
        "B..|.W.|..B|",
        "....|....|....|....|",
        "W|",
        "",
        "BW|WB|",
    ] {
        let board = Board::from(s);
        assert_eq!(board.serialize(), s);
    }
}

#[test]
fn compact_round_trip_from_grid() {
    // serialising any board and reading it back preserves every cell
    let mut board = Board::new(4);
    board.set_move("a1", Tile::Black);
    board.set_move("b3", Tile::White);
    board.set_move("d4", Tile::Black);
    let copy = Board::from(&board.serialize());
    for r in 0..4 {
        for c in 0..4 {
            assert_eq!(copy.get(r, c), board.get(r, c));
        }
    }
}

#[test]
fn compact_rejects_malformed() {
    for s in [
        "B..|",
        "B..|...|..",
        "Z..|...|...|",
        "...",
        "|",
        "..|..|..|",
        "B..|...|...|extra",
    ] {
        assert!(Board::parse_compact(s).is_none());
    }
}

#[test]
fn compact_reads_tiles() {
    let board = Board::from("B..|.W.|..B|");
    assert_eq!(board.get(0, 0), Some(Tile::Black));
    assert_eq!(board.get(1, 1), Some(Tile::White));
    assert_eq!(board.get(2, 2), Some(Tile::Black));
    assert_eq!(board.get(0, 1), Some(Tile::Empty));
    assert_eq!(board.get(3, 3), None);
}

#[test]
fn move_parsing() {
    assert_eq!(parse_move("a1"), Some((0, 0)));
    assert_eq!(parse_move("a2"), Some((0, 1)));
    assert_eq!(parse_move("c12"), Some((2, 11)));
    assert_eq!(parse_move("z99"), Some((25, 98)));
    assert_eq!(parse_move("a0"), None);
    assert_eq!(parse_move("a"), None);
    assert_eq!(parse_move(""), None);
    assert_eq!(parse_move("swap"), None);
    assert_eq!(parse_move("1a"), None);
    assert_eq!(parse_move("aa1"), None);
    assert_eq!(parse_move("a100"), None);
}

#[test]
fn move_format_round_trip() {
    // formatting then parsing gives the coordinates back
    for (row, col) in [(0, 0), (0, 8), (2, 11), (25, 98), (9, 9)] {
        let s = format_move(row, col);
        assert_eq!(parse_move(&s), Some((row, col)));
    }
    // parsing a canonical string then formatting gives the string back
    for s in ["a1", "c8", "j10", "z99", "b2"] {
        let (row, col) = parse_move(s).unwrap();
        assert_eq!(format_move(row, col), s);
    }
    assert_eq!(format_move(0, 0), "a1");
    assert_eq!(format_move(2, 11), "c12");
}

#[test]
fn decimal_parsing() {
    assert_eq!(parse_usize("0"), Some(0));
    assert_eq!(parse_usize("11"), Some(11));
    assert_eq!(parse_usize("18446744073709551615"), Some(usize::MAX));
    assert_eq!(parse_usize("18446744073709551616"), None);
    assert_eq!(parse_usize(""), None);
    assert_eq!(parse_usize("1x"), None);
    assert_eq!(parse_usize("-1"), None);
}

#[test]
fn repl_commands() {
    assert_eq!(parse_repl_command("help"), ReplCommand::Help);
    assert_eq!(parse_repl_command("h"), ReplCommand::Help);
    assert_eq!(parse_repl_command("check"), ReplCommand::Check);
    assert_eq!(parse_repl_command("c"), ReplCommand::Check);
    assert_eq!(parse_repl_command("show"), ReplCommand::Show);
    assert_eq!(parse_repl_command("s"), ReplCommand::Show);
    assert_eq!(parse_repl_command("showall"), ReplCommand::ShowAll);
    assert_eq!(parse_repl_command("S"), ReplCommand::ShowAll);
    assert_eq!(parse_repl_command("exit"), ReplCommand::Exit);
    assert_eq!(parse_repl_command("quit"), ReplCommand::Exit);
    assert_eq!(parse_repl_command("next"), ReplCommand::Next);
    assert_eq!(parse_repl_command("n"), ReplCommand::Next);
    assert_eq!(parse_repl_command("run 12"), ReplCommand::Run(12));
    assert_eq!(parse_repl_command("run 0"), ReplCommand::Run(0));
    assert_eq!(parse_repl_command("run"), ReplCommand::Unknown);
    assert_eq!(parse_repl_command("run "), ReplCommand::Unknown);
    assert_eq!(parse_repl_command("run x"), ReplCommand::Unknown);
    assert_eq!(parse_repl_command("bogus"), ReplCommand::Unknown);
    assert_eq!(parse_repl_command(""), ReplCommand::Unknown);
}

#[test]
fn bot_commands() {
    assert_eq!(parse_bot_command("show_board"), Some(BotCommand::ShowBoard));
    assert_eq!(parse_bot_command("make_move"), Some(BotCommand::MakeMove));
    assert_eq!(parse_bot_command("check_win"), Some(BotCommand::CheckWin));
    assert_eq!(parse_bot_command("swap"), Some(BotCommand::Swap));
    assert_eq!(parse_bot_command("quit"), Some(BotCommand::Quit));
    assert_eq!(
        parse_bot_command("init_board 11"),
        Some(BotCommand::InitBoard(11))
    );
    assert_eq!(parse_bot_command("init_board 300"), None);
    assert_eq!(parse_bot_command("init_board x"), None);
    assert_eq!(
        parse_bot_command("sety a1"),
        Some(BotCommand::SetYours { row: 0, col: 0 })
    );
    assert_eq!(
        parse_bot_command("seto c8"),
        Some(BotCommand::SetOthers { row: 2, col: 7 })
    );
    assert_eq!(
        parse_bot_command("unset b2"),
        Some(BotCommand::Unset { row: 1, col: 1 })
    );
    assert_eq!(parse_bot_command("sety swap"), None);
    assert_eq!(parse_bot_command("unset"), None);
    assert_eq!(parse_bot_command(""), None);
    assert_eq!(parse_bot_command("bogus"), None);
}

#[test]
fn match_turns_alternate() {
    let mut m = Match::new(3);
    assert_eq!(m.current_color(), Tile::Black);
    match m.play_turn("b2") {
        TurnOutcome::Placed { row, col, winner } => {
            assert_eq!((row, col), (1, 1));
            assert_eq!(winner, Tile::Empty);
        }
        other => panic!("unexpected outcome {:?}", other),
    }
    assert_eq!(m.current_color(), Tile::White);
    assert_eq!(m.board().get(1, 1), Some(Tile::Black));
}

#[test]
fn match_rejects_bad_moves() {
    let mut m = Match::new(3);
    assert_eq!(m.play_turn("not a move"), TurnOutcome::Rejected);
    assert_eq!(m.play_turn("d1"), TurnOutcome::Rejected);
    match m.play_turn("a1") {
        TurnOutcome::Placed { .. } => {}
        other => panic!("unexpected outcome {:?}", other),
    }
    // the cell is now occupied
    assert_eq!(m.play_turn("a1"), TurnOutcome::Rejected);
}

#[test]
fn match_swap_keeps_state() {
    let mut m = Match::new(3);
    match m.play_turn("a2") {
        TurnOutcome::Placed { .. } => {}
        other => panic!("unexpected outcome {:?}", other),
    }
    // White answers with the pie rule: the board and the colour to move
    // stay as they were; the driver exchanges the processes
    assert_eq!(m.play_turn("swap"), TurnOutcome::Swapped);
    assert_eq!(m.current_color(), Tile::White);
    assert_eq!(m.board().get(0, 1), Some(Tile::Black));
}

#[test]
fn match_reports_winner() {
    let mut m = Match::new(3);
    // Black builds its left column while White stays on the right
    for mv in ["a1", "a3", "b1", "b3"] {
        match m.play_turn(mv) {
            TurnOutcome::Placed { winner, .. } => assert_eq!(winner, Tile::Empty),
            other => panic!("unexpected outcome {:?}", other),
        }
    }
    match m.play_turn("c1") {
        TurnOutcome::Placed { winner, .. } => assert_eq!(winner, Tile::Black),
        other => panic!("unexpected outcome {:?}", other),
    }
    assert_eq!(m.board().has_win(), Tile::Black);
}

#[test]
fn diagonal_is_not_connected() {
    // stones along the main diagonal look connected but are not
    for size in [3, 12] {
        let mut black = Board::new(size);
        let mut white = Board::new(size);
        for i in 0..size as usize {
            black.set(i, i, Tile::Black);
            white.set(i, i, Tile::White);
        }
        assert_eq!(black.has_win(), Tile::Empty);
        assert_eq!(white.has_win(), Tile::Empty);
    }
}

#[test]
fn single_cell_board_wins_immediately() {
    // on a 1x1 board one stone touches both of its edges at once
    let mut board = Board::new(1);
    board.set(0, 0, Tile::Black);
    assert_eq!(board.has_win(), Tile::Black);
    board.set(0, 0, Tile::White);
    assert_eq!(board.has_win(), Tile::White);
}

#[test]
fn set_changes_only_that_cell() {
    // a full-board diff around one set: every other cell is untouched
    let coords = ["a1", "b3", "e5", "c2"];
    let mut before = Board::new(5);
    let mut after = Board::new(5);
    for coord in coords.iter() {
        before.set_move(coord, Tile::White);
        after.set_move(coord, Tile::White);
    }
    after.set(2, 3, Tile::Black);
    for r in 0..5 {
        for c in 0..5 {
            if (r, c) == (2, 3) {
                assert_eq!(after.get(r, c), Some(Tile::Black));
            } else {
                assert_eq!(after.get(r, c), before.get(r, c));
            }
        }
    }
}

#[test]
fn big_board_win_appears_and_disappears() {
    // a documented winning path on 11x11; removing one stone of it takes
    // the win back
    let coords = [
        "a3", "b3", "c3", "c4", "b5", "b6", "b7", "b8", "b9", "b10", "b11", "c11", "d11", "e11",
        "f10", "g9", "h9", "i8", "j8", "j9", "j10", "j11", "k11",
    ];
    let mut board = Board::new(11);
    for coord in coords.iter() {
        board.set_move(coord, Tile::Black);
    }
    assert_eq!(board.has_win(), Tile::Black);

    board.set_move("b7", Tile::Empty);
    assert_eq!(board.has_win(), Tile::Empty);
}

#[test]
fn tile_and_color_names() {
    assert_eq!(Tile::Black.name(), "Black");
    assert_eq!(Tile::White.name(), "White");
    assert_eq!(Tile::Empty.name(), "Empty");
    assert_eq!(Color::Black.as_str(), "B");
    assert_eq!(Color::White.as_str(), "W");
}

#[test]
fn bot_test_colors() {
    let white = BotTest::new(Color::White, PathBuf::from("bot"));
    assert!(white.is_white());
    assert_eq!(white.color_str(), "white");

    let black = BotTest::new(Color::Black, PathBuf::from("bot"));
    assert!(!black.is_white());
    assert_eq!(black.color_str(), "black");
}

#[test]
fn display_app_starts_blank() {
    let app = App::new(Tile::White);
    assert_eq!(app.size(), 6);
    assert_eq!(app.color(), Tile::White);
}

#[test]
fn is_valid_move_rules() {
    let mut board = Board::new(3);
    assert!(board.is_valid_move("swap"));
    assert!(board.is_valid_move("a1"));
    assert!(!board.is_valid_move("d1"));
    assert!(!board.is_valid_move("a4"));
    assert!(!board.is_valid_move("nonsense"));
    board.set_move("a1", Tile::Black);
    assert!(!board.is_valid_move("a1"));
    assert!(board.is_valid_move("b1"));
}
