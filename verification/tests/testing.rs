// The conformance expectations of the bot wire protocol, checked directly
// against the authoritative board: the tested bot plays Black, so its own
// tiles (X on the wire) are Black and the opponent's (O) are White.
use hex_referee::board::{Board, Tile};

fn create_board(board_size: u8, sety: &[&str], seto: &[&str]) -> Board {
    let mut board = Board::new(board_size);
    for coord in sety.iter() {
        board.set_move(coord, Tile::Black);
    }
    for coord in seto.iter() {
        board.set_move(coord, Tile::White);
    }
    board
}

fn test_init_board(size: u8) {
    let board = Board::new(size);

    let mut expected = String::new();
    for _ in 0..size {
        for _ in 0..size {
            expected.push_str(".");
        }
        expected.push_str("|");
    }

    assert_eq!(board.serialize(), expected);
}

fn test_sety(board_size: u8, sety: &[&str], expected_out: &str) {
    let board = create_board(board_size, sety, &[]);
    assert_eq!(board.serialize(), expected_out.replace("X", "B"));
}

fn test_seto(board_size: u8, seto: &[&str], expected_out: &str) {
    let board = create_board(board_size, &[], seto);
    assert_eq!(board.serialize(), expected_out.replace("O", "W"));
}

// Init board =======================================================
// `init_board {n}` must create an nxn blank board

#[test]
fn test_init_board_1() {
    test_init_board(1)
}
#[test]
fn test_init_board_2() {
    test_init_board(2)
}
#[test]
fn test_init_board_3() {
    test_init_board(3)
}
#[test]
fn test_init_board_8() {
    test_init_board(8)
}
#[test]
fn test_init_board_11() {
    test_init_board(11)
}
#[test]
fn test_init_board_26() {
    test_init_board(26)
}

// Set your tile ====================================================
// `sety {coord}` sets your tile at coordinate {coord}.
// a1 == (0,0)
// a2 == (0,1)
// c12 == (2,11)
// Only a single letter is allowed, followed by up to 2 digits. The
// coordinates ARE 1 indexed.

#[test]
fn test_set_yours_a1() {
    let board_size = 3;
    let set_coords = ["a1"];
    let expected_out = "X..|...|...|";

    test_sety(board_size, &set_coords, &expected_out)
}

#[test]
fn test_set_yours_c8() {
    let board_size = 10;
    let set_coords = ["c8"];
    let expected_out = "\
        ..........|\
        ..........|\
        .......X..|\
        ..........|\
        ..........|\
        ..........|\
        ..........|\
        ..........|\
        ..........|\
        ..........|\
    ";

    test_sety(board_size, &set_coords, &expected_out)
}

#[test]
fn test_set_yours_rows() {
    let board_size = 3;
    let set_coords = ["a1", "b1", "c1"];
    let expected_out = "X..|X..|X..|";

    test_sety(board_size, &set_coords, &expected_out)
}

#[test]
fn test_set_yours_fill() {
    let board_size = 3;
    let set_coords = ["a1", "a2", "a3", "b1", "b2", "b3", "c1", "c2", "c3"];
    let expected_out = "XXX|XXX|XXX|";

    test_sety(board_size, &set_coords, &expected_out)
}

#[test]
fn test_set_yours_diagonal() {
    let board_size = 3;
    let set_coords = ["a1", "b2", "c3"];
    let expected_out = "X..|.X.|..X|";

    test_sety(board_size, &set_coords, &expected_out)
}

#[test]
fn test_set_yours_twice_on_same_spot() {
    let board_size = 3;
    let set_coords = ["a1", "a1", "c3"];
    let expected_out = "X..|...|..X|";

    test_sety(board_size, &set_coords, &expected_out)
}

#[test]
fn test_set_yours_big_diagonal() {
    let board_size = 12;
    let set_coords = [
        "a1", "b2", "c3", "d4", "e5", "f6", "g7", "h8", "i9", "j10", "k11", "l12",
    ];
    let expected_out = "\
        X...........|\
        .X..........|\
        ..X.........|\
        ...X........|\
        ....X.......|\
        .....X......|\
        ......X.....|\
        .......X....|\
        ........X...|\
        .........X..|\
        ..........X.|\
        ...........X|\
    ";

    test_sety(board_size, &set_coords, &expected_out)
}

#[test]
fn test_set_yours_big_fill() {
    let board_size = 12;
    let mut set_coords = Vec::new();

    for letter in ['a', 'b', 'c', 'd', 'e', 'f', 'g', 'h', 'i', 'j', 'k', 'l'].iter() {
        for number in 1..=12 {
            set_coords.push(format!("{}{}", letter, number));
        }
    }

    let refs: Vec<&str> = set_coords.iter().map(|s| s.as_str()).collect();
    let expected_out = "XXXXXXXXXXXX|".repeat(12);
    test_sety(board_size, &refs, &expected_out)
}

// Set other player's tile ==========================================
// `seto {coord}` sets the other player's tile at coordinate {coord}.

#[test]
fn test_set_others_a1() {
    let board_size = 3;
    let set_coords = ["a1"];
    let expected_out = "O..|...|...|";

    test_seto(board_size, &set_coords, &expected_out)
}

#[test]
fn test_set_others_c8() {
    let board_size = 10;
    let set_coords = ["c8"];
    let expected_out = "\
        ..........|\
        ..........|\
        .......O..|\
        ..........|\
        ..........|\
        ..........|\
        ..........|\
        ..........|\
        ..........|\
        ..........|\
    ";

    test_seto(board_size, &set_coords, &expected_out)
}

#[test]
fn test_set_others_rows() {
    let board_size = 3;
    let set_coords = ["a1", "b1", "c1"];
    let expected_out = "O..|O..|O..|";

    test_seto(board_size, &set_coords, &expected_out)
}

#[test]
fn test_set_others_fill() {
    let board_size = 3;
    let set_coords = ["a1", "a2", "a3", "b1", "b2", "b3", "c1", "c2", "c3"];
    let expected_out = "OOO|OOO|OOO|";

    test_seto(board_size, &set_coords, &expected_out)
}

#[test]
fn test_set_others_diagonal() {
    let board_size = 3;
    let set_coords = ["a1", "b2", "c3"];
    let expected_out = "O..|.O.|..O|";

    test_seto(board_size, &set_coords, &expected_out)
}

#[test]
fn test_set_others_twice_on_same_spot() {
    let board_size = 3;
    let set_coords = ["a1", "a1", "c3"];
    let expected_out = "O..|...|..O|";

    test_seto(board_size, &set_coords, &expected_out)
}

#[test]
fn test_set_others_big_diagonal() {
    let board_size = 12;
    let set_coords = [
        "a1", "b2", "c3", "d4", "e5", "f6", "g7", "h8", "i9", "j10", "k11", "l12",
    ];
    let expected_out = "\
        O...........|\
        .O..........|\
        ..O.........|\
        ...O........|\
        ....O.......|\
        .....O......|\
        ......O.....|\
        .......O....|\
        ........O...|\
        .........O..|\
        ..........O.|\
        ...........O|\
    ";

    test_seto(board_size, &set_coords, &expected_out)
}

#[test]
fn test_set_others_big_fill() {
    let board_size = 12;
    let mut set_coords = Vec::new();

    for letter in ['a', 'b', 'c', 'd', 'e', 'f', 'g', 'h', 'i', 'j', 'k', 'l'].iter() {
        for number in 1..=12 {
            set_coords.push(format!("{}{}", letter, number));
        }
    }

    let refs: Vec<&str> = set_coords.iter().map(|s| s.as_str()).collect();
    let expected_out = "OOOOOOOOOOOO|".repeat(12);
    test_seto(board_size, &refs, &expected_out)
}

// Unsetting tiles ==================================================
// `unset {coord}` clears the tile in a spot

#[test]
fn test_unset_tiles() {
    let board_size = 4;
    let sety = ["a1", "a2", "d3", "d4"];
    let seto = ["d1", "d2", "a3", "a4"];

    let mut board = create_board(board_size, &sety, &seto);
    assert_eq!(
        board.serialize(),
        "XXOO|....|....|OOXX|".replace("X", "B").replace("O", "W")
    );

    for coord in ["a2", "a3", "d2", "d3"].iter() {
        board.set_move(coord, Tile::Empty);
    }
    assert_eq!(
        board.serialize(),
        "X..O|....|....|O..X|".replace("X", "B").replace("O", "W")
    );

    for coord in ["a1", "a4", "d1", "d4"].iter() {
        board.set_move(coord, Tile::Empty);
    }
    assert_eq!(board.serialize(), "....|....|....|....|");
}

#[test]
fn test_unset_leave_others_untouched() {
    let board_size = 3;
    let sety = ["a1", "a2", "c2", "c3"];
    let seto = ["a3", "b1", "b2", "b3", "c1"];

    let mut board = create_board(board_size, &sety, &seto);
    let fix = |s: &str| s.replace("X", "B").replace("O", "W");

    assert_eq!(board.serialize(), fix("XXO|OOO|OXX|"));

    board.set_move("b2", Tile::Empty);
    assert_eq!(board.serialize(), fix("XXO|O.O|OXX|"));

    board.set_move("a2", Tile::Empty);
    assert_eq!(board.serialize(), fix("X.O|O.O|OXX|"));

    board.set_move("c3", Tile::Empty);
    assert_eq!(board.serialize(), fix("X.O|O.O|OX.|"));

    board.set_move("b1", Tile::Empty);
    assert_eq!(board.serialize(), fix("X.O|..O|OX.|"));
}

#[test]
fn test_unset_on_empty_cell() {
    let board_size = 3;
    let sety = ["a1"];
    let seto = ["c3"];

    let mut board = create_board(board_size, &sety, &seto);
    assert_eq!(
        board.serialize(),
        "X..|...|..O|".replace("X", "B").replace("O", "W")
    );

    board.set_move("a1", Tile::Empty);
    board.set_move("a1", Tile::Empty);
    board.set_move("c3", Tile::Empty);
    board.set_move("c3", Tile::Empty);
    board.set_move("c1", Tile::Empty);

    assert_eq!(board.serialize(), "...|...|...|");
}

// `init_board` should clear the board of all tiles
#[test]
fn test_init_clear() {
    let mut board = create_board(4, &["a1", "a2"], &["b1", "b2"]);
    assert_eq!(
        board.serialize(),
        "XX..|OO..|....|....|".replace("X", "B").replace("O", "W")
    );

    board = Board::new(4);
    assert_eq!(board.serialize(), "....|....|....|....|");

    board.set_move("a3", Tile::Black);
    assert_eq!(board.serialize(), "..X.|....|....|....|".replace("X", "B"));

    board = Board::new(26);
    assert_eq!(board.serialize(), "..........................|".repeat(26));
}

// Check for identifying win ========================================
// A full top row is a win for the horizontal (White) player, a full left
// column one for the vertical (Black) player.

#[test]
fn test_no_win_blank() {
    for size in [1, 3, 8, 20, 26] {
        let board = Board::new(size);
        assert_eq!(board.has_win(), Tile::Empty);
    }
}

#[test]
fn test_row_win_yours_small() {
    let size = 3;
    let coords = ["a1", "a2", "a3"];

    let mut board = Board::new(size);
    for coord in coords.iter() {
        board.set_move(coord, Tile::White);
    }
    assert_eq!(board.has_win(), Tile::White);
}

#[test]
fn test_column_win_others_small() {
    let size = 3;
    let coords = ["a1", "b1", "c1"];

    let mut board = Board::new(size);
    for coord in coords.iter() {
        board.set_move(coord, Tile::Black);
    }
    assert_eq!(board.has_win(), Tile::Black);
}

#[test]
fn test_win_others_big() {
    let size = 11;
    let coords = [
        "a3", "b3", "c3", "c4", "b5", "b6", "b7", "b8", "b9", "b10", "b11", "c11", "d11", "e11",
        "f10", "g9", "h9", "i8", "j8", "j9", "j10", "j11", "k11",
    ];

    let mut board = Board::new(size);
    for coord in coords.iter() {
        board.set_move(coord, Tile::Black);
    }
    assert_eq!(board.has_win(), Tile::Black);
}
