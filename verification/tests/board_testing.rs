use hex_referee::board::{Board, Tile};

#[test]
fn setters_getters() {
    let mut board = Board::new(4);

    for r in 0..4 {
        for c in 0..4 {
            assert_eq!(board.get(r, c), Some(Tile::Empty));
        }
    }

    board.set(0, 3, Tile::White);
    assert_eq!(board.get(0, 3), Some(Tile::White));

    board.set(3, 2, Tile::Black);
    assert_eq!(board.get(3, 2), Some(Tile::Black));

    board.set(3, 2, Tile::Empty);
    assert_eq!(board.get(3, 2), Some(Tile::Empty));
}

#[test]
fn adjacent_tiles() {
    let board = Board::new(5);
    {
        let r = 2;
        let c = 2;

        let adjs = board.get_adj(r, c);
        let expected = vec![7, 8, 11, 13, 16, 17];

        assert_eq!(adjs.iter().sum::<usize>(), expected.iter().sum::<usize>());
    }
    {
        let r = 1;
        let c = 4;

        let adjs = board.get_adj(r, c);
        let expected = vec![4, 8, 13, 14];

        assert_eq!(adjs.iter().sum::<usize>(), expected.iter().sum::<usize>());
    }
    {
        let r = 4;
        let c = 4;

        let adjs = board.get_adj(r, c);
        let expected = vec![19, 23];

        assert_eq!(adjs.iter().sum::<usize>(), expected.iter().sum::<usize>());
    }
}

#[test]
fn drawing() {
    let mut board = Board::new(4);

    board.set(0, 0, Tile::Black);
    board.set(1, 1, Tile::Black);
    board.set(2, 2, Tile::Black);
    board.set(3, 3, Tile::Black);

    board.set(3, 0, Tile::White);
    board.set(3, 2, Tile::White);
    board.set(1, 2, Tile::White);

    let expected = "B . . . \n . B W . \n  . . B . \n   W . W B \n------------------";

    assert_eq!(board.render(), expected);

    board.set(0, 1, Tile::Black);
    board.set(0, 2, Tile::Black);
    board.set(0, 3, Tile::Black);

    let expected2 = "B B B B \n . B W . \n  . . B . \n   W . W B \n------------------";

    assert_eq!(board.render(), expected2);
}

#[test]
fn check_win() {
    {
        let mut board = Board::new(4);
        board.set(0, 0, Tile::White);
        board.set(0, 1, Tile::White);
        board.set(0, 2, Tile::White);
        board.set(0, 3, Tile::White);

        assert_eq!(board.has_win(), Tile::White);
    }
    {
        let mut board = Board::new(4);
        board.set(0, 0, Tile::Black);
        board.set(1, 0, Tile::Black);
        board.set(2, 0, Tile::Black);
        board.set(3, 0, Tile::Black);

        assert_eq!(board.has_win(), Tile::Black);
    }
    {
        let mut board = Board::new(4);
        board.set(0, 0, Tile::Black);
        board.set(0, 1, Tile::Black);
        board.set(0, 2, Tile::Black);
        board.set(0, 3, Tile::Black);

        board.set(1, 0, Tile::White);
        board.set(2, 0, Tile::White);
        board.set(3, 0, Tile::White);

        assert_eq!(board.has_win(), Tile::Empty);
    }
    {
        let mut board = Board::new(4);
        board.set(2, 0, Tile::White);
        board.set(2, 1, Tile::White);
        board.set(1, 2, Tile::White);
        board.set(0, 3, Tile::White);

        board.set(1, 1, Tile::Black);
        board.set(2, 2, Tile::Black);
        board.set(1, 3, Tile::Black);
        board.set(3, 2, Tile::Black);

        assert_eq!(board.has_win(), Tile::White);
    }
    {
        let mut board = Board::new(4);
        board.set(3, 0, Tile::White);
        board.set(2, 1, Tile::White);
        board.set(1, 2, Tile::White);
        board.set(0, 3, Tile::White);
        board.set(1, 3, Tile::White);
        board.set(2, 3, Tile::White);
        board.set(3, 3, Tile::White);

        board.set(1, 1, Tile::Black);
        board.set(3, 2, Tile::Black);
        board.set(0, 0, Tile::Black);
        board.set(0, 1, Tile::Black);
        board.set(1, 1, Tile::Black);
        board.set(2, 0, Tile::Black);
        board.set(3, 1, Tile::Black);

        assert_eq!(board.has_win(), Tile::White);

        board.set(2, 1, Tile::Black);
        assert_eq!(board.has_win(), Tile::Black);

        board.set(2, 1, Tile::Empty);
        assert_eq!(board.has_win(), Tile::Empty);
    }
}
