use minesweeper::{Cell, GameBoard, Grid};

const FIXTURE: &str = "?  ?  F
?  B  ?
0  ?  5";

/// The plain text encoding: single spaces within rows, newlines between
/// rows, top storage row first.
#[test]
fn to_string_exact() {
    let grid = Grid::from_str(FIXTURE).unwrap();
    assert_eq!(grid.to_string(), "? ? F\n? B ?\n0 ? 5");

    let tiny = Grid::from_str("*  8").unwrap();
    assert_eq!(tiny.to_string(), "* 8");
}

/// Round trip: parsing a rendered board reproduces an equal grid.
#[test]
fn text_round_trip() {
    let grid = Grid::from_str(FIXTURE).unwrap();
    let back = Grid::from_str(&grid.to_string()).unwrap();
    assert_eq!(grid, back);

    // a freshly generated board round-trips too, on both of its grids
    let board = GameBoard::new(7, 5, 9).unwrap();
    let solved_back = Grid::from_str(&board.solved_grid.to_string()).unwrap();
    assert_eq!(board.solved_grid, solved_back);
    let player_back = Grid::from_str(&board.grid.to_string()).unwrap();
    assert_eq!(board.grid, player_back);
}

#[test]
fn from_str_unknown_token() {
    assert!(Grid::from_str("1  x  2").is_err());
    assert!(Grid::from_str("12").is_err());
}

#[test]
fn from_str_ragged_rows() {
    // three tokens against an inferred width of two
    assert!(Grid::from_str("1  2\n3").is_err());
    // a short middle row misaligns the reshape
    assert!(Grid::from_str("1  2  3\n4  5\n6").is_err());
}

#[test]
fn from_str_oversized() {
    let tall = "0\n".repeat(256) + "0";
    assert!(Grid::from_str(&tall).is_err());

    let mut wide = String::new();
    for _ in 0..256 {
        wide.push_str("0 ");
    }
    assert!(Grid::from_str(&wide).is_err());
}

/// Every token parses to its cell, and spacing is flexible on input.
#[test]
fn from_str_tokens() {
    let grid = Grid::from_str("0 1 2 3 4 5 6 7 8 B F ? *").unwrap();
    let expected = vec![
        Cell::Number(0),
        Cell::Number(1),
        Cell::Number(2),
        Cell::Number(3),
        Cell::Number(4),
        Cell::Number(5),
        Cell::Number(6),
        Cell::Number(7),
        Cell::Number(8),
        Cell::Bomb,
        Cell::Flag,
        Cell::Unknown,
        Cell::Asterix,
    ];
    for (x, want) in expected.iter().enumerate() {
        assert_eq!(grid.get_cell(x as i16, 0).unwrap(), *want);
    }

    let spaced = Grid::from_str("  1    2  \n  3    4  ").unwrap();
    assert_eq!(spaced.get_cell(0, 1).unwrap(), Cell::Number(1));
    assert_eq!(spaced.get_cell(1, 0).unwrap(), Cell::Number(4));
}
