use minesweeper::{Cell, GameBoard, Grid};

const FIXTURE: &str = "?  ?  F
?  B  ?
0  ?  5";

const BLANK_3X3: &str = "?  ?  ?
?  ?  ?
?  ?  ?";

fn bomb_count(grid: &Grid<Cell>) -> usize {
    let mut it = grid.get_iter();
    let mut n = 0;
    while let Some(cell) = it.next() {
        if cell.val == Cell::Bomb {
            n += 1;
        }
    }
    n
}

/// Ground-truth consistency: every non-bomb cell of a constructed board
/// counts the bombs among its neighbors.
#[test]
fn from_numbers_cells() {
    let solved = Grid::from_str(
        "0  0  0
?  B  ?
0  0  0",
    )
    .unwrap();
    let board = GameBoard::from(solved).unwrap();

    for y in 0..3i16 {
        for x in 0..3i16 {
            let cell = board.solved_grid.get_cell(x, y).unwrap();
            if cell == Cell::Bomb {
                continue;
            }
            let bombs = board.solved_grid.adj_bombs(x as u8, y as u8).unwrap();
            assert_eq!(cell, Cell::Number(bombs.len() as u8));
        }
    }
    // the single centre bomb gives every other cell exactly one bomb neighbor
    assert_eq!(board.solved_grid.get_cell(0, 0).unwrap(), Cell::Number(1));
    assert_eq!(board.solved_grid.get_cell(2, 2).unwrap(), Cell::Number(1));
    assert_eq!(board.solved_grid.get_cell(1, 1).unwrap(), Cell::Bomb);
    assert_eq!(board.num_bombs, 1);
    assert_eq!(bomb_count(&board.solved_grid), 1);
    // the player grid starts fully hidden
    for y in 0..3i16 {
        for x in 0..3i16 {
            assert_eq!(board.grid.get_cell(x, y).unwrap(), Cell::Unknown);
        }
    }
}

/// A random board holds exactly the requested number of bombs and a
/// consistent ground truth.
#[test]
fn new_board_counts() {
    let board = GameBoard::new(4, 4, 5).unwrap();
    assert_eq!(bomb_count(&board.solved_grid), 5);
    assert_eq!(board.num_bombs, 5);
    for y in 0..4i16 {
        for x in 0..4i16 {
            let cell = board.solved_grid.get_cell(x, y).unwrap();
            if cell != Cell::Bomb {
                let bombs = board.solved_grid.adj_bombs(x as u8, y as u8).unwrap();
                assert_eq!(cell, Cell::Number(bombs.len() as u8));
            }
            assert_eq!(board.grid.get_cell(x, y).unwrap(), Cell::Unknown);
        }
    }
}

#[test]
fn new_board_too_many_bombs() {
    assert!(GameBoard::new(2, 2, 5).is_err());
    assert!(GameBoard::new(0, 3, 0).is_err());
    assert!(GameBoard::new(3, 0, 0).is_err());
}

#[test]
fn from_str_dimension_mismatch() {
    let r = GameBoard::from_str(FIXTURE, "?  ?\n?  ?");
    assert!(r.is_err());
}

/// The 3x3 fixture: the flagged neighborhood of the bomb holds exactly one
/// flag, and the left edge cell has none.
#[test]
fn fixture_flag_neighborhoods() {
    let board = GameBoard::from_str(FIXTURE, BLANK_3X3).unwrap();
    assert_eq!(board.solved_grid.adj_flags(1, 1).unwrap(), vec![(2, 2)]);
    assert_eq!(board.solved_grid.adj_flags(0, 1).unwrap(), vec![]);
    assert_eq!(board.solved_grid.adj_bombs(0, 2).unwrap(), vec![(1, 1)]);
}

/// Flood-fill monotonicity: repeating a flood fill changes nothing more,
/// revealed cells keep their values, and no ground-truth bomb is revealed.
#[test]
fn flood_fill_monotone() {
    let solved = Grid::from_str(
        "0  0  1
0  1  2
0  1  B",
    )
    .unwrap();
    let mut board = GameBoard::from(solved).unwrap();

    board.flood_fill(0, 2).unwrap();
    let first = board.grid.clone();
    // the zero region and its boundary are revealed; the bomb is not
    assert_eq!(board.grid.get_cell(0, 2).unwrap(), Cell::Number(0));
    assert_eq!(board.grid.get_cell(2, 2).unwrap(), Cell::Number(0));
    assert_eq!(board.grid.get_cell(1, 1).unwrap(), Cell::Number(1));
    assert_eq!(board.grid.get_cell(2, 0).unwrap(), Cell::Unknown);
    assert_eq!(board.solved_grid.get_cell(2, 0).unwrap(), Cell::Bomb);

    board.flood_fill(0, 2).unwrap();
    assert_eq!(board.grid, first);
    board.flood_fill(2, 0).unwrap();
    assert_eq!(board.grid.get_cell(2, 0).unwrap(), Cell::Unknown);
    assert_eq!(board.grid, first);
}

/// Flood fill is a no-op out of bounds and on revealed cells.
#[test]
fn flood_fill_noop_cases() {
    let mut board = GameBoard::from_str(FIXTURE, BLANK_3X3).unwrap();
    let before = board.grid.clone();
    board.flood_fill(-1, 0).unwrap();
    board.flood_fill(5, 5).unwrap();
    // the ground truth at (1, 1) is a bomb: never revealed
    board.flood_fill(1, 1).unwrap();
    assert_eq!(board.grid, before);
}

/// Chord precondition: the board changes only when the target shows a
/// nonzero number matched exactly by its flag count.
#[test]
fn chord_only_when_satisfied() {
    let solved = Grid::from_str(
        "1  1
B  1",
    )
    .unwrap();
    let mut board = GameBoard::from(solved).unwrap();
    board.flood_fill(1, 1).unwrap();
    assert_eq!(board.grid.get_cell(1, 1).unwrap(), Cell::Number(1));

    // no flags yet: chording the revealed 1 is a no-op
    let before = board.grid.clone();
    board.chord(1, 1).unwrap();
    assert_eq!(board.grid, before);
    // chording an unknown, an out-of-bounds cell, or a flag is a no-op
    board.chord(0, 0).unwrap();
    board.chord(9, 9).unwrap();
    assert_eq!(board.grid, before);

    // with the bomb flagged, the chord reveals the rest
    board.place_flag(0, 0).unwrap();
    board.chord(1, 1).unwrap();
    assert_eq!(board.grid.get_cell(0, 1).unwrap(), Cell::Number(1));
    assert_eq!(board.grid.get_cell(1, 0).unwrap(), Cell::Number(1));
    assert!(board.is_solved().unwrap());
}

/// Deterministic flagging: a number whose undecided neighborhood matches
/// it exactly flags every unknown member.
#[test]
fn place_flags_deduction() {
    let solved = Grid::from_str(
        "1  1
B  1",
    )
    .unwrap();
    let mut board = GameBoard::from(solved).unwrap();
    board.flood_fill(1, 0).unwrap();
    board.flood_fill(0, 1).unwrap();
    board.flood_fill(1, 1).unwrap();
    // three revealed 1s, one hidden bomb: every number's undecided set is {(0,0)}
    board.place_flags(1, 0).unwrap();
    assert_eq!(board.grid.get_cell(0, 0).unwrap(), Cell::Flag);
    assert!(board.is_solved().unwrap());
}

#[test]
fn place_flag_out_of_bounds() {
    let mut board = GameBoard::from_str(FIXTURE, BLANK_3X3).unwrap();
    assert!(board.place_flag(7, 0).is_err());
    assert!(board.place_flag(0, 0).is_ok());
    assert_eq!(board.grid.get_cell(0, 0).unwrap(), Cell::Flag);
}

#[test]
fn is_solved_cases() {
    let board = GameBoard::from_str(FIXTURE, BLANK_3X3).unwrap();
    // numbers still hidden: not solved
    assert!(!board.is_solved().unwrap());

    // every number revealed, bombs hidden or flagged: solved
    let done = GameBoard::from_str(
        "1  B
1  1",
        "1  ?
1  1",
    )
    .unwrap();
    assert!(done.is_solved().unwrap());

    // a revealed cell disagreeing with the ground truth: not solved
    let wrong = GameBoard::from_str(
        "1  B
1  1",
        "2  ?
1  1",
    )
    .unwrap();
    assert!(!wrong.is_solved().unwrap());
}

/// The counter grid caches each ground-truth number and decrements only
/// positive counters.
#[test]
fn flag_adj_cache_and_decr() {
    let mut board = GameBoard::from_str(FIXTURE, BLANK_3X3).unwrap();
    assert_eq!(board.flag_adj_grid.get_cell(0, 0).unwrap(), Some(0));
    assert_eq!(board.flag_adj_grid.get_cell(2, 0).unwrap(), Some(5));
    assert_eq!(board.flag_adj_grid.get_cell(1, 1).unwrap(), None);

    board.flag_adj_grid.decr(2, 0).unwrap();
    assert_eq!(board.flag_adj_grid.get_cell(2, 0).unwrap(), Some(4));
    assert!(board.flag_adj_grid.decr(0, 0).is_err());
    // decrementing an empty or out-of-bounds cell is an accepted no-op
    assert!(board.flag_adj_grid.decr(1, 1).is_ok());
    assert!(board.flag_adj_grid.decr(9, 9).is_ok());
}

#[test]
fn grid_diff_positions() {
    let a = Grid::from_str("1  2\n3  4").unwrap();
    let b = Grid::from_str("1  2\n3  4").unwrap();
    assert_eq!(a.diff(&b).unwrap(), vec![]);

    let c = Grid::from_str("1  2\n0  4").unwrap();
    assert_eq!(a.diff(&c).unwrap(), vec![(0, 0)]);

    let d = Grid::from_str("1  2  3\n4  5  6").unwrap();
    assert!(a.diff(&d).is_err());
}

#[test]
fn valid_flags_cases() {
    let ok = Grid::from_str("F  1").unwrap();
    assert!(ok.valid_flags());

    let bad = Grid::from_str(FIXTURE).unwrap();
    // the 5 has no flagged neighbor
    assert!(!bad.valid_flags());
}
