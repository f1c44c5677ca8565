use minesweeper::{Cell, GameBoard};

/// How many frontier cells a permute step would enumerate over: unknown
/// cells with at least one revealed nonzero number neighbor.
fn frontier_size(board: &GameBoard) -> usize {
    let mut n = 0;
    for y in 0..board.height {
        for x in 0..board.width {
            if board.grid.get_cell(x as i16, y as i16) == Some(Cell::Unknown)
                && !board.grid.adj_number(x, y).unwrap().is_empty()
            {
                n += 1;
            }
        }
    }
    n
}

/// Deterministic step convergence: repeated calls eventually report no
/// progress, and further calls stay no-ops.
#[test]
fn simple_step_converges() {
    let mut board = GameBoard::from_str(
        "B  1  0  0",
        "?  1  0  0",
    )
    .unwrap();
    let mut rounds = 0;
    while board.simple_solve_step().unwrap() {
        rounds += 1;
        assert!(rounds <= 4, "the deterministic step must reach a fixed point");
    }
    let settled = board.grid.clone();
    assert!(!board.simple_solve_step().unwrap());
    assert!(!board.simple_solve_step().unwrap());
    assert_eq!(board.grid, settled);
    assert!(board.is_solved().unwrap());
}

/// The constraint step flags a forced bomb and reveals a forced safe cell.
#[test]
fn permute_step_resolves_forced_cells() {
    // the revealed 1 already sees its bomb as the only unknown next to
    // it, while the revealed 0 rules the other unknown out: the first
    // frontier cell is a forced bomb, the second a forced safe reveal
    let mut board = GameBoard::from_str(
        "B  1  0  0",
        "?  1  ?  0",
    )
    .unwrap();
    let changed = board.permute_solve_step().unwrap();
    assert!(changed);
    assert_eq!(board.grid.get_cell(0, 0).unwrap(), Cell::Flag);
    assert_eq!(board.grid.get_cell(2, 0).unwrap(), Cell::Number(0));
    assert!(board.is_solved().unwrap());
}

/// A stalled position with several equally valid bomb placements makes no
/// progress rather than guessing.
#[test]
fn permute_step_no_guessing() {
    let mut board = GameBoard::from_str(
        "1  1
B  1",
        "?  ?
?  1",
    )
    .unwrap();
    // the single revealed 1 admits three single-bomb patterns: nothing is
    // forced either way
    let changed = board.permute_solve_step().unwrap();
    assert!(!changed);
    assert_eq!(board.grid.get_cell(0, 0).unwrap(), Cell::Unknown);
    assert_eq!(board.grid.get_cell(0, 1).unwrap(), Cell::Unknown);
    assert_eq!(board.grid.get_cell(1, 1).unwrap(), Cell::Unknown);
}

/// A frontier beyond the enumeration ceiling is rejected as too complex.
#[test]
fn permute_step_too_complex() {
    let mut solved_rows: Vec<&str> = Vec::new();
    let top = "B  B  B  B  B  B  B  B  B  B  B  B  B  B  B  B  B  B  B  B  B  B";
    let bottom = "2  3  3  3  3  3  3  3  3  3  3  3  3  3  3  3  3  3  3  3  3  2";
    solved_rows.push(top);
    solved_rows.push(bottom);
    let solved = solved_rows.join("\n");
    let player = format!(
        "{}\n{}",
        "?  ?  ?  ?  ?  ?  ?  ?  ?  ?  ?  ?  ?  ?  ?  ?  ?  ?  ?  ?  ?  ?", bottom
    );
    let mut board = GameBoard::from_str(&solved, &player).unwrap();
    assert_eq!(frontier_size(&board), 22);
    let err = board.permute_solve_step().unwrap_err();
    assert_eq!(err, "too complex");
}

/// Constraint step soundness on a concrete board: everything it flags is a
/// ground-truth bomb and everything it reveals is ground-truth safe.
#[test]
fn permute_step_sound() {
    let mut board = GameBoard::from_str(
        "B  1  0  0",
        "?  1  ?  0",
    )
    .unwrap();
    let before = board.grid.clone();
    board.permute_solve_step().unwrap();
    for y in 0..1i16 {
        for x in 0..4i16 {
            let now = board.grid.get_cell(x, y).unwrap();
            let was = before.get_cell(x, y).unwrap();
            if now == was {
                continue;
            }
            let truth = board.solved_grid.get_cell(x, y).unwrap();
            if now == Cell::Flag {
                assert_eq!(truth, Cell::Bomb, "a new flag must sit on a bomb");
            } else {
                assert_ne!(truth, Cell::Bomb, "a revealed cell must be safe");
                assert_eq!(now, truth, "a revealed cell shows its ground truth");
            }
        }
    }
}

/// The orchestrator solves a fully deterministic board and reports the
/// strategy used.
#[test]
fn strategy_simple_solves() {
    let board = GameBoard::from_str(
        "B  1  0  0",
        "?  ?  ?  ?",
    )
    .unwrap();
    let summary = minesweeper::strategy_simple(board, (3, 0)).unwrap();
    let summary = summary.expect("the board is solvable without guessing");
    assert!(summary.len() >= 1);
    for entry in &summary {
        assert_eq!(entry[0], "basic");
        assert!(entry.len() <= 2);
        if entry.len() == 2 {
            assert_eq!(entry[1], "permute");
        }
    }
}

/// The orchestrator reports an ambiguous position as stuck rather than
/// guessing.
#[test]
fn strategy_simple_stuck() {
    let board = GameBoard::from_str(
        "1  1
B  1",
        "?  ?
?  ?",
    )
    .unwrap();
    // any single revealed 1 leaves three equally possible bomb cells
    let outcome = minesweeper::strategy_simple(board, (1, 1)).unwrap();
    assert!(outcome.is_none());
}

/// A 16x16 board with 40 bombs, started from a zero cell and driven to
/// convergence, ends solved, stalls with two consecutive no-progress
/// passes, or stops gracefully at the enumeration ceiling.
#[test]
fn full_board_run_stabilizes() {
    let mut board = GameBoard::new(16, 16, 40).unwrap();

    // find any zero cell of the ground truth to start from
    let mut start: Option<(u8, u8)> = None;
    for y in 0..16u8 {
        for x in 0..16u8 {
            if board.solved_grid.get_cell(x as i16, y as i16) == Some(Cell::Number(0)) {
                start = Some((x, y));
            }
        }
    }
    let Some((sx, sy)) = start else {
        // no zero cell: with 40 bombs on 256 cells this is astronomically
        // rare; nothing to drive in that case
        return;
    };
    board.flood_fill(sx as i16, sy as i16).unwrap();

    let mut stalled_twice = false;
    let mut hit_ceiling = false;
    for _ in 0..512 {
        if board.is_solved().unwrap() {
            break;
        }
        let mut progress = board.simple_solve_step().unwrap();
        if !progress {
            // keep the test's runtime bounded: treat a wide frontier the
            // way the solver treats one beyond its own ceiling
            if frontier_size(&board) > 14 {
                hit_ceiling = true;
                break;
            }
            progress = match board.permute_solve_step() {
                Ok(p) => p,
                Err(e) => {
                    assert_eq!(e, "too complex");
                    hit_ceiling = true;
                    break;
                }
            };
        }
        if !progress {
            // a second pair of calls must also report no progress
            assert!(!board.simple_solve_step().unwrap());
            let again = match board.permute_solve_step() {
                Ok(p) => p,
                Err(e) => {
                    assert_eq!(e, "too complex");
                    hit_ceiling = true;
                    break;
                }
            };
            assert!(!again, "a stalled board must stay stalled");
            stalled_twice = true;
            break;
        }
    }
    let solved = board.is_solved().unwrap();
    assert!(solved || stalled_twice || hit_ceiling);

    // whatever happened, the run never revealed a bomb and never flagged a
    // safe cell wrongly against the ground truth it started from
    for y in 0..16i16 {
        for x in 0..16i16 {
            let shown = board.grid.get_cell(x, y).unwrap();
            let truth = board.solved_grid.get_cell(x, y).unwrap();
            match shown {
                Cell::Unknown => {}
                Cell::Flag => assert_eq!(truth, Cell::Bomb),
                other => assert_eq!(other, truth),
            }
        }
    }
}
