//! The orchestrator: from a starting reveal, alternate the deterministic
//! step and the constraint-satisfaction step until the board is solved or
//! neither makes progress.

use vstd::prelude::*;

use crate::board::{spec_flood_fill, spec_is_solved, GameBoard};
use crate::cell::Cell;
use crate::grid::GridView;
use crate::solve::{
    and_upto, apply_solve, lemma_apply_solve_frame, lemma_frontier_members,
    lemma_simple_step_frame, or_upto, spec_frontier, spec_simple_step, valid_patterns_upto,
};

verus! {

/// How a solve run ends: the board reached the solved predicate, both
/// steps stalled, or the frontier exceeded the enumeration ceiling.
pub enum RunOutcome {
    Solved,
    Stuck,
    Failed,
}

/// The grid after one constraint-satisfaction step (no progress when no
/// valid pattern exists).
pub open spec fn permute_grid(solved: GridView<Cell>, g: GridView<Cell>) -> GridView<Cell> {
    let f = spec_frontier(g);
    let end = (1u128 << (f.len() as u128)) as int;
    let valids = valid_patterns_upto(g, f, end);
    if valids.len() == 0 {
        g
    } else {
        apply_solve(
            solved,
            g,
            f,
            and_upto(valids, ((1u128 << (f.len() as u128)) - 1) as u128, valids.len() as int),
            or_upto(valids, 0u128, valids.len() as int),
            f.len() as int,
        )
    }
}

/// The outcome of running the solve loop from player grid `g`: the
/// deterministic step, then — only when it stalls — the constraint step,
/// until the board is solved, neither step changes anything, or the
/// frontier exceeds the ceiling.
pub open spec fn run_from(solved: GridView<Cell>, g: GridView<Cell>) -> RunOutcome
    decreases g.count(Cell::Unknown),
{
    if !g.wf() {
        RunOutcome::Stuck
    } else {
        let g1 = spec_simple_step(solved, g);
        if g1 != g {
            if spec_is_solved(solved, g1) {
                RunOutcome::Solved
            } else {
                proof {
                    lemma_simple_step_frame(solved, g);
                }
                run_from(solved, g1)
            }
        } else {
            let f = spec_frontier(g);
            if f.len() > 20 {
                RunOutcome::Failed
            } else {
                let g2 = permute_grid(solved, g);
                if spec_is_solved(solved, g2) {
                    RunOutcome::Solved
                } else if g2 == g {
                    RunOutcome::Stuck
                } else {
                    proof {
                        lemma_run_step_facts(solved, g);
                    }
                    run_from(solved, g2)
                }
            }
        }
    }
}

/// The constraint step keeps the shape, touches only `Unknown` cells, and
/// strictly shrinks the number of `Unknown` cells whenever it changes the
/// grid.
pub proof fn lemma_run_step_facts(solved: GridView<Cell>, g: GridView<Cell>)
    requires
        g.wf(),
    ensures
        ({
            let g2 = permute_grid(solved, g);
            &&& g2.wf()
            &&& g2.width == g.width
            &&& g2.height == g.height
            &&& g2.count(Cell::Unknown) <= g.count(Cell::Unknown)
            &&& (g2 != g ==> g2.count(Cell::Unknown) < g.count(Cell::Unknown))
        }),
{
    let f = spec_frontier(g);
    assert(0 <= g.width * g.height) by (nonlinear_arith)
        requires
            g.width >= 0,
            g.height >= 0,
    ;
    lemma_frontier_members(g, g.width, g.width * g.height);
    let end = (1u128 << (f.len() as u128)) as int;
    let valids = valid_patterns_upto(g, f, end);
    if valids.len() > 0 {
        lemma_apply_solve_frame(
            solved,
            g,
            f,
            and_upto(valids, ((1u128 << (f.len() as u128)) - 1) as u128, valids.len() as int),
            or_upto(valids, 0u128, valids.len() as int),
            f.len() as int,
        );
    }
}

/// Drives repeated solve steps from a starting reveal and reports, on
/// success, which strategies each iteration used (the deterministic pass
/// alone, or the constraint pass after it stalled).
pub fn strategy_simple(board: GameBoard, starting_cell: (u8, u8)) -> (r: Result<
    Option<Vec<Vec<&'static str>>>,
    String,
>)
    requires
        board.wf(),
    ensures
        ({
            let solved_v = board.solved_grid@;
            let g_start = spec_flood_fill(
                solved_v,
                board.grid@,
                starting_cell.0 as int,
                starting_cell.1 as int,
            );
            &&& ((r matches Ok(s) && s is Some) <==> run_from(solved_v, g_start)
                == RunOutcome::Solved)
            &&& ((r matches Ok(s) && s is None) <==> run_from(solved_v, g_start)
                == RunOutcome::Stuck)
            &&& (r is Err <==> run_from(solved_v, g_start) == RunOutcome::Failed)
            &&& (r matches Ok(Some(s)) ==> forall|i: int|
                0 <= i < s@.len() ==> ((#[trigger] s@[i])@.len() == 1 || s@[i]@.len() == 2)
                    && s@[i]@[0]@ == "basic"@ && (s@[i]@.len() == 2 ==> s@[i]@[1]@ == "permute"@))
        }),
{
    let mut game_board = board;
    let ghost board0 = game_board;
    let ghost solved_v = game_board.solved_grid@;
    let res = game_board.flood_fill(starting_cell.0 as i16, starting_cell.1 as i16);
    proof {
        assert(res is Ok);
    }
    let ghost g_start = game_board.grid@;

    let mut step_summary: Vec<Vec<&'static str>> = Vec::new();
    let mut is_done = false;
    let mut progress = true;
    while !is_done && progress
        invariant
            game_board.wf(),
            board0 == board,
            solved_v == board0.solved_grid@,
            g_start == spec_flood_fill(
                board0.solved_grid@,
                board0.grid@,
                starting_cell.0 as int,
                starting_cell.1 as int,
            ),
            solved_v == game_board.solved_grid@,
            (!is_done && progress) ==> run_from(solved_v, game_board.grid@) == run_from(
                solved_v,
                g_start,
            ),
            is_done ==> run_from(solved_v, g_start) == RunOutcome::Solved,
            (!is_done && !progress) ==> run_from(solved_v, g_start) == RunOutcome::Stuck,
            forall|i: int|
                0 <= i < step_summary@.len() ==> ((#[trigger] step_summary@[i])@.len() == 1
                    || step_summary@[i]@.len() == 2) && step_summary@[i]@[0]@ == "basic"@ && (
                step_summary@[i]@.len() == 2 ==> step_summary@[i]@[1]@ == "permute"@),
        decreases
                game_board.grid@.count(Cell::Unknown),
                (if progress {
                    1int
                } else {
                    0int
                }),
    {
        let ghost g_cur = game_board.grid@;
        let mut entry: Vec<&'static str> = Vec::new();
        entry.push("basic");
        progress = match game_board.simple_solve_step() {
            Ok(b) => b,
            Err(e) => {
                return Err(e);
            },
        };
        proof {
            lemma_simple_step_frame(solved_v, g_cur);
        }
        let ghost g1 = game_board.grid@;
        if !progress {
            entry.push("permute");
            progress = match game_board.permute_solve_step() {
                Ok(b) => b,
                Err(e) => {
                    proof {
                        assert(run_from(solved_v, g_cur) == RunOutcome::Failed);
                    }
                    return Err(e);
                },
            };
            proof {
                lemma_run_step_facts(solved_v, g_cur);
                assert(game_board.grid@ == permute_grid(solved_v, g_cur));
            }
        }
        step_summary.push(entry);
        is_done = match game_board.is_solved() {
            Ok(b) => b,
            Err(e) => {
                return Err(e);
            },
        };
        proof {
            let g_new = game_board.grid@;
            if g1 != g_cur {
                assert(run_from(solved_v, g_cur) == (if spec_is_solved(solved_v, g1) {
                    RunOutcome::Solved
                } else {
                    run_from(solved_v, g1)
                }));
            } else {
                assert(run_from(solved_v, g_cur) == (if spec_is_solved(solved_v, g_new) {
                    RunOutcome::Solved
                } else if g_new == g_cur {
                    RunOutcome::Stuck
                } else {
                    run_from(solved_v, g_new)
                }));
            }
        }
    }
    if is_done {
        Ok(Some(step_summary))
    } else {
        Ok(None)
    }
}

} // verus!
