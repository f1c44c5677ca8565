//! The two solving strategies: a deterministic pass (flag what must be a
//! bomb, then chord every satisfied number) and a bounded exhaustive
//! constraint-satisfaction pass over the frontier.

use vstd::prelude::*;

use crate::board::{
    chord_all_upto, flags_all_upto, lemma_change_decreases_unknowns, lemma_chord_all_frame,
    lemma_ff_work_frame, lemma_flags_all_frame, spec_flood_fill, GameBoard,
};
use crate::cell::Cell;
use crate::cellgrid::{grids_equal, nonzero_numbers};
use crate::grid::{lemma_set_at, GridView};

verus! {

/// One deterministic step: a full flagging pass followed by a full chord
/// pass.
pub open spec fn spec_simple_step(solved: GridView<Cell>, g: GridView<Cell>) -> GridView<Cell> {
    chord_all_upto(
        solved,
        flags_all_upto(g, g.width, g.width * g.height),
        g.width,
        g.width * g.height,
    )
}

/// Whether a bit of a candidate bomb pattern is set.
pub open spec fn pattern_bit(p: u128, k: int) -> bool {
    p >> (k as u128) & 1 == 1
}

/// Flags the first `n` frontier positions whose pattern bit is set.
pub open spec fn apply_pattern(
    g: GridView<Cell>,
    list: Seq<(u8, u8)>,
    p: u128,
    n: int,
) -> GridView<Cell>
    decreases n,
{
    if n <= 0 {
        g
    } else {
        let g1 = apply_pattern(g, list, p, n - 1);
        let pos = list[n - 1];
        if pattern_bit(p, n - 1) && g1.in_bounds(pos.0 as int, pos.1 as int) {
            g1.set(pos.0 as int, pos.1 as int, Cell::Flag)
        } else {
            g1
        }
    }
}

/// A candidate bomb pattern is valid when, after flagging the frontier
/// cells its bits select, every revealed number's flag count is met
/// exactly, board-wide.
pub open spec fn pattern_valid(g: GridView<Cell>, list: Seq<(u8, u8)>, p: u128) -> bool {
    apply_pattern(g, list, p, list.len() as int).valid_flags_ok()
}

/// The frontier among the first `n` cells in iteration order: every
/// `Unknown` cell with at least one revealed nonzero number neighbor.
pub open spec fn frontier_upto(g: GridView<Cell>, w: int, n: int) -> Seq<(u8, u8)>
    decreases n,
{
    if n <= 0 || w <= 0 {
        Seq::empty()
    } else {
        let x = (n - 1) % w;
        let y = (n - 1) / w;
        frontier_upto(g, w, n - 1) + if g.at(x, y) == Cell::Unknown && g.adj_count_in(
            x,
            y,
            nonzero_numbers(),
        ) > 0 {
            seq![((x as u8, y as u8))]
        } else {
            Seq::empty()
        }
    }
}

/// The whole frontier of a grid.
pub open spec fn spec_frontier(g: GridView<Cell>) -> Seq<(u8, u8)> {
    frontier_upto(g, g.width, g.width * g.height)
}

/// The valid patterns among `1 .. end`, in increasing order.
pub open spec fn valid_patterns_upto(g: GridView<Cell>, list: Seq<(u8, u8)>, end: int) -> Seq<u128>
    decreases end,
{
    if end <= 1 {
        Seq::empty()
    } else {
        valid_patterns_upto(g, list, end - 1) + if pattern_valid(g, list, (end - 1) as u128) {
            seq![((end - 1) as u128)]
        } else {
            Seq::empty()
        }
    }
}

/// The bitwise AND of a prefix of patterns, from `init`.
pub open spec fn and_upto(ps: Seq<u128>, init: u128, n: int) -> u128
    decreases n,
{
    if n <= 0 {
        init
    } else {
        and_upto(ps, init, n - 1) & ps[n - 1]
    }
}

/// The bitwise OR of a prefix of patterns, from `init`.
pub open spec fn or_upto(ps: Seq<u128>, init: u128, n: int) -> u128
    decreases n,
{
    if n <= 0 {
        init
    } else {
        or_upto(ps, init, n - 1) | ps[n - 1]
    }
}

/// Applies a constraint-step verdict over the first `n` frontier cells:
/// flag where the guaranteed-bomb bit is set, flood-fill where the
/// not-guaranteed-safe bit is clear.
pub open spec fn apply_solve(
    solved: GridView<Cell>,
    g: GridView<Cell>,
    list: Seq<(u8, u8)>,
    flagp: u128,
    safep: u128,
    n: int,
) -> GridView<Cell>
    decreases n,
{
    if n <= 0 {
        g
    } else {
        let g1 = apply_solve(solved, g, list, flagp, safep, n - 1);
        let pos = list[n - 1];
        let g2 = if pattern_bit(flagp, n - 1) && g1.in_bounds(pos.0 as int, pos.1 as int) {
            g1.set(pos.0 as int, pos.1 as int, Cell::Flag)
        } else {
            g1
        };
        if !pattern_bit(safep, n - 1) {
            spec_flood_fill(solved, g2, pos.0 as int, pos.1 as int)
        } else {
            g2
        }
    }
}

impl GameBoard {
    /// One deterministic deduction step: place every forced flag, then
    /// chord every satisfied number, and report whether the player grid
    /// changed.
    pub fn simple_solve_step(&mut self) -> (r: Result<bool, String>)
        requires
            old(self).wf(),
        ensures
            final(self).wf(),
            final(self).same_but_grid(*old(self)),
            final(self).grid@ == spec_simple_step(old(self).solved_grid@, old(self).grid@),
            r == Ok::<bool, String>(final(self).grid@ != old(self).grid@),
    {
        let pre_board = self.grid.duplicate();
        let res1 = self.place_all_flags();
        let res2 = self.chord_all();
        proof {
            assert(res1 is Ok && res2 is Ok);
        }
        Ok(!grids_equal(&pre_board, &self.grid))
    }

    /// Whether flagging the frontier cells a pattern selects leaves every
    /// revealed number with exactly its required flag count.
    fn is_valid_bomb_pattern(&self, potential_bombs: &Vec<(u8, u8)>, pattern: u128) -> (r: Result<
        bool,
        String,
    >)
        requires
            self.wf(),
            potential_bombs@.len() < 128,
            forall|k: int|
                0 <= k < potential_bombs@.len() ==> self.grid@.in_bounds(
                    (#[trigger] potential_bombs@[k]).0 as int,
                    potential_bombs@[k].1 as int,
                ),
        ensures
            r == Ok::<bool, String>(pattern_valid(self.grid@, potential_bombs@, pattern)),
    {
        let ghost g0 = self.grid@;
        let ghost list = potential_bombs@;
        let mut board = self.grid.duplicate();
        let mut i: usize = 0;
        while i < potential_bombs.len()
            invariant
                g0.wf(),
                list == potential_bombs@,
                list.len() < 128,
                i <= list.len(),
                forall|k: int|
                    0 <= k < list.len() ==> g0.in_bounds(
                        (#[trigger] list[k]).0 as int,
                        list[k].1 as int,
                    ),
                board@ == apply_pattern(g0, list, pattern, i as int),
                board@.wf(),
                board@.width == g0.width,
                board@.height == g0.height,
            decreases list.len() - i,
        {
            let ghost pre = board@;
            let set_bit = (pattern >> i) & 1 == 1;
            proof {
                assert(set_bit == pattern_bit(pattern, i as int));
            }
            if set_bit {
                let (x, y) = potential_bombs[i];
                let res = board.set_cell(x as i16, y as i16, Cell::Flag);
                proof {
                    assert(res is Ok);
                    lemma_set_at(pre, x as int, y as int, Cell::Flag);
                }
            }
            i = i + 1;
        }
        Ok(board.valid_flags())
    }
}

impl GameBoard {
    /// The constraint-satisfaction step: collects the frontier (every
    /// `Unknown` cell next to a revealed nonzero number), enumerates every
    /// bomb/safe bit pattern over it, keeps the patterns whose flags meet
    /// every revealed number exactly, and applies the verdict — flag the
    /// cells set in every valid pattern, reveal the cells set in none.
    ///
    /// Fails with a "too complex" outcome when the frontier exceeds the
    /// enumeration ceiling of 20 cells (and with a distinct error over 127,
    /// the widest pattern a 128-bit word can hold); finding no valid
    /// pattern is reported as no progress, not as a failure.
    pub fn permute_solve_step(&mut self) -> (r: Result<bool, String>)
        requires
            old(self).wf(),
        ensures
            final(self).wf(),
            final(self).same_but_grid(*old(self)),
            ({
                let g0 = old(self).grid@;
                let f = spec_frontier(g0);
                &&& (f.len() > 127 ==> r is Err && (r matches Err(m) ==> m@
                    == "too many potential bombs"@) && final(self).grid == old(self).grid)
                &&& (f.len() > 20 && f.len() <= 127 ==> r is Err && (r matches Err(m) ==> m@
                    == "too complex"@) && final(self).grid == old(self).grid)
                &&& (f.len() <= 20 ==> {
                    let end = (1u128 << (f.len() as u128)) as int;
                    let valids = valid_patterns_upto(g0, f, end);
                    &&& (valids.len() == 0 ==> r == Ok::<bool, String>(false) && final(self).grid
                        == old(self).grid)
                    &&& (valids.len() > 0 ==> {
                        let flagp = and_upto(
                            valids,
                            ((1u128 << (f.len() as u128)) - 1) as u128,
                            valids.len() as int,
                        );
                        let safep = or_upto(valids, 0u128, valids.len() as int);
                        &&& final(self).grid@ == apply_solve(
                            old(self).solved_grid@,
                            g0,
                            f,
                            flagp,
                            safep,
                            f.len() as int,
                        )
                        &&& r == Ok::<bool, String>(final(self).grid@ != g0)
                    })
                })
            }),
    {
        let ghost g0 = self.grid@;
        let ghost solved = self.solved_grid@;
        let ghost w = self.width as int;
        let pre_board = self.grid.duplicate();

        let mut potential_bombs: Vec<(u8, u8)> = Vec::new();
        let mut y: u8 = 0;
        while y < self.height
            invariant
                self.wf(),
                self == old(self),
                g0 == self.grid@,
                w == self.width as int,
                y <= self.height,
                potential_bombs@ == frontier_upto(g0, w, y * w),
                forall|k: int|
                    0 <= k < potential_bombs@.len() ==> g0.in_bounds(
                        (#[trigger] potential_bombs@[k]).0 as int,
                        potential_bombs@[k].1 as int,
                    ),
            decreases self.height as int - y,
        {
            let mut x: u8 = 0;
            while x < self.width
                invariant
                    self.wf(),
                    self == old(self),
                    g0 == self.grid@,
                    w == self.width as int,
                    y < self.height,
                    x <= self.width,
                    potential_bombs@ == frontier_upto(g0, w, y * w + x),
                    forall|k: int|
                        0 <= k < potential_bombs@.len() ==> g0.in_bounds(
                            (#[trigger] potential_bombs@[k]).0 as int,
                            potential_bombs@[k].1 as int,
                        ),
                decreases self.width as int - x,
            {
                proof {
                    let n = y * w + x + 1;
                    assert((n - 1) % w == x && (n - 1) / w == y) by (nonlinear_arith)
                        requires
                            0 <= x < w,
                            0 <= y,
                            n - 1 == y * w + x,
                    ;
                }
                let is_unknown = match self.grid.get_cell(x as i16, y as i16) {
                    Some(Cell::Unknown) => true,
                    _ => false,
                };
                if is_unknown {
                    let numbered = match self.grid.adj_number(x, y) {
                        Ok(v) => v,
                        Err(e) => {
                            return Err(e);
                        },
                    };
                    if numbered.len() > 0 {
                        potential_bombs.push((x, y));
                    }
                }
                proof {
                    assert(potential_bombs@ =~= frontier_upto(g0, w, y * w + x + 1));
                }
                x = x + 1;
            }
            proof {
                let yy = y as int;
                assert((yy + 1) * w == yy * w + w) by (nonlinear_arith);
            }
            y = y + 1;
        }
        proof {
            let hh = self.height as int;
            assert(hh * w == w * hh) by (nonlinear_arith);
            assert(potential_bombs@ == spec_frontier(g0));
        }
        let ghost f = potential_bombs@;

        if potential_bombs.len() > 127 {
            return Err("too many potential bombs".to_owned());
        }
        let end_pattern: u128 = 1u128 << (potential_bombs.len() as u32);

        if potential_bombs.len() > 20 {
            return Err("too complex".to_owned());
        }

        let mut valid_patterns: Vec<u128> = Vec::new();
        let mut pattern: u128 = 1;
        proof {
            let s128 = f.len() as u128;
            assert(s128 < 128 ==> 1u128 << s128 >= 1) by (bit_vector);
            assert(end_pattern >= 1);
        }
        while pattern < end_pattern
            invariant
                self.wf(),
                self == old(self),
                g0 == self.grid@,
                f == potential_bombs@,
                f.len() <= 20,
                forall|k: int|
                    0 <= k < f.len() ==> g0.in_bounds(
                        (#[trigger] f[k]).0 as int,
                        f[k].1 as int,
                    ),
                1 <= pattern <= end_pattern,
                end_pattern == 1u128 << (f.len() as u128),
                valid_patterns@ == valid_patterns_upto(g0, f, pattern as int),
            decreases end_pattern - pattern,
        {
            let ok = match self.is_valid_bomb_pattern(&potential_bombs, pattern) {
                Ok(b) => b,
                Err(e) => {
                    return Err(e);
                },
            };
            if ok {
                valid_patterns.push(pattern);
            }
            proof {
                assert(valid_patterns@ =~= valid_patterns_upto(g0, f, pattern as int + 1));
            }
            pattern = pattern + 1;
        }

        if valid_patterns.len() == 0 {
            return Ok(false);
        }

        let mut flag_pattern: u128 = end_pattern - 1;
        let mut safe_pattern: u128 = 0;
        let ghost valids = valid_patterns@;
        let mut k: usize = 0;
        while k < valid_patterns.len()
            invariant
                valids == valid_patterns@,
                k <= valids.len(),
                flag_pattern == and_upto(valids, (end_pattern - 1) as u128, k as int),
                safe_pattern == or_upto(valids, 0u128, k as int),
            decreases valids.len() - k,
        {
            let p = valid_patterns[k];
            flag_pattern = flag_pattern & p;
            safe_pattern = safe_pattern | p;
            k = k + 1;
        }

        let mut i: usize = 0;
        while i < potential_bombs.len()
            invariant
                self.wf(),
                self.same_but_grid(*old(self)),
                solved == self.solved_grid@,
                f == potential_bombs@,
                i <= f.len(),
                f.len() <= 20,
                forall|kk: int|
                    0 <= kk < f.len() ==> g0.in_bounds(
                        (#[trigger] f[kk]).0 as int,
                        f[kk].1 as int,
                    ),
                g0.width == self.grid@.width,
                g0.height == self.grid@.height,
                self.grid@ == apply_solve(solved, g0, f, flag_pattern, safe_pattern, i as int),
            decreases f.len() - i,
        {
            let ghost pre = self.grid@;
            let (x, y) = potential_bombs[i];

            let flag_bit = (flag_pattern >> i) & 1 == 1;
            proof {
                assert(flag_bit == pattern_bit(flag_pattern, i as int));
            }
            if flag_bit {
                let res = self.place_flag(x, y);
                proof {
                    assert(res is Ok);
                }
            }

            let safe_bit = (safe_pattern >> i) & 1 == 1;
            proof {
                assert(safe_bit == pattern_bit(safe_pattern, i as int));
            }
            if !safe_bit {
                let res = self.flood_fill(x as i16, y as i16);
                proof {
                    assert(res is Ok);
                }
            }
            i = i + 1;
        }

        Ok(!grids_equal(&pre_board, &self.grid))
    }
}

/// What a deterministic step can do: only `Unknown` cells change (to flags
/// or revealed truth), so a step that changes anything strictly shrinks the
/// number of `Unknown` cells — iterating it therefore reaches a fixed point
/// within `count(Unknown)` changing steps.
pub proof fn lemma_simple_step_frame(solved: GridView<Cell>, g: GridView<Cell>)
    requires
        g.wf(),
    ensures
        ({
            let r = spec_simple_step(solved, g);
            &&& r.wf()
            &&& r.width == g.width
            &&& r.height == g.height
            &&& forall|x: int, y: int|
                g.in_bounds(x, y) && r.at(x, y) != #[trigger] g.at(x, y) ==> g.at(x, y)
                    == Cell::Unknown && r.at(x, y) != Cell::Unknown
            &&& r.count(Cell::Unknown) <= g.count(Cell::Unknown)
            &&& (r != g ==> r.count(Cell::Unknown) < g.count(Cell::Unknown))
        }),
{
    let total = g.width * g.height;
    lemma_flags_all_frame(g, g.width, total);
    let mid = flags_all_upto(g, g.width, total);
    lemma_chord_all_frame(solved, mid, g.width, total);
    let r = spec_simple_step(solved, g);
    assert forall|x: int, y: int|
        g.in_bounds(x, y) && r.at(x, y) != #[trigger] g.at(x, y) implies g.at(x, y)
        == Cell::Unknown && r.at(x, y) != Cell::Unknown by {
        assert(mid.at(x, y) == mid.at(x, y));
    }
    lemma_change_decreases_unknowns(g, r);
}

/// A deterministic step that reports no change is a fixed point: running
/// it again changes nothing either.
pub proof fn lemma_simple_step_fixed_point(solved: GridView<Cell>, g: GridView<Cell>)
    requires
        spec_simple_step(solved, g) == g,
    ensures
        spec_simple_step(solved, spec_simple_step(solved, g)) == spec_simple_step(solved, g),
{
}

/// Every frontier position is an in-bounds `Unknown` cell.
pub proof fn lemma_frontier_members(g: GridView<Cell>, w: int, n: int)
    requires
        g.wf(),
        w == g.width,
        0 <= n <= g.width * g.height,
    ensures
        ({
            let f = frontier_upto(g, w, n);
            forall|k: int|
                0 <= k < f.len() ==> g.in_bounds((#[trigger] f[k]).0 as int, f[k].1 as int)
                    && g.at(f[k].0 as int, f[k].1 as int) == Cell::Unknown && g.adj_count_in(
                    f[k].0 as int,
                    f[k].1 as int,
                    nonzero_numbers(),
                ) > 0
        }),
    decreases n,
{
    if n > 0 && w > 0 {
        lemma_frontier_members(g, w, n - 1);
        let x = (n - 1) % w;
        let y = (n - 1) / w;
        assert(0 <= x < w && 0 <= y && y * w <= n - 1) by (nonlinear_arith)
            requires
                n >= 1,
                w >= 1,
                x == (n - 1) % w,
                y == (n - 1) / w,
        ;
        assert(y < g.height) by (nonlinear_arith)
            requires
                y == (n - 1) / w,
                w >= 1,
                n <= w * g.height,
                g.height >= 0,
        ;
    }
}

/// What the constraint-step application can do: only `Unknown` cells
/// change (frontier cells to flags, revealed cells to truth), so an
/// application that changes anything strictly shrinks the number of
/// `Unknown` cells.
pub proof fn lemma_apply_solve_frame(
    solved: GridView<Cell>,
    g: GridView<Cell>,
    list: Seq<(u8, u8)>,
    flagp: u128,
    safep: u128,
    n: int,
)
    requires
        g.wf(),
        n <= list.len(),
        forall|k: int|
            0 <= k < list.len() ==> g.in_bounds((#[trigger] list[k]).0 as int, list[k].1 as int)
                && g.at(list[k].0 as int, list[k].1 as int) == Cell::Unknown,
    ensures
        ({
            let r = apply_solve(solved, g, list, flagp, safep, n);
            &&& r.wf()
            &&& r.width == g.width
            &&& r.height == g.height
            &&& forall|x: int, y: int|
                g.in_bounds(x, y) && r.at(x, y) != #[trigger] g.at(x, y) ==> g.at(x, y)
                    == Cell::Unknown && (r.at(x, y) == Cell::Flag || (solved.in_bounds(x, y)
                    && r.at(x, y) == solved.at(x, y) && solved.at(x, y) != Cell::Bomb && solved.at(
                    x,
                    y,
                ) != Cell::Unknown))
            &&& r.count(Cell::Unknown) <= g.count(Cell::Unknown)
            &&& (r != g ==> r.count(Cell::Unknown) < g.count(Cell::Unknown))
        }),
    decreases n,
{
    if n <= 0 {
        lemma_change_decreases_unknowns(g, g);
    } else {
        lemma_apply_solve_frame(solved, g, list, flagp, safep, n - 1);
        let g1 = apply_solve(solved, g, list, flagp, safep, n - 1);
        let pos = list[n - 1];
        let g2 = if pattern_bit(flagp, n - 1) && g1.in_bounds(pos.0 as int, pos.1 as int) {
            g1.set(pos.0 as int, pos.1 as int, Cell::Flag)
        } else {
            g1
        };
        if pattern_bit(flagp, n - 1) && g1.in_bounds(pos.0 as int, pos.1 as int) {
            lemma_set_at(g1, pos.0 as int, pos.1 as int, Cell::Flag);
        }
        let r = apply_solve(solved, g, list, flagp, safep, n);
        if !pattern_bit(safep, n - 1) {
            lemma_ff_work_frame(solved, g2, seq![(pos.0 as int, pos.1 as int)]);
        }
        assert(g.at(pos.0 as int, pos.1 as int) == Cell::Unknown);
        assert forall|x: int, y: int|
            g.in_bounds(x, y) && g2.at(x, y) != #[trigger] g.at(x, y) implies g.at(x, y)
            == Cell::Unknown && (g2.at(x, y) == Cell::Flag || (solved.in_bounds(x, y) && g2.at(x, y)
            == solved.at(x, y) && solved.at(x, y) != Cell::Bomb && solved.at(x, y)
            != Cell::Unknown)) by {
            if g2.at(x, y) == g1.at(x, y) {
                assert(g1.at(x, y) != g.at(x, y));
            } else {
                assert(x == pos.0 as int && y == pos.1 as int);
                assert(g2.at(x, y) == Cell::Flag);
                if g1.at(x, y) != g.at(x, y) {
                } else {
                    assert(g.at(x, y) == Cell::Unknown);
                }
            }
        }
        assert forall|x: int, y: int|
            g.in_bounds(x, y) && r.at(x, y) != #[trigger] g.at(x, y) implies g.at(x, y)
            == Cell::Unknown && (r.at(x, y) == Cell::Flag || (solved.in_bounds(x, y) && r.at(x, y)
            == solved.at(x, y) && solved.at(x, y) != Cell::Bomb && solved.at(x, y)
            != Cell::Unknown)) by {
            if r.at(x, y) == g2.at(x, y) {
                assert(g2.at(x, y) != g.at(x, y));
            } else {
                assert(g2.at(x, y) == Cell::Unknown && r.at(x, y) != Cell::Unknown);
                if g2.at(x, y) != g.at(x, y) {
                } else {
                    assert(g.at(x, y) == Cell::Unknown);
                }
            }
        }
        assert forall|x: int, y: int|
            g.in_bounds(x, y) && r.at(x, y) != #[trigger] g.at(x, y) implies g.at(x, y)
            == Cell::Unknown && r.at(x, y) != Cell::Unknown by {}
        lemma_change_decreases_unknowns(g, r);
    }
}

} // verus!
