//! The game board: a hidden ground-truth grid, the player-visible grid, a
//! cached per-cell bomb-requirement counter, and the reveal primitives
//! (flood fill, chording, flag placement).

use vstd::prelude::*;

use rand::seq::SliceRandom;
use vstd::string::StringSliceAdditionalSpecFns;

use crate::cell::Cell;
use crate::cellgrid::{lemma_adj_seq_same, lemma_passes_single};
use crate::codec::{parse_ok, parse_result};
use crate::counting::{lemma_grid_count_pointwise_le, lemma_row_count_multiset, lemma_set_count, lemma_rows_count_flatten, row_count, rows_count};
use crate::grid::{lemma_set_at, Grid, GridView};
use crate::utils::{chunk_rows, lemma_chunk_rows_exact, lemma_chunk_rows_flatten, lemma_chunk_rows_len, unflatten};

verus! {

/// A board: the immutable solved grid (ground truth), the player grid, and
/// derived counters.
#[derive(Clone, Debug)]
pub struct GameBoard {
    pub width: u8,
    pub height: u8,
    pub solved_grid: Grid<Cell>,
    pub grid: Grid<Cell>,
    pub flag_adj_grid: Grid<Option<u8>>,
    pub num_bombs: u16,
    pub placed_flags: u16,
}

impl GameBoard {
    /// Shape and cache invariants: three equally sized well-formed grids,
    /// and the counter grid caching each ground-truth number.
    pub open spec fn wf(self) -> bool {
        &&& self.solved_grid@.wf()
        &&& self.grid@.wf()
        &&& self.flag_adj_grid@.wf()
        &&& self.solved_grid@.width == self.width
        &&& self.solved_grid@.height == self.height
        &&& self.grid@.width == self.width
        &&& self.grid@.height == self.height
        &&& self.flag_adj_grid@.width == self.width
        &&& self.flag_adj_grid@.height == self.height
        &&& flag_adj_ok(self.solved_grid@, self.flag_adj_grid@)
    }

    /// The ground truth is consistent: every non-bomb cell counts the bombs
    /// in its neighborhood.
    pub open spec fn truth_consistent(self) -> bool {
        ground_truth_consistent(self.solved_grid@)
    }
}

/// Every non-bomb cell of a ground truth counts the bombs in its
/// neighborhood.
pub open spec fn ground_truth_consistent(solved: GridView<Cell>) -> bool {
    forall|x: int, y: int|
        solved.in_bounds(x, y) && #[trigger] solved.at(x, y) != Cell::Bomb ==> solved.at(x, y)
            == Cell::Number(solved.adj_count(x, y, Cell::Bomb) as u8)
}

/// The counter grid caches exactly the ground truth's numbers.
pub open spec fn flag_adj_ok(solved: GridView<Cell>, fa: GridView<Option<u8>>) -> bool {
    forall|x: int, y: int|
        solved.in_bounds(x, y) ==> fa.at(x, y) == (match #[trigger] solved.at(x, y) {
            Cell::Number(n) => Some(n),
            _ => None::<u8>,
        })
}

/// The Moore neighbors of `(x, y)` as a reveal worklist: the fixed delta
/// order `(-1,1), (0,1), (1,1), (-1,0), (1,0), (-1,-1), (0,-1), (1,-1)`
/// from the top of the stack down.
pub open spec fn neighbor_stack(x: int, y: int) -> Seq<(int, int)> {
    seq![
        (x + 1, y - 1),
        (x, y - 1),
        (x - 1, y - 1),
        (x + 1, y),
        (x - 1, y),
        (x + 1, y + 1),
        (x, y + 1),
        (x - 1, y + 1),
    ]
}

/// Flood-fill reveal with an explicit worklist, popping from the end of
/// `stack`: an `Unknown` in-bounds cell whose ground truth is not a bomb is
/// revealed as its ground-truth value, and a revealed zero enqueues all its
/// neighbors. Bombs, revealed cells and out-of-bounds positions are
/// skipped.
pub open spec fn ff_work(
    solved: GridView<Cell>,
    g: GridView<Cell>,
    stack: Seq<(int, int)>,
) -> GridView<Cell>
    decreases g.count(Cell::Unknown), stack.len(),
{
    if stack.len() == 0 || !g.wf() {
        g
    } else {
        let x = stack.last().0;
        let y = stack.last().1;
        let rest = stack.drop_last();
        if !g.in_bounds(x, y) || g.at(x, y) != Cell::Unknown || !solved.in_bounds(x, y) {
            ff_work(solved, g, rest)
        } else {
            let c = solved.at(x, y);
            if c == Cell::Bomb {
                ff_work(solved, g, rest)
            } else {
                let g2 = g.set(x, y, c);
                proof {
                    lemma_set_at(g, x, y, c);
                    lemma_set_count(g, x, y, c, Cell::Unknown);
                }
                if c == Cell::Number(0) {
                    ff_work(solved, g2, rest + neighbor_stack(x, y))
                } else {
                    ff_work(solved, g2, rest)
                }
            }
        }
    }
}

/// One flood fill starting from a single position.
pub open spec fn spec_flood_fill(
    solved: GridView<Cell>,
    g: GridView<Cell>,
    x: int,
    y: int,
) -> GridView<Cell> {
    ff_work(solved, g, seq![(x, y)])
}

/// What flood fill can do: it keeps the shape, only turns `Unknown` cells
/// into their non-bomb ground-truth values, and never grows the number of
/// `Unknown` cells.
pub proof fn lemma_ff_work_frame(solved: GridView<Cell>, g: GridView<Cell>, stack: Seq<(int, int)>)
    requires
        g.wf(),
    ensures
        ({
            let r = ff_work(solved, g, stack);
            &&& r.wf()
            &&& r.width == g.width
            &&& r.height == g.height
            &&& forall|x: int, y: int|
                g.in_bounds(x, y) && r.at(x, y) != #[trigger] g.at(x, y) ==> g.at(x, y)
                    == Cell::Unknown && solved.in_bounds(x, y) && r.at(x, y) == solved.at(x, y)
                    && solved.at(x, y) != Cell::Bomb && solved.at(x, y) != Cell::Unknown
            &&& r.count(Cell::Unknown) <= g.count(Cell::Unknown)
        }),
    decreases g.count(Cell::Unknown), stack.len(),
{
    if stack.len() == 0 {
    } else {
        let x = stack.last().0;
        let y = stack.last().1;
        let rest = stack.drop_last();
        if !g.in_bounds(x, y) || g.at(x, y) != Cell::Unknown || !solved.in_bounds(x, y) {
            lemma_ff_work_frame(solved, g, rest);
        } else {
            let c = solved.at(x, y);
            if c == Cell::Bomb {
                lemma_ff_work_frame(solved, g, rest);
            } else {
                let g2 = g.set(x, y, c);
                lemma_set_at(g, x, y, c);
                lemma_set_count(g, x, y, c, Cell::Unknown);
                if c == Cell::Number(0) {
                    lemma_ff_work_frame(solved, g2, rest + neighbor_stack(x, y));
                } else {
                    lemma_ff_work_frame(solved, g2, rest);
                }
                if c == Cell::Unknown {
                    let r = ff_work(solved, g, stack);
                    assert(g2.at(x, y) == g.at(x, y));
                    assert forall|i: int, j: int|
                        g.in_bounds(i, j) && r.at(i, j) != #[trigger] g.at(i, j) implies g.at(i, j)
                        == Cell::Unknown && solved.in_bounds(i, j) && r.at(i, j) == solved.at(i, j)
                        && solved.at(i, j) != Cell::Bomb && solved.at(i, j) != Cell::Unknown by {
                        assert(g2.at(i, j) == g.at(i, j));
                    }
                }
            }
        }
    }
}

impl GameBoard {
    /// Runs the reveal worklist to exhaustion.
    fn flood_fill_work(&mut self, stack: Vec<(i32, i32)>)
        requires
            old(self).wf(),
        ensures
            final(self).wf(),
            final(self).width == old(self).width,
            final(self).height == old(self).height,
            final(self).solved_grid == old(self).solved_grid,
            final(self).flag_adj_grid == old(self).flag_adj_grid,
            final(self).num_bombs == old(self).num_bombs,
            final(self).placed_flags == old(self).placed_flags,
            final(self).grid@ == ff_work(old(self).solved_grid@, old(self).grid@, stack_view(stack@)),
    {
        let ghost solved = self.solved_grid@;
        let ghost target = ff_work(solved, self.grid@, stack_view(stack@));
        let mut stack = stack;
        while stack.len() != 0
            invariant
                self.wf(),
                self.width == old(self).width,
                self.height == old(self).height,
                self.solved_grid == old(self).solved_grid,
                self.flag_adj_grid == old(self).flag_adj_grid,
                self.num_bombs == old(self).num_bombs,
                self.placed_flags == old(self).placed_flags,
                solved == self.solved_grid@,
                ff_work(solved, self.grid@, stack_view(stack@)) == target,
            decreases self.grid@.count(Cell::Unknown), stack@.len(),
        {
            let ghost pre_grid = self.grid@;
            let ghost pre_stack = stack_view(stack@);
            let (x, y) = match stack.pop() {
                Some(p) => p,
                None => {
                    return ;
                },
            };
            proof {
                assert(stack_view(stack@) =~= pre_stack.drop_last());
                assert(pre_stack.last() == (x as int, y as int));
            }
            if x < 0 || x >= self.width as i32 || y < 0 || y >= self.height as i32 {
                continue ;
            }
            let cell = match self.grid.get_cell(x as i16, y as i16) {
                Some(c) => c,
                None => {
                    continue ;
                },
            };
            if !matches!(cell, Cell::Unknown) {
                continue ;
            }
            let truth = match self.solved_grid.get_cell(x as i16, y as i16) {
                Some(c) => c,
                None => {
                    continue ;
                },
            };
            if matches!(truth, Cell::Bomb) {
                continue ;
            }
            let res = self.grid.set_cell(x as i16, y as i16, truth);
            proof {
                assert(res is Ok);
                lemma_set_at(pre_grid, x as int, y as int, truth);
                lemma_set_count(pre_grid, x as int, y as int, truth, Cell::Unknown);
            }
            if matches!(truth, Cell::Number(0)) {
                stack.push((x + 1, y - 1));
                stack.push((x, y - 1));
                stack.push((x - 1, y - 1));
                stack.push((x + 1, y));
                stack.push((x - 1, y));
                stack.push((x + 1, y + 1));
                stack.push((x, y + 1));
                stack.push((x - 1, y + 1));
                proof {
                    assert(stack_view(stack@) =~= pre_stack.drop_last() + neighbor_stack(
                        x as int,
                        y as int,
                    ));
                }
            }
        }
        proof {
            assert(stack_view(stack@) =~= Seq::<(int, int)>::empty());
        }
    }
}

/// The worklist a vector of coordinates denotes.
pub open spec fn stack_view(v: Seq<(i32, i32)>) -> Seq<(int, int)> {
    Seq::new(v.len(), |i: int| (v[i].0 as int, v[i].1 as int))
}

impl GridView<Cell> {
    /// Chording applies at `(x, y)`: a revealed nonzero number whose flag
    /// count is met exactly.
    pub open spec fn chord_enabled(self, x: int, y: int) -> bool {
        self.in_bounds(x, y) && match self.at(x, y) {
            Cell::Number(n) => n > 0 && self.adj_count(x, y, Cell::Flag) == n,
            _ => false,
        }
    }

    /// Flagging applies at `(x, y)`: a revealed number whose undecided
    /// neighborhood (`Unknown` or `Flag`) has exactly as many members.
    pub open spec fn flags_enabled(self, x: int, y: int) -> bool {
        self.in_bounds(x, y) && match self.at(x, y) {
            Cell::Number(n) => self.adj_count_in(x, y, seq![Cell::Unknown, Cell::Flag]) == n,
            _ => false,
        }
    }
}

/// A chord at `(x, y)`: flood-fill every neighbor when chording applies,
/// and leave the grid alone otherwise.
pub open spec fn spec_chord(solved: GridView<Cell>, g: GridView<Cell>, x: int, y: int) -> GridView<
    Cell,
> {
    if g.chord_enabled(x, y) {
        ff_work(solved, g, neighbor_stack(x, y))
    } else {
        g
    }
}

/// Flags the first `n` of the listed positions that do not already hold a
/// flag, in order.
pub open spec fn flag_fold(g: GridView<Cell>, list: Seq<(u8, u8)>, n: int) -> GridView<Cell>
    decreases n,
{
    if n <= 0 {
        g
    } else {
        let g1 = flag_fold(g, list, n - 1);
        let p = list[n - 1];
        if g1.in_bounds(p.0 as int, p.1 as int) && g1.at(p.0 as int, p.1 as int) != Cell::Flag {
            g1.set(p.0 as int, p.1 as int, Cell::Flag)
        } else {
            g1
        }
    }
}

/// Flag placement at `(x, y)`: when flagging applies, every `Unknown`
/// member of the undecided neighborhood becomes a `Flag`.
pub open spec fn spec_place_flags(g: GridView<Cell>, x: int, y: int) -> GridView<Cell> {
    if g.flags_enabled(x, y) {
        let list = g.adj_seq(x, y, Some(seq![Cell::Unknown, Cell::Flag]));
        flag_fold(g, list, list.len() as int)
    } else {
        g
    }
}

/// One chord pass: a chord at each of the first `n` cells in iteration
/// order (`x` varying fastest from the bottom row).
pub open spec fn chord_all_upto(
    solved: GridView<Cell>,
    g: GridView<Cell>,
    w: int,
    n: int,
) -> GridView<Cell>
    decreases n,
{
    if n <= 0 || w <= 0 {
        g
    } else {
        spec_chord(solved, chord_all_upto(solved, g, w, n - 1), (n - 1) % w, (n - 1) / w)
    }
}

/// One flagging pass: flag placement at each of the first `n` cells in
/// iteration order.
pub open spec fn flags_all_upto(g: GridView<Cell>, w: int, n: int) -> GridView<Cell>
    decreases n,
{
    if n <= 0 || w <= 0 {
        g
    } else {
        spec_place_flags(flags_all_upto(g, w, n - 1), (n - 1) % w, (n - 1) / w)
    }
}

/// The board is solved: every ground-truth number is revealed identically
/// and every ground-truth bomb is still hidden or flagged.
pub open spec fn spec_is_solved(solved: GridView<Cell>, g: GridView<Cell>) -> bool {
    forall|x: int, y: int|
        solved.in_bounds(x, y) ==> match #[trigger] solved.at(x, y) {
            Cell::Number(n) => g.at(x, y) == Cell::Number(n),
            Cell::Bomb => g.at(x, y) == Cell::Unknown || g.at(x, y) == Cell::Flag,
            _ => true,
        }
}

/// Every position an adjacency query returns is in bounds and its cell
/// passes the query's filter.
pub proof fn lemma_adj_seq_in_bounds(g: GridView<Cell>, x: int, y: int, f: Option<Seq<Cell>>)
    requires
        g.wf(),
    ensures
        forall|k: int|
            0 <= k < g.adj_seq(x, y, f).len() ==> {
                let p = #[trigger] g.adj_seq(x, y, f)[k];
                g.in_bounds(p.0 as int, p.1 as int) && crate::cellgrid::cell_filter_passes(
                    f,
                    g.at(p.0 as int, p.1 as int),
                )
            },
{
    assert forall|k: int| 0 <= k < g.adj_seq(x, y, f).len() implies {
        let p = #[trigger] g.adj_seq(x, y, f)[k];
        g.in_bounds(p.0 as int, p.1 as int) && crate::cellgrid::cell_filter_passes(
            f,
            g.at(p.0 as int, p.1 as int),
        )
    } by {
        entry_ok(g, x, y, -1, 1, f);
        entry_ok(g, x, y, 0, 1, f);
        entry_ok(g, x, y, 1, 1, f);
        entry_ok(g, x, y, -1, 0, f);
        entry_ok(g, x, y, 1, 0, f);
        entry_ok(g, x, y, -1, -1, f);
        entry_ok(g, x, y, 0, -1, f);
        entry_ok(g, x, y, 1, -1, f);
    }
}

/// A single neighborhood entry only ever holds an in-bounds position whose
/// cell passes the filter.
proof fn entry_ok(g: GridView<Cell>, x: int, y: int, dx: int, dy: int, f: Option<Seq<Cell>>)
    requires
        g.wf(),
    ensures
        forall|k: int|
            0 <= k < g.adj_entry(x, y, dx, dy, f).len() ==> {
                let p = #[trigger] g.adj_entry(x, y, dx, dy, f)[k];
                g.in_bounds(p.0 as int, p.1 as int) && crate::cellgrid::cell_filter_passes(
                    f,
                    g.at(p.0 as int, p.1 as int),
                )
            },
{
    if g.in_bounds(x + dx, y + dy) && crate::cellgrid::cell_filter_passes(f, g.at(x + dx, y + dy)) {
        assert(0 <= x + dx < 256 && 0 <= y + dy < 256);
        assert(g.adj_entry(x, y, dx, dy, f)[0] == (((x + dx) as u8, (y + dy) as u8)));
    }
}

impl GameBoard {
    /// Everything but the player grid stays as it was.
    pub open spec fn same_but_grid(self, other: GameBoard) -> bool {
        &&& self.width == other.width
        &&& self.height == other.height
        &&& self.solved_grid == other.solved_grid
        &&& self.flag_adj_grid == other.flag_adj_grid
        &&& self.num_bombs == other.num_bombs
        &&& self.placed_flags == other.placed_flags
    }

    /// Reveals from `(x, y)`: a no-op on out-of-bounds, revealed or
    /// ground-truth bomb positions; otherwise copies the ground truth in
    /// and propagates through a revealed zero's whole neighborhood.
    pub fn flood_fill(&mut self, x: i16, y: i16) -> (r: Result<(), String>)
        requires
            old(self).wf(),
        ensures
            final(self).wf(),
            final(self).same_but_grid(*old(self)),
            r is Ok,
            final(self).grid@ == spec_flood_fill(
                old(self).solved_grid@,
                old(self).grid@,
                x as int,
                y as int,
            ),
    {
        let mut stack: Vec<(i32, i32)> = Vec::new();
        stack.push((x as i32, y as i32));
        proof {
            assert(stack_view(stack@) =~= seq![(x as int, y as int)]);
        }
        self.flood_fill_work(stack);
        Ok(())
    }

    /// Reveals around `(x, y)`: floods each of the 8 neighbors in the fixed
    /// delta order.
    pub fn flood_fill_all_adj(&mut self, x: i16, y: i16) -> (r: Result<(), String>)
        requires
            old(self).wf(),
        ensures
            final(self).wf(),
            final(self).same_but_grid(*old(self)),
            r is Ok,
            final(self).grid@ == ff_work(
                old(self).solved_grid@,
                old(self).grid@,
                neighbor_stack(x as int, y as int),
            ),
    {
        let xi = x as i32;
        let yi = y as i32;
        let mut stack: Vec<(i32, i32)> = Vec::new();
        stack.push((xi + 1, yi - 1));
        stack.push((xi, yi - 1));
        stack.push((xi - 1, yi - 1));
        stack.push((xi + 1, yi));
        stack.push((xi - 1, yi));
        stack.push((xi + 1, yi + 1));
        stack.push((xi, yi + 1));
        stack.push((xi - 1, yi + 1));
        proof {
            assert(stack_view(stack@) =~= neighbor_stack(x as int, y as int));
        }
        self.flood_fill_work(stack);
        Ok(())
    }

    /// A chord at `(x, y)`: reveals the whole neighborhood when the cell
    /// shows a nonzero number matched exactly by its flag count; otherwise
    /// leaves the board alone.
    pub fn chord(&mut self, x: i16, y: i16) -> (r: Result<(), String>)
        requires
            old(self).wf(),
        ensures
            final(self).wf(),
            final(self).same_but_grid(*old(self)),
            r is Ok,
            final(self).grid@ == spec_chord(
                old(self).solved_grid@,
                old(self).grid@,
                x as int,
                y as int,
            ),
    {
        let cell = match self.grid.get_cell(x, y) {
            Some(c) => c,
            None => {
                return Ok(());
            },
        };
        match cell {
            Cell::Number(num) => {
                if num == 0 {
                    return Ok(());
                }
                let flags = match self.grid.adj_flags(x as u8, y as u8) {
                    Ok(v) => v,
                    Err(e) => {
                        return Err(e);
                    },
                };
                if flags.len() != num as usize {
                    return Ok(());
                }
            },
            _ => {
                return Ok(());
            },
        }
        self.flood_fill_all_adj(x, y)
    }

    /// A chord at every cell, in iteration order, in a single pass.
    pub fn chord_all(&mut self) -> (r: Result<(), String>)
        requires
            old(self).wf(),
        ensures
            final(self).wf(),
            final(self).same_but_grid(*old(self)),
            r is Ok,
            final(self).grid@ == chord_all_upto(
                old(self).solved_grid@,
                old(self).grid@,
                old(self).width as int,
                old(self).width * old(self).height,
            ),
    {
        let ghost solved = self.solved_grid@;
        let ghost g0 = self.grid@;
        let ghost w = self.width as int;
        let mut y: u8 = 0;
        while y < self.height
            invariant
                self.wf(),
                self.same_but_grid(*old(self)),
                solved == self.solved_grid@,
                g0 == old(self).grid@,
                w == self.width as int,
                y <= self.height,
                self.grid@ == chord_all_upto(solved, g0, w, y * w),
            decreases self.height as int - y,
        {
            let mut x: u8 = 0;
            while x < self.width
                invariant
                    self.wf(),
                    self.same_but_grid(*old(self)),
                    solved == self.solved_grid@,
                    g0 == old(self).grid@,
                    w == self.width as int,
                    y < self.height,
                    x <= self.width,
                    self.grid@ == chord_all_upto(solved, g0, w, y * w + x),
                decreases self.width as int - x,
            {
                proof {
                    let n = y * w + x + 1;
                    assert((n - 1) % w == x && (n - 1) / w == y) by (nonlinear_arith)
                        requires
                            0 <= x < w,
                            0 <= y,
                            n - 1 == y * w + x,
                    ;
                }
                let res = self.chord(x as i16, y as i16);
                proof {
                    assert(res is Ok);
                }
                x = x + 1;
            }
            proof {
                let yy = y as int;
                assert((yy + 1) * w == yy * w + w) by (nonlinear_arith);
            }
            y = y + 1;
        }
        proof {
            let hh = self.height as int;
            assert(hh * w == w * hh) by (nonlinear_arith);
        }
        Ok(())
    }

    /// Marks `(x, y)` with a flag; fails without mutating when the
    /// coordinates are out of bounds.
    pub fn place_flag(&mut self, x: u8, y: u8) -> (r: Result<(), String>)
        requires
            old(self).wf(),
        ensures
            final(self).wf(),
            final(self).same_but_grid(*old(self)),
            old(self).grid@.in_bounds(x as int, y as int) ==> r is Ok && final(self).grid@ == old(
                self,
            ).grid@.set(x as int, y as int, Cell::Flag),
            !old(self).grid@.in_bounds(x as int, y as int) ==> r is Err && final(self).grid == old(
                self,
            ).grid,
    {
        proof {
            if old(self).grid@.in_bounds(x as int, y as int) {
                lemma_set_at(old(self).grid@, x as int, y as int, Cell::Flag);
            }
        }
        match self.grid.set_cell(x as i16, y as i16, Cell::Flag) {
            Ok(()) => Ok(()),
            Err(e) => Err(e),
        }
    }

    /// Deterministic flagging at `(x, y)`: when the cell shows `Number(n)`
    /// and exactly `n` neighbors are still undecided (`Unknown` or `Flag`),
    /// flags every `Unknown` one of them.
    pub fn place_flags(&mut self, x: u8, y: u8) -> (r: Result<(), String>)
        requires
            old(self).wf(),
        ensures
            final(self).wf(),
            final(self).same_but_grid(*old(self)),
            r is Ok,
            final(self).grid@ == spec_place_flags(old(self).grid@, x as int, y as int),
    {
        let ghost g0 = self.grid@;
        let cell = match self.grid.get_cell(x as i16, y as i16) {
            Some(c) => c,
            None => {
                return Ok(());
            },
        };
        let mut filter: Vec<Cell> = Vec::new();
        filter.push(Cell::Unknown);
        filter.push(Cell::Flag);
        proof {
            assert(filter@ =~= seq![Cell::Unknown, Cell::Flag]);
        }
        let adj = match self.grid.adj_cells(x, y, Some(filter)) {
            Ok(v) => v,
            Err(e) => {
                return Err(e);
            },
        };
        let num = match cell {
            Cell::Number(n) => n,
            _ => {
                return Ok(());
            },
        };
        if adj.len() != num as usize {
            return Ok(());
        }
        let ghost list = g0.adj_seq(x as int, y as int, Some(seq![Cell::Unknown, Cell::Flag]));
        proof {
            lemma_adj_seq_in_bounds(g0, x as int, y as int, Some(seq![Cell::Unknown, Cell::Flag]));
            assert forall|i: int| 0 <= i < list.len() implies {
                let p = #[trigger] list[i];
                g0.in_bounds(p.0 as int, p.1 as int) && (g0.at(p.0 as int, p.1 as int)
                    == Cell::Unknown || g0.at(p.0 as int, p.1 as int) == Cell::Flag)
            } by {
                let p = list[i];
                assert(crate::cellgrid::cell_filter_passes(
                    Some(seq![Cell::Unknown, Cell::Flag]),
                    g0.at(p.0 as int, p.1 as int),
                ));
                let fs = seq![Cell::Unknown, Cell::Flag];
                let j = choose|j: int| 0 <= j < fs.len() && fs[j] == g0.at(p.0 as int, p.1 as int);
                assert(j == 0 || j == 1);
            }
        }
        let mut k: usize = 0;
        while k < adj.len()
            invariant
                self.wf(),
                self.same_but_grid(*old(self)),
                g0.wf(),
                k <= adj@.len(),
                adj@ == list,
                g0 == old(self).grid@,
                forall|i: int|
                    0 <= i < list.len() ==> {
                        let p = #[trigger] list[i];
                        g0.in_bounds(p.0 as int, p.1 as int) && (g0.at(p.0 as int, p.1 as int)
                            == Cell::Unknown || g0.at(p.0 as int, p.1 as int) == Cell::Flag)
                    },
                self.grid@ == flag_fold(g0, list, k as int),
            decreases adj@.len() - k,
        {
            let ghost pre = self.grid@;
            let (ax, ay) = adj[k];
            proof {
                lemma_flag_fold_frame(g0, list, k as int);
            }
            let is_flag = match self.grid.get_cell(ax as i16, ay as i16) {
                Some(Cell::Flag) => true,
                _ => false,
            };
            if !is_flag {
                let res = self.place_flag(ax, ay);
                proof {
                    assert(res is Ok);
                }
            }
            k = k + 1;
        }
        Ok(())
    }

    /// Deterministic flagging at every cell, in iteration order, in a
    /// single pass.
    pub fn place_all_flags(&mut self) -> (r: Result<(), String>)
        requires
            old(self).wf(),
        ensures
            final(self).wf(),
            final(self).same_but_grid(*old(self)),
            r is Ok,
            final(self).grid@ == flags_all_upto(
                old(self).grid@,
                old(self).width as int,
                old(self).width * old(self).height,
            ),
    {
        let ghost g0 = self.grid@;
        let ghost w = self.width as int;
        let mut y: u8 = 0;
        while y < self.height
            invariant
                self.wf(),
                self.same_but_grid(*old(self)),
                g0 == old(self).grid@,
                w == self.width as int,
                y <= self.height,
                self.grid@ == flags_all_upto(g0, w, y * w),
            decreases self.height as int - y,
        {
            let mut x: u8 = 0;
            while x < self.width
                invariant
                    self.wf(),
                    self.same_but_grid(*old(self)),
                    g0 == old(self).grid@,
                    w == self.width as int,
                    y < self.height,
                    x <= self.width,
                    self.grid@ == flags_all_upto(g0, w, y * w + x),
                decreases self.width as int - x,
            {
                proof {
                    let n = y * w + x + 1;
                    assert((n - 1) % w == x && (n - 1) / w == y) by (nonlinear_arith)
                        requires
                            0 <= x < w,
                            0 <= y,
                            n - 1 == y * w + x,
                    ;
                }
                let res = self.place_flags(x, y);
                proof {
                    assert(res is Ok);
                }
                x = x + 1;
            }
            proof {
                let yy = y as int;
                assert((yy + 1) * w == yy * w + w) by (nonlinear_arith);
            }
            y = y + 1;
        }
        proof {
            let hh = self.height as int;
            assert(hh * w == w * hh) by (nonlinear_arith);
        }
        Ok(())
    }

    /// Whether the board is solved: every ground-truth number revealed
    /// identically, every ground-truth bomb hidden or flagged.
    pub fn is_solved(&self) -> (r: Result<bool, String>)
        requires
            self.wf(),
        ensures
            r == Ok::<bool, String>(spec_is_solved(self.solved_grid@, self.grid@)),
    {
        let ghost solved = self.solved_grid@;
        let ghost g = self.grid@;
        let mut y: u8 = 0;
        while y < self.height
            invariant
                self.wf(),
                solved == self.solved_grid@,
                g == self.grid@,
                y <= self.height,
                forall|i: int, j: int|
                    solved.in_bounds(i, j) && j < y ==> match #[trigger] solved.at(i, j) {
                        Cell::Number(n) => g.at(i, j) == Cell::Number(n),
                        Cell::Bomb => g.at(i, j) == Cell::Unknown || g.at(i, j) == Cell::Flag,
                        _ => true,
                    },
            decreases self.height as int - y,
        {
            let mut x: u8 = 0;
            while x < self.width
                invariant
                    self.wf(),
                    solved == self.solved_grid@,
                    g == self.grid@,
                    y < self.height,
                    x <= self.width,
                    forall|i: int, j: int|
                        solved.in_bounds(i, j) && j < y ==> match #[trigger] solved.at(i, j) {
                            Cell::Number(n) => g.at(i, j) == Cell::Number(n),
                            Cell::Bomb => g.at(i, j) == Cell::Unknown || g.at(i, j) == Cell::Flag,
                            _ => true,
                        },
                    forall|i: int|
                        0 <= i < x ==> match #[trigger] solved.at(i, y as int) {
                            Cell::Number(n) => g.at(i, y as int) == Cell::Number(n),
                            Cell::Bomb => g.at(i, y as int) == Cell::Unknown || g.at(i, y as int)
                                == Cell::Flag,
                            _ => true,
                        },
                decreases self.width as int - x,
            {
                let solved_elem = match self.solved_grid.get_cell(x as i16, y as i16) {
                    Some(c) => c,
                    None => {
                        return Err("solved cell out of bounds".to_owned());
                    },
                };
                let player_elem = match self.grid.get_cell(x as i16, y as i16) {
                    Some(c) => c,
                    None => {
                        return Err("player cell out of bounds".to_owned());
                    },
                };
                match solved_elem {
                    Cell::Number(_) => {
                        if solved_elem != player_elem {
                            return Ok(false);
                        }
                    },
                    Cell::Bomb => {
                        let hidden = match player_elem {
                            Cell::Unknown => true,
                            Cell::Flag => true,
                            _ => false,
                        };
                        if !hidden {
                            return Ok(false);
                        }
                    },
                    _ => {},
                }
                x = x + 1;
            }
            y = y + 1;
        }
        Ok(true)
    }
}

/// What a flagging fold can do: it keeps the shape and only turns
/// `Unknown` cells into flags.
pub proof fn lemma_flag_fold_frame(g: GridView<Cell>, list: Seq<(u8, u8)>, n: int)
    requires
        g.wf(),
        n <= list.len(),
        forall|i: int|
            0 <= i < list.len() ==> {
                let p = #[trigger] list[i];
                g.in_bounds(p.0 as int, p.1 as int) && (g.at(p.0 as int, p.1 as int)
                    == Cell::Unknown || g.at(p.0 as int, p.1 as int) == Cell::Flag)
            },
    ensures
        ({
            let r = flag_fold(g, list, n);
            &&& r.wf()
            &&& r.width == g.width
            &&& r.height == g.height
            &&& forall|x: int, y: int|
                g.in_bounds(x, y) && r.at(x, y) != #[trigger] g.at(x, y) ==> g.at(x, y)
                    == Cell::Unknown && r.at(x, y) == Cell::Flag
        }),
    decreases n,
{
    if n > 0 {
        lemma_flag_fold_frame(g, list, n - 1);
        let g1 = flag_fold(g, list, n - 1);
        let p = list[n - 1];
        if g1.in_bounds(p.0 as int, p.1 as int) && g1.at(p.0 as int, p.1 as int) != Cell::Flag {
            lemma_set_at(g1, p.0 as int, p.1 as int, Cell::Flag);
            let r = flag_fold(g, list, n);
            if g.at(p.0 as int, p.1 as int) != Cell::Unknown {
                assert(g1.at(p.0 as int, p.1 as int) == g.at(p.0 as int, p.1 as int)
                    || g1.at(p.0 as int, p.1 as int) == Cell::Flag);
            }
        }
    }
}

/// Relies on rand::seq::SliceRandom::shuffle (with rand::rng as the
/// generator): an in-place permutation of the slice.
#[verifier::external_body]
fn shuffle_cells(cells: &mut Vec<Cell>)
    ensures
        final(cells)@.len() == old(cells)@.len(),
        final(cells)@.to_multiset() == old(cells)@.to_multiset(),
{
    let mut rng = rand::rng();
    cells.as_mut_slice().shuffle(&mut rng);
}

/// How many cells of the grid hold `c`.
fn count_cells(g: &Grid<Cell>, c: Cell) -> (n: u16)
    requires
        g@.wf(),
    ensures
        n == g@.count(c),
{
    let ghost rows = g@.rows;
    let mut n: u16 = 0;
    let mut r: usize = 0;
    proof {
        assert(rows.take(0) =~= Seq::<Seq<Cell>>::empty());
        crate::counting::lemma_rows_count_le_total(rows, c, g@.width);
        assert(rows.len() * g@.width <= 255 * 255) by (nonlinear_arith)
            requires
                0 <= rows.len() <= 255,
                0 <= g@.width <= 255,
        ;
    }
    while r < g.cells.len()
        invariant
            g@.wf(),
            rows == g@.rows,
            rows.len() == g.cells@.len(),
            r <= rows.len(),
            n == rows_count(rows.take(r as int), c),
            n <= 255 * 255,
            rows_count(rows, c) <= 255 * 255,
        decreases rows.len() - r,
    {
        let ghost rowv = rows[r as int];
        proof {
            assert(g@.rows[r as int] == g.cells@[r as int]@);
            crate::counting::lemma_row_count_le_len(rowv, c);
            assert(rows.take(r as int + 1).drop_last() =~= rows.take(r as int));
            assert(rows.take(r as int + 1).last() == rowv);
            lemma_rows_count_take_le(rows, c, r as int);
        }
        let row = &g.cells[r];
        let mut j: usize = 0;
        let mut rc: u16 = 0;
        while j < row.len()
            invariant
                rowv == row@,
                j <= rowv.len(),
                rowv.len() <= 255,
                rc == row_count(rowv.take(j as int), c),
                rc <= j,
            decreases rowv.len() - j,
        {
            proof {
                assert(rowv.take(j as int + 1).drop_last() =~= rowv.take(j as int));
                assert(rowv.take(j as int + 1).last() == rowv[j as int]);
            }
            if row[j] == c {
                rc = rc + 1;
            }
            j = j + 1;
        }
        proof {
            assert(rowv.take(rowv.len() as int) =~= rowv);
        }
        n = n + rc;
        r = r + 1;
    }
    proof {
        assert(rows.take(rows.len() as int) =~= rows);
    }
    n
}

/// A prefix never counts more than the whole.
proof fn lemma_rows_count_take_le(rows: Seq<Seq<Cell>>, c: Cell, r: int)
    requires
        0 <= r < rows.len(),
    ensures
        rows_count(rows.take(r + 1), c) <= rows_count(rows, c),
    decreases rows.len() - r,
{
    if r + 1 == rows.len() {
        assert(rows.take(r + 1) =~= rows);
    } else {
        lemma_rows_count_take_le(rows, c, r + 1);
        assert(rows.take(r + 2).drop_last() =~= rows.take(r + 1));
    }
}

impl GameBoard {
    /// Derives a full board from a caller-supplied ground truth: every
    /// non-bomb cell is renumbered to count the bombs around it, the player
    /// grid starts fully `Unknown`, and the counter grid caches the
    /// numbers.
    pub fn from(solved_grid: Grid<Cell>) -> (r: Result<GameBoard, String>)
        requires
            solved_grid@.wf(),
        ensures
            ({
                match r {
                    Ok(b) => {
                        &&& b.wf()
                        &&& b.truth_consistent()
                        &&& b.width == solved_grid@.width
                        &&& b.height == solved_grid@.height
                        &&& forall|x: int, y: int|
                            b.solved_grid@.in_bounds(x, y) ==> #[trigger] b.solved_grid@.at(x, y)
                                == (if solved_grid@.at(x, y) == Cell::Bomb {
                                Cell::Bomb
                            } else {
                                Cell::Number(solved_grid@.adj_count(x, y, Cell::Bomb) as u8)
                            })
                        &&& forall|x: int, y: int|
                            b.grid@.in_bounds(x, y) ==> #[trigger] b.grid@.at(x, y)
                                == Cell::Unknown
                        &&& b.num_bombs == solved_grid@.count(Cell::Bomb)
                        &&& b.placed_flags == 0
                    },
                    Err(_) => false,
                }
            }),
    {
        let ghost orig = solved_grid@;
        let width = solved_grid.width;
        let height = solved_grid.height;
        let mut solved_grid = solved_grid;
        let mut y: u8 = 0;
        while y < height
            invariant
                solved_grid@.wf(),
                solved_grid@.width == orig.width,
                solved_grid@.height == orig.height,
                width == orig.width,
                height == orig.height,
                y <= height,
                solved_grid@.count(Cell::Bomb) == orig.count(Cell::Bomb),
                forall|i: int, j: int|
                    orig.in_bounds(i, j) ==> ((#[trigger] solved_grid@.at(i, j) == Cell::Bomb)
                        <==> orig.at(i, j) == Cell::Bomb),
                forall|i: int, j: int|
                    orig.in_bounds(i, j) && j < y ==> #[trigger] solved_grid@.at(i, j) == (
                    if orig.at(i, j) == Cell::Bomb {
                        Cell::Bomb
                    } else {
                        Cell::Number(orig.adj_count(i, j, Cell::Bomb) as u8)
                    }),
                forall|i: int, j: int|
                    orig.in_bounds(i, j) && j >= y ==> #[trigger] solved_grid@.at(i, j) == orig.at(
                        i,
                        j,
                    ),
            decreases height as int - y,
        {
            let mut x: u8 = 0;
            while x < width
                invariant
                    solved_grid@.wf(),
                    solved_grid@.width == orig.width,
                    solved_grid@.height == orig.height,
                    width == orig.width,
                    height == orig.height,
                    y < height,
                    x <= width,
                    solved_grid@.count(Cell::Bomb) == orig.count(Cell::Bomb),
                    forall|i: int, j: int|
                        orig.in_bounds(i, j) ==> ((#[trigger] solved_grid@.at(i, j) == Cell::Bomb)
                            <==> orig.at(i, j) == Cell::Bomb),
                    forall|i: int, j: int|
                        orig.in_bounds(i, j) && j < y ==> #[trigger] solved_grid@.at(i, j) == (
                        if orig.at(i, j) == Cell::Bomb {
                            Cell::Bomb
                        } else {
                            Cell::Number(orig.adj_count(i, j, Cell::Bomb) as u8)
                        }),
                    forall|i: int|
                        0 <= i < x ==> #[trigger] solved_grid@.at(i, y as int) == (if orig.at(
                            i,
                            y as int,
                        ) == Cell::Bomb {
                            Cell::Bomb
                        } else {
                            Cell::Number(orig.adj_count(i, y as int, Cell::Bomb) as u8)
                        }),
                    forall|i: int, j: int|
                        orig.in_bounds(i, j) && (j > y || (j == y && i >= x)) ==> (
                        #[trigger] solved_grid@.at(i, j)) == orig.at(i, j),
                decreases width as int - x,
            {
                let ghost pre = solved_grid@;
                let cell = match solved_grid.get_cell(x as i16, y as i16) {
                    Some(c) => c,
                    None => {
                        return Err("cell out of bounds".to_owned());
                    },
                };
                if !matches!(cell, Cell::Bomb) {
                    let bombs = match solved_grid.adj_bombs(x, y) {
                        Ok(v) => v,
                        Err(e) => {
                            return Err(e);
                        },
                    };
                    proof {
                        crate::cellgrid::lemma_adj_seq_len(
                            pre,
                            x as int,
                            y as int,
                            Some(seq![Cell::Bomb]),
                        );
                        assert forall|i: int, j: int| pre.in_bounds(i, j) implies (
                        crate::cellgrid::cell_filter_passes(
                            Some(seq![Cell::Bomb]),
                            #[trigger] pre.at(i, j),
                        ) <==> crate::cellgrid::cell_filter_passes(
                            Some(seq![Cell::Bomb]),
                            #[trigger] orig.at(i, j),
                        )) by {
                            lemma_passes_single(pre.at(i, j), Cell::Bomb);
                            lemma_passes_single(orig.at(i, j), Cell::Bomb);
                        }
                        lemma_adj_seq_same(pre, orig, x as int, y as int, Some(seq![Cell::Bomb]));
                    }
                    let num = bombs.len() as u8;
                    let res = solved_grid.set_cell(x as i16, y as i16, Cell::Number(num));
                    proof {
                        assert(res is Ok);
                        lemma_set_at(pre, x as int, y as int, Cell::Number(num));
                        lemma_set_count(pre, x as int, y as int, Cell::Number(num), Cell::Bomb);
                        let cur = solved_grid@;
                        let xi = x as int;
                        let yi = y as int;
                        assert(num == orig.adj_count(xi, yi, Cell::Bomb));
                        assert(cur.at(xi, yi) == Cell::Number(num));
                        assert forall|i: int, j: int|
                            orig.in_bounds(i, j) && !(i == xi && j == yi) implies (
                        #[trigger] cur.at(i, j)) == pre.at(i, j) by {
                            assert(pre.at(i, j) == pre.at(i, j));
                        }
                        assert forall|i: int, j: int| orig.in_bounds(i, j) implies ((
                        #[trigger] cur.at(i, j) == Cell::Bomb) <==> orig.at(i, j) == Cell::Bomb) by {
                            if !(i == xi && j == yi) {
                                assert(cur.at(i, j) == pre.at(i, j));
                            }
                        }
                    }
                }
                x = x + 1;
            }
            y = y + 1;
        }
        let num_bombs = count_cells(&solved_grid, Cell::Bomb);

        let flag_adj_grid = build_flag_adj(&solved_grid);

        Ok(
            GameBoard {
                width,
                height,
                solved_grid,
                grid: Grid::new(width, height, Cell::Unknown),
                flag_adj_grid,
                num_bombs,
                placed_flags: 0,
            },
        )
    }
}

/// The counter grid a ground truth induces: `Some(n)` under each
/// `Number(n)`, `None` elsewhere.
fn build_flag_adj(solved_grid: &Grid<Cell>) -> (r: Grid<Option<u8>>)
    requires
        solved_grid@.wf(),
    ensures
        r@.wf(),
        r@.width == solved_grid@.width,
        r@.height == solved_grid@.height,
        flag_adj_ok(solved_grid@, r@),
{
    let width = solved_grid.width;
    let height = solved_grid.height;
    let mut flag_adj_grid: Grid<Option<u8>> = Grid::new(width, height, None);
    let mut y2: u8 = 0;
    while y2 < height
        invariant
            solved_grid@.wf(),
            flag_adj_grid@.wf(),
            solved_grid@.width == width,
            solved_grid@.height == height,
            flag_adj_grid@.width == width,
            flag_adj_grid@.height == height,
            y2 <= height,
            forall|i: int, j: int|
                solved_grid@.in_bounds(i, j) && j < y2 ==> flag_adj_grid@.at(i, j) == (
                match #[trigger] solved_grid@.at(i, j) {
                    Cell::Number(n) => Some(n),
                    _ => None::<u8>,
                }),
        decreases height as int - y2,
    {
        let mut x2: u8 = 0;
        while x2 < width
            invariant
                solved_grid@.wf(),
                flag_adj_grid@.wf(),
                solved_grid@.width == width,
                solved_grid@.height == height,
                flag_adj_grid@.width == width,
                flag_adj_grid@.height == height,
                y2 < height,
                x2 <= width,
                forall|i: int, j: int|
                    solved_grid@.in_bounds(i, j) && j < y2 ==> flag_adj_grid@.at(i, j) == (
                    match #[trigger] solved_grid@.at(i, j) {
                        Cell::Number(n) => Some(n),
                        _ => None::<u8>,
                    }),
                forall|i: int|
                    0 <= i < x2 ==> flag_adj_grid@.at(i, y2 as int) == (
                    match #[trigger] solved_grid@.at(i, y2 as int) {
                        Cell::Number(n) => Some(n),
                        _ => None::<u8>,
                    }),
            decreases width as int - x2,
        {
            let ghost prefa = flag_adj_grid@;
            let entry = match solved_grid.get_cell(x2 as i16, y2 as i16) {
                Some(Cell::Number(num)) => Some(num),
                _ => None,
            };
            let res = flag_adj_grid.set_cell(x2 as i16, y2 as i16, entry);
            proof {
                assert(res is Ok);
                lemma_set_at(prefa, x2 as int, y2 as int, entry);
            }
            x2 = x2 + 1;
        }
        y2 = y2 + 1;
    }
    flag_adj_grid
}

impl GameBoard {
    /// Builds a board from the text encodings of a ground truth and a
    /// player state; fails when either fails to parse or their dimensions
    /// disagree. The ground truth is taken as written, not renumbered.
    pub fn from_str(solved_grid_str: &str, player_grid_str: &str) -> (r: Result<GameBoard, String>)
        ensures
            ({
                let s1 = solved_grid_str.spec_bytes();
                let s2 = player_grid_str.spec_bytes();
                &&& (r is Ok <==> parse_ok(s1) && parse_ok(s2) && parse_result(s1).width
                    == parse_result(s2).width && parse_result(s1).height == parse_result(
                    s2,
                ).height)
                &&& (r matches Ok(b) ==> {
                    &&& b.wf()
                    &&& b.solved_grid@ == parse_result(s1)
                    &&& b.grid@ == parse_result(s2)
                    &&& b.width == parse_result(s1).width
                    &&& b.height == parse_result(s1).height
                    &&& b.num_bombs == parse_result(s1).count(Cell::Bomb)
                    &&& b.placed_flags == parse_result(s2).count(Cell::Flag)
                })
            }),
    {
        let solved_grid = match Grid::from_str(solved_grid_str) {
            Ok(g) => g,
            Err(e) => {
                return Err(e);
            },
        };
        let player_grid = match Grid::from_str(player_grid_str) {
            Ok(g) => g,
            Err(e) => {
                return Err(e);
            },
        };
        if solved_grid.width != player_grid.width {
            return Err("solved_grid.width != player_grid.width".to_owned());
        }
        if solved_grid.height != player_grid.height {
            return Err("solved_grid.height != player_grid.height".to_owned());
        }
        let num_bombs = count_cells(&solved_grid, Cell::Bomb);
        let placed_flags = count_cells(&player_grid, Cell::Flag);
        let flag_adj_grid = build_flag_adj(&solved_grid);
        Ok(
            GameBoard {
                width: solved_grid.width,
                height: solved_grid.height,
                solved_grid,
                grid: player_grid,
                flag_adj_grid,
                num_bombs,
                placed_flags,
            },
        )
    }

    /// Builds a random board: `num_bombs` bombs shuffled uniformly over a
    /// `width x height` grid, every other cell numbered with its bomb
    /// neighbor count. Fails when the bombs outnumber the cells or the
    /// dimensions admit no grid.
    pub fn new(width: u8, height: u8, num_bombs: u16) -> (r: Result<GameBoard, String>)
        ensures
            r is Ok <==> (num_bombs <= width * height && (width >= 1 && height >= 1 || width == 0
                && height == 1)),
            r matches Ok(b) ==> {
                &&& b.wf()
                &&& b.truth_consistent()
                &&& b.width == width
                &&& b.height == height
                &&& forall|x: int, y: int|
                    b.grid@.in_bounds(x, y) ==> #[trigger] b.grid@.at(x, y) == Cell::Unknown
                &&& b.num_bombs == num_bombs
                &&& b.placed_flags == 0
            },
    {
        proof {
            assert((width as int) * (height as int) <= 255 * 255 && (height as int) * (width as int)
                <= 255 * 255 && (width as int) * (height as int) == (height as int) * (
            width as int)) by (nonlinear_arith)
                requires
                    0 <= width <= 255,
                    0 <= height <= 255,
            ;
        }
        let num_cells: u16 = (height as u16) * (width as u16);
        if num_bombs > num_cells {
            return Err("num_bombs must be less than or equal to width*height".to_owned());
        }
        let mut solved_board: Vec<Cell> = Vec::new();
        let mut i: u16 = 0;
        while i < num_bombs
            invariant
                i <= num_bombs,
                solved_board@.len() == i,
                row_count(solved_board@, Cell::Bomb) == i,
            decreases num_bombs - i,
        {
            proof {
                assert(solved_board@.push(Cell::Bomb).drop_last() =~= solved_board@);
            }
            solved_board.push(Cell::Bomb);
            i = i + 1;
        }
        while i < num_cells
            invariant
                num_bombs <= i <= num_cells,
                solved_board@.len() == i,
                row_count(solved_board@, Cell::Bomb) == num_bombs,
            decreases num_cells - i,
        {
            proof {
                assert(solved_board@.push(Cell::Number(0)).drop_last() =~= solved_board@);
            }
            solved_board.push(Cell::Number(0));
            i = i + 1;
        }
        let ghost before = solved_board@;
        shuffle_cells(&mut solved_board);
        proof {
            lemma_row_count_multiset(before, Cell::Bomb);
            lemma_row_count_multiset(solved_board@, Cell::Bomb);
        }
        let ghost flat = solved_board@;
        proof {
            assert(flat.len() == (width as int) * (height as int)) by (nonlinear_arith)
                requires
                    flat.len() == (height as int) * (width as int),
            ;
        }
        let rows = match unflatten(solved_board, width, height) {
            Ok(v) => v,
            Err(e) => {
                proof {
                    lemma_chunk_rows_len(flat, width as int);
                    lemma_new_shape(flat.len() as int, width as int, height as int);
                }
                return Err(e);
            },
        };
        proof {
            lemma_new_shape(flat.len() as int, width as int, height as int);
            lemma_chunk_rows_len(flat, width as int);
            if width >= 1 {
                lemma_chunk_rows_exact(flat, width as int, height as int);
            } else {
                assert(flat.len() == 0) by (nonlinear_arith)
                    requires
                        flat.len() == (width as int) * (height as int),
                        width == 0,
                ;
                assert(chunk_rows(flat, 0) =~= seq![Seq::<Cell>::empty()]);
            }
        }
        proof {
            let w = width as int;
            assert forall|i: int| 0 <= i < rows@.len() implies (#[trigger] rows@[i])@.len()
                == width by {
                assert(rows@[i]@ == chunk_rows(flat, w)[i]);
                if width >= 1 {
                    assert(0 <= i * w && i * w + w <= flat.len()) by (nonlinear_arith)
                        requires
                            0 <= i < height as int,
                            w >= 1,
                            flat.len() == w * (height as int),
                    ;
                    assert(chunk_rows(flat, w)[i] =~= flat.subrange(i * w, i * w + w));
                    assert(flat.subrange(i * w, i * w + w).len() == w);
                } else {
                    assert(flat.len() == 0) by (nonlinear_arith)
                        requires
                            flat.len() == w * (height as int),
                            w == 0,
                    ;
                    assert(chunk_rows(flat, w) =~= seq![Seq::<Cell>::empty()]);
                }
            }
        }
        let solved = match Grid::from(rows, width, height) {
            Ok(g) => g,
            Err(e) => {
                proof {
                    assert(false);
                }
                return Err(e);
            },
        };
        proof {
            assert(solved@.rows =~= chunk_rows(flat, width as int));
            if width >= 1 {
                lemma_chunk_rows_flatten(flat, width as int);
                lemma_rows_count_flatten(solved@.rows, Cell::Bomb);
            } else {
                assert(solved@.rows.len() == 1);
                assert(solved@.rows[0].len() == 0);
                assert(solved@.rows.drop_last() =~= Seq::<Seq<Cell>>::empty());
                assert(solved@.rows.last() == solved@.rows[0]);
                assert(solved@.rows[0] =~= Seq::<Cell>::empty());
                assert(rows_count(Seq::<Seq<Cell>>::empty(), Cell::Bomb) == 0);
                assert(row_count(Seq::<Cell>::empty(), Cell::Bomb) == 0);
                assert(rows_count(solved@.rows, Cell::Bomb) == row_count(solved@.rows[0],
                    Cell::Bomb));
                assert(flat.len() == 0) by (nonlinear_arith)
                    requires
                        flat.len() == (width as int) * (height as int),
                        width == 0,
                ;
                assert(solved@.count(Cell::Bomb) == 0);
            }
        }
        GameBoard::from(solved)
    }
}

/// Whether the flat cell list of a fresh board reshapes into the requested
/// dimensions: always, except for degenerate zero-sized requests.
proof fn lemma_new_shape(n: int, w: int, h: int)
    requires
        0 <= w <= 255,
        0 <= h <= 255,
        n == w * h,
    ensures
        crate::utils::chunk_len(n, w) == h <==> (w >= 1 && h >= 1 || w == 0 && h == 1),
{
    if w == 0 {
        assert(n == 0) by (nonlinear_arith)
            requires
                n == w * h,
                w == 0,
        ;
        assert(crate::utils::chunk_len(0, 0) == 1);
    } else if h == 0 {
        assert(n == 0) by (nonlinear_arith)
            requires
                n == w * h,
                h == 0,
        ;
        assert(crate::utils::chunk_len(0, w) == 1);
    } else {
        lemma_chunk_len_exact(n, w, h);
    }
}

/// For positive dimensions the reshape count is exact.
proof fn lemma_chunk_len_exact(n: int, w: int, h: int)
    requires
        w >= 1,
        h >= 1,
        n == w * h,
    ensures
        crate::utils::chunk_len(n, w) == h,
    decreases h,
{
    if h == 1 {
        assert(n == w) by (nonlinear_arith)
            requires
                n == w * h,
                h == 1,
        ;
    } else {
        assert(n > w && n - w == w * (h - 1)) by (nonlinear_arith)
            requires
                n == w * h,
                w >= 1,
                h >= 2,
        ;
        lemma_chunk_len_exact(n - w, w, h - 1);
    }
}

/// What one flag placement can do: it keeps the shape and only turns
/// `Unknown` cells into flags.
pub proof fn lemma_spec_place_flags_frame(g: GridView<Cell>, x: int, y: int)
    requires
        g.wf(),
    ensures
        ({
            let r = spec_place_flags(g, x, y);
            &&& r.wf()
            &&& r.width == g.width
            &&& r.height == g.height
            &&& forall|i: int, j: int|
                g.in_bounds(i, j) && r.at(i, j) != #[trigger] g.at(i, j) ==> g.at(i, j)
                    == Cell::Unknown && r.at(i, j) == Cell::Flag
        }),
{
    if g.flags_enabled(x, y) {
        let list = g.adj_seq(x, y, Some(seq![Cell::Unknown, Cell::Flag]));
        lemma_adj_seq_in_bounds(g, x, y, Some(seq![Cell::Unknown, Cell::Flag]));
        assert forall|i: int| 0 <= i < list.len() implies {
            let p = #[trigger] list[i];
            g.in_bounds(p.0 as int, p.1 as int) && (g.at(p.0 as int, p.1 as int) == Cell::Unknown
                || g.at(p.0 as int, p.1 as int) == Cell::Flag)
        } by {
            let p = list[i];
            assert(crate::cellgrid::cell_filter_passes(
                Some(seq![Cell::Unknown, Cell::Flag]),
                g.at(p.0 as int, p.1 as int),
            ));
            let fs = seq![Cell::Unknown, Cell::Flag];
            let j = choose|j: int| 0 <= j < fs.len() && fs[j] == g.at(p.0 as int, p.1 as int);
            assert(j == 0 || j == 1);
        }
        lemma_flag_fold_frame(g, list, list.len() as int);
    }
}

/// What a whole flagging pass can do: only `Unknown` cells change, and
/// only to flags.
pub proof fn lemma_flags_all_frame(g: GridView<Cell>, w: int, n: int)
    requires
        g.wf(),
    ensures
        ({
            let r = flags_all_upto(g, w, n);
            &&& r.wf()
            &&& r.width == g.width
            &&& r.height == g.height
            &&& forall|i: int, j: int|
                g.in_bounds(i, j) && r.at(i, j) != #[trigger] g.at(i, j) ==> g.at(i, j)
                    == Cell::Unknown && r.at(i, j) == Cell::Flag
        }),
    decreases n,
{
    if n > 0 && w > 0 {
        lemma_flags_all_frame(g, w, n - 1);
        let mid = flags_all_upto(g, w, n - 1);
        lemma_spec_place_flags_frame(mid, (n - 1) % w, (n - 1) / w);
    }
}

/// What one chord can do: only `Unknown` cells change, and only to their
/// non-bomb ground-truth values.
pub proof fn lemma_spec_chord_frame(solved: GridView<Cell>, g: GridView<Cell>, x: int, y: int)
    requires
        g.wf(),
    ensures
        ({
            let r = spec_chord(solved, g, x, y);
            &&& r.wf()
            &&& r.width == g.width
            &&& r.height == g.height
            &&& forall|i: int, j: int|
                g.in_bounds(i, j) && r.at(i, j) != #[trigger] g.at(i, j) ==> g.at(i, j)
                    == Cell::Unknown && r.at(i, j) == solved.at(i, j) && solved.at(i, j)
                    != Cell::Bomb && solved.at(i, j) != Cell::Unknown
        }),
{
    if g.chord_enabled(x, y) {
        lemma_ff_work_frame(solved, g, neighbor_stack(x, y));
    }
}

/// What a whole chord pass can do: only `Unknown` cells change, and only
/// to their non-bomb ground-truth values.
pub proof fn lemma_chord_all_frame(solved: GridView<Cell>, g: GridView<Cell>, w: int, n: int)
    requires
        g.wf(),
    ensures
        ({
            let r = chord_all_upto(solved, g, w, n);
            &&& r.wf()
            &&& r.width == g.width
            &&& r.height == g.height
            &&& forall|i: int, j: int|
                g.in_bounds(i, j) && r.at(i, j) != #[trigger] g.at(i, j) ==> g.at(i, j)
                    == Cell::Unknown && r.at(i, j) == solved.at(i, j) && solved.at(i, j)
                    != Cell::Bomb && solved.at(i, j) != Cell::Unknown
        }),
    decreases n,
{
    if n > 0 && w > 0 {
        lemma_chord_all_frame(solved, g, w, n - 1);
        let mid = chord_all_upto(solved, g, w, n - 1);
        lemma_spec_chord_frame(solved, mid, (n - 1) % w, (n - 1) / w);
    }
}

/// Two distinct well-formed grids of the same shape differ at some
/// in-bounds cell.
pub proof fn lemma_neq_witness(a: GridView<Cell>, b: GridView<Cell>) -> (w: (int, int))
    requires
        a.wf(),
        b.wf(),
        a.width == b.width,
        a.height == b.height,
        a != b,
    ensures
        a.in_bounds(w.0, w.1),
        a.at(w.0, w.1) != b.at(w.0, w.1),
{
    if forall|x: int, y: int| a.in_bounds(x, y) ==> a.at(x, y) == #[trigger] b.at(x, y) {
        crate::grid::lemma_like_is_eq(a, b);
    }
    let (x, y) = choose|x: int, y: int| a.in_bounds(x, y) && a.at(x, y) != #[trigger] b.at(x, y);
    (x, y)
}

/// A reveal-style update (cells only ever changing away from `Unknown`)
/// that changes anything strictly shrinks the number of `Unknown` cells.
pub proof fn lemma_change_decreases_unknowns(g1: GridView<Cell>, g2: GridView<Cell>)
    requires
        g1.wf(),
        g2.wf(),
        g1.width == g2.width,
        g1.height == g2.height,
        forall|x: int, y: int|
            g1.in_bounds(x, y) && g2.at(x, y) != #[trigger] g1.at(x, y) ==> g1.at(x, y)
                == Cell::Unknown && g2.at(x, y) != Cell::Unknown,
    ensures
        g2.count(Cell::Unknown) <= g1.count(Cell::Unknown),
        g1 != g2 ==> g2.count(Cell::Unknown) < g1.count(Cell::Unknown),
{
    lemma_grid_count_pointwise_le(g1, g2, Cell::Unknown);
    if g1 != g2 {
        let w = lemma_neq_witness(g1, g2);
        crate::counting::lemma_grid_count_pointwise_lt(g1, g2, Cell::Unknown, w.0, w.1);
    }
}

/// Flood-fill monotonicity: a flood fill never changes an already revealed
/// (non-`Unknown`) cell and never reveals a ground-truth bomb, so repeating
/// it from any position leaves the grid unchanged once its region is
/// revealed.
pub proof fn lemma_flood_fill_monotone(solved: GridView<Cell>, g: GridView<Cell>, x: int, y: int)
    requires
        g.wf(),
    ensures
        ({
            let r = spec_flood_fill(solved, g, x, y);
            &&& forall|i: int, j: int|
                g.in_bounds(i, j) && #[trigger] g.at(i, j) != Cell::Unknown ==> r.at(i, j) == g.at(
                    i,
                    j,
                )
            &&& forall|i: int, j: int|
                g.in_bounds(i, j) && #[trigger] r.at(i, j) != g.at(i, j) ==> r.at(i, j)
                    == solved.at(i, j) && solved.at(i, j) != Cell::Bomb
        }),
{
    lemma_ff_work_frame(solved, g, seq![(x, y)]);
}

/// Chord precondition: a chord leaves the grid untouched unless the target
/// shows a nonzero number matched exactly by its flag count, and even then
/// it only reveals hidden non-bomb cells.
pub proof fn lemma_chord_precondition(solved: GridView<Cell>, g: GridView<Cell>, x: int, y: int)
    requires
        g.wf(),
    ensures
        !g.chord_enabled(x, y) ==> spec_chord(solved, g, x, y) == g,
        forall|i: int, j: int|
            g.in_bounds(i, j) && #[trigger] spec_chord(solved, g, x, y).at(i, j) != g.at(i, j)
                ==> g.at(i, j) == Cell::Unknown && spec_chord(solved, g, x, y).at(i, j)
                == solved.at(i, j) && solved.at(i, j) != Cell::Bomb,
{
    lemma_spec_chord_frame(solved, g, x, y);
}

/// Every cell a flagging fold changes is one of the listed positions.
pub proof fn lemma_flag_fold_members(g: GridView<Cell>, list: Seq<(u8, u8)>, n: int)
    requires
        g.wf(),
        n <= list.len(),
        forall|i: int|
            0 <= i < list.len() ==> {
                let p = #[trigger] list[i];
                g.in_bounds(p.0 as int, p.1 as int) && (g.at(p.0 as int, p.1 as int)
                    == Cell::Unknown || g.at(p.0 as int, p.1 as int) == Cell::Flag)
            },
    ensures
        ({
            let r = flag_fold(g, list, n);
            forall|x: int, y: int|
                g.in_bounds(x, y) && r.at(x, y) != #[trigger] g.at(x, y) ==> exists|k: int|
                    0 <= k < n && (#[trigger] list[k]).0 == x && list[k].1 == y
        }),
    decreases n,
{
    if n > 0 {
        lemma_flag_fold_members(g, list, n - 1);
        lemma_flag_fold_frame(g, list, n - 1);
        let g1 = flag_fold(g, list, n - 1);
        let r = flag_fold(g, list, n);
        let p = list[n - 1];
        if g1.in_bounds(p.0 as int, p.1 as int) && g1.at(p.0 as int, p.1 as int) != Cell::Flag {
            lemma_set_at(g1, p.0 as int, p.1 as int, Cell::Flag);
        }
        assert forall|x: int, y: int|
            g.in_bounds(x, y) && r.at(x, y) != #[trigger] g.at(x, y) implies exists|k: int|
            0 <= k < n && (#[trigger] list[k]).0 == x && list[k].1 == y by {
            if r.at(x, y) == g1.at(x, y) {
                let k = choose|k: int|
                    0 <= k < n - 1 && (#[trigger] list[k]).0 == x && list[k].1 == y;
                assert(0 <= k < n && list[k].0 == x && list[k].1 == y);
            } else {
                assert(p.0 == x && p.1 == y);
            }
        }
    }
}

} // verus!
