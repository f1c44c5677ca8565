//! Soundness of the constraint-satisfaction step: on a board whose player
//! grid is faithful to a consistent ground truth, every cell the step flags
//! is a true bomb and every cell it reveals is truly safe — faithfulness is
//! an invariant of the whole solve.

use vstd::prelude::*;

use crate::board::{
    chord_all_upto, flags_all_upto, ground_truth_consistent, lemma_adj_seq_in_bounds,
    lemma_chord_all_frame, lemma_ff_work_frame, lemma_flag_fold_frame, lemma_flag_fold_members,
    spec_flood_fill, spec_place_flags,
};
use crate::cell::Cell;
use crate::cellgrid::{
    cell_filter_passes, is_delta, lemma_adj_count_flag_lt, lemma_adj_count_in_pos,
    lemma_adj_counts_squeeze, lemma_adj_len_iff, lemma_adj_pos_witness, lemma_adj_seq_deltas,
    lemma_adj_seq_len, nonzero_numbers,
};
use crate::grid::GridView;
use crate::solve::{
    and_upto, apply_pattern, apply_solve, frontier_upto, lemma_apply_solve_frame,
    lemma_frontier_members, or_upto, pattern_bit, pattern_valid, spec_frontier, spec_simple_step,
    valid_patterns_upto,
};
use crate::strategy::permute_grid;

verus! {

/// The player grid claims nothing false about the ground truth: flags sit
/// on bombs, revealed numbers match the ground truth, and nothing else is
/// shown.
pub open spec fn faithful(solved: GridView<Cell>, g: GridView<Cell>) -> bool {
    forall|x: int, y: int|
        solved.in_bounds(x, y) ==> match #[trigger] g.at(x, y) {
            Cell::Unknown => true,
            Cell::Flag => solved.at(x, y) == Cell::Bomb,
            Cell::Number(n) => solved.at(x, y) == Cell::Number(n),
            Cell::Bomb => false,
            Cell::Asterix => false,
        }
}

/// The bomb pattern the ground truth assigns to the first `n` frontier
/// cells: bit `k` is set exactly when the cell under `f[k]` is a bomb.
pub open spec fn true_pattern(solved: GridView<Cell>, f: Seq<(u8, u8)>, n: int) -> u128
    decreases n,
{
    if n <= 0 {
        0
    } else {
        true_pattern(solved, f, n - 1) | (if solved.at(
            f[n - 1].0 as int,
            f[n - 1].1 as int,
        ) == Cell::Bomb {
            1u128 << ((n - 1) as u128)
        } else {
            0u128
        })
    }
}

/// The bits of the true pattern read off the ground truth.
pub proof fn lemma_true_pattern_bits(solved: GridView<Cell>, f: Seq<(u8, u8)>, n: int)
    requires
        0 <= n <= 127,
        n <= f.len(),
    ensures
        ({
            let tp = true_pattern(solved, f, n);
            &&& tp < (1u128 << (n as u128))
            &&& forall|k: int|
                0 <= k < n ==> #[trigger] pattern_bit(tp, k) == (solved.at(
                    f[k].0 as int,
                    f[k].1 as int,
                ) == Cell::Bomb)
        }),
    decreases n,
{
    if n == 0 {
        let tp = true_pattern(solved, f, 0);
        assert(tp == 0);
        assert(0u128 < (1u128 << 0u128)) by (bit_vector);
    } else {
        lemma_true_pattern_bits(solved, f, n - 1);
        let a = true_pattern(solved, f, n - 1);
        let tp = true_pattern(solved, f, n);
        let m = (n - 1) as u128;
        let nn = n as u128;
        if solved.at(f[n - 1].0 as int, f[n - 1].1 as int) == Cell::Bomb {
            assert(tp == a | (1u128 << m));
            assert(a < (1u128 << m) && m < 127 ==> (a | (1u128 << m)) < (1u128 << (m + 1)))
                by (bit_vector);
            assert(nn == m + 1);
            assert(m < 128 ==> ((a | (1u128 << m)) >> m) & 1 == 1) by (bit_vector);
            assert(pattern_bit(tp, n - 1));
            assert forall|k: int| 0 <= k < n - 1 implies #[trigger] pattern_bit(tp, k)
                == pattern_bit(a, k) by {
                let kk = k as u128;
                assert(kk < m && m < 128 ==> ((a | (1u128 << m)) >> kk) & 1 == (a >> kk) & 1)
                    by (bit_vector);
            }
        } else {
            assert(tp == (a | 0u128));
            assert(a | 0u128 == a) by (bit_vector);
            assert(a < (1u128 << m) && m < 127 ==> a < (1u128 << (m + 1))) by (bit_vector);
            assert(a < (1u128 << m) && m < 128 ==> ((a >> m) & 1 == 0)) by (bit_vector);
            assert(!pattern_bit(tp, n - 1));
        }
    }
}

/// A nonzero pattern below `2^len` has a set bit below `len`.
pub proof fn lemma_exists_set_bit(q: u128, len: int) -> (k: int)
    requires
        q >= 1,
        0 <= len <= 127,
        q < (1u128 << (len as u128)),
    ensures
        0 <= k < len,
        pattern_bit(q, k),
    decreases len,
{
    let ll = len as u128;
    if len == 0 {
        assert(q < (1u128 << 0u128) ==> q == 0) by (bit_vector);
        0
    } else if pattern_bit(q, len - 1) {
        len - 1
    } else {
        let mm = (len - 1) as u128;
        assert((q < (1u128 << (mm + 1)) && (q >> mm) & 1 != 1 && mm < 127) ==> q < (1u128 << mm))
            by (bit_vector);
        lemma_exists_set_bit(q, len - 1)
    }
}

/// What flagging a pattern over the frontier can do: only the listed
/// `Unknown` cells change, set bits really get flagged, and every new flag
/// stands on a listed cell with its bit set.
pub proof fn lemma_apply_pattern_props(g: GridView<Cell>, list: Seq<(u8, u8)>, p: u128, n: int)
    requires
        g.wf(),
        0 <= n <= list.len(),
        forall|k: int|
            0 <= k < list.len() ==> g.in_bounds((#[trigger] list[k]).0 as int, list[k].1 as int)
                && g.at(list[k].0 as int, list[k].1 as int) == Cell::Unknown,
    ensures
        ({
            let r = apply_pattern(g, list, p, n);
            &&& r.wf()
            &&& r.width == g.width
            &&& r.height == g.height
            &&& forall|x: int, y: int|
                g.in_bounds(x, y) && r.at(x, y) != #[trigger] g.at(x, y) ==> g.at(x, y)
                    == Cell::Unknown && r.at(x, y) == Cell::Flag
            &&& forall|k: int|
                0 <= k < n && #[trigger] pattern_bit(p, k) ==> r.at(
                    list[k].0 as int,
                    list[k].1 as int,
                ) == Cell::Flag
            &&& forall|x: int, y: int|
                g.in_bounds(x, y) && #[trigger] r.at(x, y) == Cell::Flag && g.at(x, y) != Cell::Flag
                    ==> exists|k: int|
                    0 <= k < n && (#[trigger] list[k]).0 == x && list[k].1 == y && pattern_bit(p, k)
        }),
    decreases n,
{
    if n > 0 {
        lemma_apply_pattern_props(g, list, p, n - 1);
        let g1 = apply_pattern(g, list, p, n - 1);
        let r = apply_pattern(g, list, p, n);
        let pos = list[n - 1];
        if pattern_bit(p, n - 1) && g1.in_bounds(pos.0 as int, pos.1 as int) {
            crate::grid::lemma_set_at(g1, pos.0 as int, pos.1 as int, Cell::Flag);
        }
        assert forall|k: int|
            0 <= k < n && #[trigger] pattern_bit(p, k) implies r.at(
            list[k].0 as int,
            list[k].1 as int,
        ) == Cell::Flag by {
            if k < n - 1 {
                assert(g1.at(list[k].0 as int, list[k].1 as int) == Cell::Flag);
            }
        }
        assert forall|x: int, y: int|
            g.in_bounds(x, y) && #[trigger] r.at(x, y) == Cell::Flag && g.at(x, y) != Cell::Flag
            implies exists|k: int|
            0 <= k < n && (#[trigger] list[k]).0 == x && list[k].1 == y && pattern_bit(p, k) by {
            if g1.at(x, y) == Cell::Flag {
                let k = choose|k: int|
                    0 <= k < n - 1 && (#[trigger] list[k]).0 == x && list[k].1 == y && pattern_bit(
                        p,
                        k,
                    );
                assert(0 <= k < n && list[k].0 == x && list[k].1 == y && pattern_bit(p, k));
            } else {
                assert(pos.0 == x && pos.1 == y && pattern_bit(p, n - 1));
            }
        }
    }
}

/// Every pattern the enumeration keeps is valid and in range, and every
/// valid pattern in range is kept.
pub proof fn lemma_valid_patterns_props(g: GridView<Cell>, list: Seq<(u8, u8)>, end: int)
    requires
        end <= 0x1_0000_0000_0000_0000_0000_0000_0000_0000,
    ensures
        ({
            let ps = valid_patterns_upto(g, list, end);
            &&& forall|i: int|
                0 <= i < ps.len() ==> pattern_valid(g, list, #[trigger] ps[i]) && 1 <= ps[i]
                    && (ps[i] as int) < end
            &&& forall|q: u128|
                1 <= q && (q as int) < end && pattern_valid(g, list, q) ==> #[trigger] ps.contains(
                    q,
                )
        }),
    decreases end,
{
    if end > 1 {
        lemma_valid_patterns_props(g, list, end - 1);
        let prev = valid_patterns_upto(g, list, end - 1);
        let ps = valid_patterns_upto(g, list, end);
        assert forall|q: u128|
            1 <= q && (q as int) < end && pattern_valid(g, list, q) implies #[trigger] ps.contains(
            q,
        ) by {
            if (q as int) < end - 1 {
                assert(prev.contains(q));
                let i = choose|i: int| 0 <= i < prev.len() && prev[i] == q;
                assert(ps[i] == q);
                assert(ps.contains(q));
            } else {
                assert(q == (end - 1) as u128);
                assert(ps[prev.len() as int] == q);
                assert(ps.contains(q));
            }
        }
    }
}

/// A bit set in the AND of a pattern list is set in every listed pattern.
pub proof fn lemma_and_bit_member(ps: Seq<u128>, init: u128, n: int, q: u128, k: int)
    requires
        0 <= n <= ps.len(),
        exists|j: int| 0 <= j < n && ps[j] == q,
        pattern_bit(and_upto(ps, init, n), k),
        0 <= k < 128,
    ensures
        pattern_bit(q, k),
    decreases n,
{
    let j = choose|j: int| 0 <= j < n && ps[j] == q;
    let a = and_upto(ps, init, n - 1);
    let b = ps[n - 1];
    let kk = k as u128;
    assert(kk < 128 && ((a & b) >> kk) & 1 == 1 ==> ((a >> kk) & 1 == 1 && (b >> kk) & 1 == 1))
        by (bit_vector);
    if j == n - 1 {
    } else {
        lemma_and_bit_member(ps, init, n - 1, q, k);
    }
}

/// Every unknown cell with a revealed nonzero number neighbor is collected
/// into the frontier.
pub proof fn lemma_frontier_complete(g: GridView<Cell>, w: int, n: int, px: int, py: int)
    requires
        g.wf(),
        w == g.width,
        w >= 1,
        0 <= n <= g.width * g.height,
        g.in_bounds(px, py),
        py * w + px < n,
        g.at(px, py) == Cell::Unknown,
        g.adj_count_in(px, py, nonzero_numbers()) > 0,
    ensures
        exists|k: int|
            0 <= k < frontier_upto(g, w, n).len() && #[trigger] frontier_upto(g, w, n)[k] == ((
            px as u8,
            py as u8,
            )),
    decreases n,
{
    let f = frontier_upto(g, w, n);
    let prev = frontier_upto(g, w, n - 1);
    let x = (n - 1) % w;
    let y = (n - 1) / w;
    if py * w + px == n - 1 {
        assert(x == px && y == py) by (nonlinear_arith)
            requires
                0 <= px < w,
                0 <= py,
                x == (n - 1) % w,
                y == (n - 1) / w,
                n - 1 == py * w + px,
        ;
        assert(f[prev.len() as int] == ((px as u8, py as u8)));
    } else {
        lemma_frontier_complete(g, w, n - 1, px, py);
        let k = choose|k: int|
            0 <= k < prev.len() && #[trigger] prev[k] == ((px as u8, py as u8));
        assert(f[k] == prev[k]);
    }
}

/// The true pattern is a valid bomb assignment: flagging exactly the
/// frontier cells that really hide bombs satisfies every revealed number.
pub proof fn lemma_true_pattern_valid(solved: GridView<Cell>, g: GridView<Cell>)
    requires
        g.wf(),
        solved.width == g.width,
        solved.height == g.height,
        ground_truth_consistent(solved),
        faithful(solved, g),
        spec_frontier(g).len() <= 127,
    ensures
        pattern_valid(
            g,
            spec_frontier(g),
            true_pattern(solved, spec_frontier(g), spec_frontier(g).len() as int),
        ),
{
    let f = spec_frontier(g);
    let len = f.len() as int;
    assert(0 <= g.width * g.height) by (nonlinear_arith)
        requires
            g.width >= 0,
            g.height >= 0,
    ;
    lemma_frontier_members(g, g.width, g.width * g.height);
    lemma_true_pattern_bits(solved, f, len);
    let tp = true_pattern(solved, f, len);
    lemma_apply_pattern_props(g, f, tp, len);
    let gt = apply_pattern(g, f, tp, len);
    lemma_flags_match_bombs(solved, g, gt, f, tp);
}

/// After flagging the true pattern (or any pattern that flags all and only
/// the frontier bombs while keeping the existing flags), every revealed
/// number counts its flags exactly, because flags and bombs coincide
/// around it.
#[verifier::rlimit(60)]
proof fn lemma_flags_match_bombs(
    solved: GridView<Cell>,
    g: GridView<Cell>,
    gt: GridView<Cell>,
    f: Seq<(u8, u8)>,
    tp: u128,
)
    requires
        g.wf(),
        solved.width == g.width,
        solved.height == g.height,
        ground_truth_consistent(solved),
        faithful(solved, g),
        f == spec_frontier(g),
        f.len() <= 127,
        tp == true_pattern(solved, f, f.len() as int),
        gt == apply_pattern(g, f, tp, f.len() as int),
    ensures
        gt.valid_flags_ok(),
{
    let len = f.len() as int;
    assert(0 <= g.width * g.height) by (nonlinear_arith)
        requires
            g.width >= 0,
            g.height >= 0,
    ;
    lemma_frontier_members(g, g.width, g.width * g.height);
    lemma_true_pattern_bits(solved, f, len);
    lemma_apply_pattern_props(g, f, tp, len);
    assert forall|qx: int, qy: int| gt.in_bounds(qx, qy) implies match #[trigger] gt.at(qx, qy) {
        Cell::Number(m) => gt.adj_count(qx, qy, Cell::Flag) == m,
        _ => true,
    } by {
        if let Cell::Number(m) = gt.at(qx, qy) {
            assert(gt.at(qx, qy) == g.at(qx, qy));
            assert(solved.at(qx, qy) == Cell::Number(m));
            lemma_adj_seq_len(solved, qx, qy, Some(seq![Cell::Bomb]));
            assert(solved.at(qx, qy) != Cell::Bomb);
            assert(solved.at(qx, qy) == Cell::Number(
                solved.adj_count(qx, qy, Cell::Bomb) as u8,
            ));
            assert(solved.adj_count(qx, qy, Cell::Bomb) == m);
            assert forall|dx: int, dy: int|
                #[trigger] is_delta(dx, dy) && gt.in_bounds(qx + dx, qy + dy) implies (seq![
                Cell::Flag,
            ].contains(gt.at(qx + dx, qy + dy)) <==> seq![Cell::Bomb].contains(
                solved.at(qx + dx, qy + dy),
            )) by {
                lemma_neighbor_flag_iff_bomb(solved, g, gt, f, tp, qx, qy, dx, dy, m);
            }
            lemma_adj_len_iff(gt, seq![Cell::Flag], solved, seq![Cell::Bomb], qx, qy);
        }
    }
}

/// A singleton filter holds exactly its one value.
proof fn lemma_single_contains(c: Cell, d: Cell)
    ensures
        seq![d].contains(c) <==> c == d,
{
    crate::cellgrid::lemma_passes_single(c, d);
}

/// Around a revealed number whose count reads off the ground truth, the
/// true pattern's flags coincide with the ground-truth bombs.
#[verifier::rlimit(100)]
proof fn lemma_neighbor_flag_iff_bomb(
    solved: GridView<Cell>,
    g: GridView<Cell>,
    gt: GridView<Cell>,
    f: Seq<(u8, u8)>,
    tp: u128,
    qx: int,
    qy: int,
    dx: int,
    dy: int,
    m: u8,
)
    requires
        g.wf(),
        solved.width == g.width,
        solved.height == g.height,
        faithful(solved, g),
        f == spec_frontier(g),
        gt.width == g.width,
        gt.height == g.height,
        forall|k: int|
            0 <= k < f.len() ==> #[trigger] pattern_bit(tp, k) == (solved.at(
                f[k].0 as int,
                f[k].1 as int,
            ) == Cell::Bomb),
        forall|k: int|
            0 <= k < f.len() && #[trigger] pattern_bit(tp, k) ==> gt.at(
                f[k].0 as int,
                f[k].1 as int,
            ) == Cell::Flag,
        forall|x: int, y: int|
            g.in_bounds(x, y) && #[trigger] gt.at(x, y) == Cell::Flag && g.at(x, y) != Cell::Flag
                ==> exists|k: int|
                0 <= k < f.len() && (#[trigger] f[k]).0 == x && f[k].1 == y && pattern_bit(tp, k),
        forall|x: int, y: int|
            g.in_bounds(x, y) && gt.at(x, y) != #[trigger] g.at(x, y) ==> g.at(x, y)
                == Cell::Unknown && gt.at(x, y) == Cell::Flag,
        g.in_bounds(qx, qy),
        g.at(qx, qy) == Cell::Number(m),
        m == solved.adj_count(qx, qy, Cell::Bomb),
        is_delta(dx, dy),
        g.in_bounds(qx + dx, qy + dy),
    ensures
        seq![Cell::Flag].contains(gt.at(qx + dx, qy + dy)) <==> seq![Cell::Bomb].contains(
            solved.at(qx + dx, qy + dy),
        ),
{
    let len = f.len() as int;
    let px = qx + dx;
    let py = qy + dy;
    lemma_single_contains(gt.at(px, py), Cell::Flag);
    lemma_single_contains(solved.at(px, py), Cell::Bomb);
    if gt.at(px, py) == Cell::Flag {
        if g.at(px, py) == Cell::Flag {
            assert(solved.at(px, py) == Cell::Bomb);
        } else {
            let k = choose|k: int|
                0 <= k < len && (#[trigger] f[k]).0 == px && f[k].1 == py && pattern_bit(tp, k);
            assert(solved.at(f[k].0 as int, f[k].1 as int) == Cell::Bomb);
        }
    }
    if solved.at(px, py) == Cell::Bomb {
        if g.at(px, py) != Cell::Flag {
            assert(g.at(px, py) == Cell::Unknown);
            assert(m >= 1) by {
                lemma_single_contains(solved.at(px, py), Cell::Bomb);
                lemma_adj_count_in_pos(solved, qx, qy, dx, dy, seq![Cell::Bomb]);
            }
            lemma_adj_seq_len(solved, qx, qy, Some(seq![Cell::Bomb]));
            assert(1 <= m <= 8);
            assert(nonzero_numbers()[m - 1] == Cell::Number(m));
            assert(nonzero_numbers().contains(g.at(qx, qy)));
            assert(is_delta(-dx, -dy));
            lemma_adj_count_in_pos(g, px, py, -dx, -dy, nonzero_numbers());
            assert(py * g.width + px < g.width * g.height) by (nonlinear_arith)
                requires
                    0 <= px < g.width,
                    0 <= py < g.height,
            ;
            lemma_frontier_complete(g, g.width, g.width * g.height, px, py);
            let k = choose|k: int| 0 <= k < f.len() && #[trigger] f[k] == ((px as u8, py as u8));
            assert(pattern_bit(tp, k) == (solved.at(f[k].0 as int, f[k].1 as int) == Cell::Bomb));
            assert(pattern_bit(tp, k));
            assert(gt.at(f[k].0 as int, f[k].1 as int) == Cell::Flag);
        } else {
            assert(gt.at(px, py) == Cell::Flag);
        }
    }
}

/// Every flag the constraint-step application adds stands on a frontier
/// cell whose guaranteed-bomb bit is set (reveals never write flags, since
/// a consistent ground truth shows numbers everywhere off the bombs).
proof fn lemma_apply_solve_flags(
    solved: GridView<Cell>,
    g: GridView<Cell>,
    list: Seq<(u8, u8)>,
    flagp: u128,
    safep: u128,
    n: int,
)
    requires
        g.wf(),
        solved.width == g.width,
        solved.height == g.height,
        ground_truth_consistent(solved),
        0 <= n <= list.len(),
        forall|k: int|
            0 <= k < list.len() ==> g.in_bounds((#[trigger] list[k]).0 as int, list[k].1 as int)
                && g.at(list[k].0 as int, list[k].1 as int) == Cell::Unknown,
    ensures
        ({
            let r = apply_solve(solved, g, list, flagp, safep, n);
            forall|x: int, y: int|
                g.in_bounds(x, y) && #[trigger] r.at(x, y) == Cell::Flag && g.at(x, y) != Cell::Flag
                    ==> exists|k: int|
                    0 <= k < n && (#[trigger] list[k]).0 == x && list[k].1 == y && pattern_bit(
                        flagp,
                        k,
                    )
        }),
    decreases n,
{
    if n > 0 {
        lemma_apply_solve_flags(solved, g, list, flagp, safep, n - 1);
        lemma_apply_solve_frame(solved, g, list, flagp, safep, n - 1);
        let g1 = apply_solve(solved, g, list, flagp, safep, n - 1);
        let pos = list[n - 1];
        let g2 = if pattern_bit(flagp, n - 1) && g1.in_bounds(pos.0 as int, pos.1 as int) {
            g1.set(pos.0 as int, pos.1 as int, Cell::Flag)
        } else {
            g1
        };
        if pattern_bit(flagp, n - 1) && g1.in_bounds(pos.0 as int, pos.1 as int) {
            crate::grid::lemma_set_at(g1, pos.0 as int, pos.1 as int, Cell::Flag);
        }
        let r = apply_solve(solved, g, list, flagp, safep, n);
        if !pattern_bit(safep, n - 1) {
            lemma_ff_work_frame(solved, g2, seq![(pos.0 as int, pos.1 as int)]);
        }
        assert forall|x: int, y: int|
            g.in_bounds(x, y) && #[trigger] r.at(x, y) == Cell::Flag && g.at(x, y) != Cell::Flag
            implies exists|k: int|
            0 <= k < n && (#[trigger] list[k]).0 == x && list[k].1 == y && pattern_bit(
                flagp,
                k,
            ) by {
            if r.at(x, y) != g2.at(x, y) {
                // a reveal: on a consistent ground truth it writes a number
                assert(r.at(x, y) == solved.at(x, y) && solved.at(x, y) != Cell::Bomb);
                assert(solved.at(x, y) == Cell::Number(
                    solved.adj_count(x, y, Cell::Bomb) as u8,
                ));
            } else if g2.at(x, y) != g1.at(x, y) {
                assert(x == pos.0 as int && y == pos.1 as int && pattern_bit(flagp, n - 1));
            } else {
                assert(g1.at(x, y) == Cell::Flag);
                let k = choose|k: int|
                    0 <= k < n - 1 && (#[trigger] list[k]).0 == x && list[k].1 == y && pattern_bit(
                        flagp,
                        k,
                    );
                assert(0 <= k < n && list[k].0 == x && list[k].1 == y && pattern_bit(flagp, k));
            }
        }
    }
}

/// Constraint-step soundness: on a board faithful to a consistent ground
/// truth, every cell the step flags hides a real bomb, every cell it
/// reveals is truly safe and shows its ground truth, and the board stays
/// faithful.
#[verifier::rlimit(100)]
pub proof fn lemma_permute_sound(solved: GridView<Cell>, g: GridView<Cell>)
    requires
        g.wf(),
        solved.width == g.width,
        solved.height == g.height,
        ground_truth_consistent(solved),
        faithful(solved, g),
        spec_frontier(g).len() <= 20,
    ensures
        ({
            let r = permute_grid(solved, g);
            &&& forall|x: int, y: int|
                g.in_bounds(x, y) && #[trigger] r.at(x, y) != g.at(x, y) ==> ((r.at(x, y)
                    == Cell::Flag ==> solved.at(x, y) == Cell::Bomb) && (r.at(x, y) != Cell::Flag
                    ==> r.at(x, y) == solved.at(x, y) && solved.at(x, y) != Cell::Bomb))
            &&& faithful(solved, r)
        }),
{
    let f = spec_frontier(g);
    let len = f.len() as int;
    assert(0 <= g.width * g.height) by (nonlinear_arith)
        requires
            g.width >= 0,
            g.height >= 0,
    ;
    lemma_frontier_members(g, g.width, g.width * g.height);
    let end_u = 1u128 << (len as u128);
    let end = end_u as int;
    let valids = valid_patterns_upto(g, f, end);
    let r = permute_grid(solved, g);
    if valids.len() == 0 {
        assert(r == g);
    } else {
        lemma_true_pattern_bits(solved, f, len);
        let tp = true_pattern(solved, f, len);
        lemma_true_pattern_valid(solved, g);
        lemma_valid_patterns_props(g, f, end);
        if tp == 0 {
            lemma_no_valid_pattern_when_all_safe(solved, g);
        }
        assert(tp != 0);
        assert((tp as int) < end);
        assert(valids.contains(tp));
        let flagp = and_upto(valids, (end_u - 1) as u128, valids.len() as int);
        let safep = or_upto(valids, 0u128, valids.len() as int);
        assert(r == apply_solve(solved, g, f, flagp, safep, len));
        lemma_apply_solve_frame(solved, g, f, flagp, safep, len);
        lemma_apply_solve_flags(solved, g, f, flagp, safep, len);
        assert forall|x: int, y: int|
            g.in_bounds(x, y) && #[trigger] r.at(x, y) != g.at(x, y) implies ((r.at(x, y)
            == Cell::Flag ==> solved.at(x, y) == Cell::Bomb) && (r.at(x, y) != Cell::Flag ==> r.at(
            x,
            y,
        ) == solved.at(x, y) && solved.at(x, y) != Cell::Bomb)) by {
            if r.at(x, y) == Cell::Flag {
                assert(g.at(x, y) == Cell::Unknown);
                let k = choose|k: int|
                    0 <= k < len && (#[trigger] f[k]).0 == x && f[k].1 == y && pattern_bit(
                        flagp,
                        k,
                    );
                lemma_and_bit_member(valids, (end_u - 1) as u128, valids.len() as int, tp, k);
                assert(pattern_bit(tp, k));
                assert(solved.at(f[k].0 as int, f[k].1 as int) == Cell::Bomb);
            }
        }
        assert forall|x: int, y: int| solved.in_bounds(x, y) implies match #[trigger] r.at(x, y) {
            Cell::Unknown => true,
            Cell::Flag => solved.at(x, y) == Cell::Bomb,
            Cell::Number(n) => solved.at(x, y) == Cell::Number(n),
            Cell::Bomb => false,
            Cell::Asterix => false,
        } by {
            if r.at(x, y) == g.at(x, y) {
                assert(g.at(x, y) == g.at(x, y));
            } else {
                if r.at(x, y) != Cell::Flag {
                    assert(r.at(x, y) == solved.at(x, y) && solved.at(x, y) != Cell::Bomb);
                    assert(solved.at(x, y) == Cell::Number(
                        solved.adj_count(x, y, Cell::Bomb) as u8,
                    ));
                }
            }
        }
    }
}

/// When no frontier cell hides a bomb, no candidate pattern is valid:
/// every revealed number's flags are already complete, so any extra flag
/// overshoots some number.
#[verifier::rlimit(100)]
proof fn lemma_no_valid_pattern_when_all_safe(solved: GridView<Cell>, g: GridView<Cell>)
    requires
        g.wf(),
        solved.width == g.width,
        solved.height == g.height,
        ground_truth_consistent(solved),
        faithful(solved, g),
        spec_frontier(g).len() <= 20,
        true_pattern(solved, spec_frontier(g), spec_frontier(g).len() as int) == 0,
    ensures
        valid_patterns_upto(
            g,
            spec_frontier(g),
            (1u128 << (spec_frontier(g).len() as u128)) as int,
        ).len() == 0,
{
    let f = spec_frontier(g);
    let len = f.len() as int;
    let end = (1u128 << (len as u128)) as int;
    let valids = valid_patterns_upto(g, f, end);
    if valids.len() > 0 {
        assert(0 <= g.width * g.height) by (nonlinear_arith)
            requires
                g.width >= 0,
                g.height >= 0,
        ;
        lemma_frontier_members(g, g.width, g.width * g.height);
        lemma_true_pattern_bits(solved, f, len);
        assert forall|k: int|
            0 <= k < f.len() implies solved.at(
            (#[trigger] f[k]).0 as int,
            f[k].1 as int,
        ) != Cell::Bomb by {
            let kk = k as u128;
            assert((0u128 >> kk) & 1 != 1) by (bit_vector);
            assert(!pattern_bit(0u128, k));
        }
        lemma_valid_patterns_props(g, f, end);
        let q = valids[0];
        assert(pattern_valid(g, f, q) && 1 <= q && (q as int) < end);
        lemma_pattern_overshoots(solved, g, q);
        assert(false);
    }
}

/// With no frontier bombs, any nonzero candidate pattern overshoots the
/// flag count of some revealed number, so it is invalid.
#[verifier::rlimit(100)]
#[verifier::spinoff_prover]
proof fn lemma_pattern_overshoots(solved: GridView<Cell>, g: GridView<Cell>, q: u128)
    requires
        g.wf(),
        solved.width == g.width,
        solved.height == g.height,
        ground_truth_consistent(solved),
        faithful(solved, g),
        spec_frontier(g).len() <= 20,
        forall|k: int|
            0 <= k < spec_frontier(g).len() ==> solved.at(
                (#[trigger] spec_frontier(g)[k]).0 as int,
                spec_frontier(g)[k].1 as int,
            ) != Cell::Bomb,
        forall|k: int|
            0 <= k < spec_frontier(g).len() ==> g.in_bounds(
                (#[trigger] spec_frontier(g)[k]).0 as int,
                spec_frontier(g)[k].1 as int,
            ) && g.at(spec_frontier(g)[k].0 as int, spec_frontier(g)[k].1 as int) == Cell::Unknown
                && g.adj_count_in(
                spec_frontier(g)[k].0 as int,
                spec_frontier(g)[k].1 as int,
                nonzero_numbers(),
            ) > 0,
        1 <= q,
        (q as int) < (1u128 << (spec_frontier(g).len() as u128)) as int,
    ensures
        !pattern_valid(g, spec_frontier(g), q),
{
    let f = spec_frontier(g);
    let len = f.len() as int;
    let k = lemma_exists_set_bit(q, len);
    let nb = f[k];
    let nbx = nb.0 as int;
    let nby = nb.1 as int;
    assert(g.at(nbx, nby) == Cell::Unknown);

    // the frontier cell has a revealed nonzero number neighbor
    let d = lemma_adj_pos_witness(g, nbx, nby, nonzero_numbers());
    let qx = nbx + d.0;
    let qy = nby + d.1;
    let fs = nonzero_numbers();
    let mi = choose|i: int| 0 <= i < fs.len() && fs[i] == g.at(qx, qy);
    let m = (mi + 1) as u8;
    assert(g.at(qx, qy) == Cell::Number(m));
    assert(solved.at(qx, qy) == Cell::Number(m));
    lemma_adj_seq_len(solved, qx, qy, Some(seq![Cell::Bomb]));
    assert(solved.at(qx, qy) == Cell::Number(solved.adj_count(qx, qy, Cell::Bomb) as u8));
    assert(m == solved.adj_count(qx, qy, Cell::Bomb));

    // with no frontier bombs, the number's flags already equal its bombs
    assert forall|dx: int, dy: int|
        #[trigger] is_delta(dx, dy) && g.in_bounds(qx + dx, qy + dy) implies (seq![
        Cell::Flag,
    ].contains(g.at(qx + dx, qy + dy)) <==> seq![Cell::Bomb].contains(
        solved.at(qx + dx, qy + dy),
    )) by {
        lemma_already_complete(solved, g, qx, qy, dx, dy, m);
    }
    lemma_adj_len_iff(g, seq![Cell::Flag], solved, seq![Cell::Bomb], qx, qy);
    assert(g.adj_count(qx, qy, Cell::Flag) == m);

    // yet the candidate pattern adds a flag next to it
    lemma_apply_pattern_props(g, f, q, len);
    let gq = apply_pattern(g, f, q, len);
    assert(gq.at(nbx, nby) == Cell::Flag);
    assert(is_delta(-d.0, -d.1));
    assert(g.adj_count(qx, qy, Cell::Flag) < gq.adj_count(qx, qy, Cell::Flag)) by {
        lemma_adj_count_flag_lt(g, gq, qx, qy, -d.0, -d.1);
    }
    assert(gq.at(qx, qy) == Cell::Number(m));
    if gq.valid_flags_ok() {
        assert(gq.adj_count(qx, qy, Cell::Flag) == m);
    }
}

/// With no frontier bombs, flags and bombs already coincide around any
/// revealed nonzero number.
#[verifier::rlimit(100)]
proof fn lemma_already_complete(
    solved: GridView<Cell>,
    g: GridView<Cell>,
    qx: int,
    qy: int,
    dx: int,
    dy: int,
    m: u8,
)
    requires
        g.wf(),
        solved.width == g.width,
        solved.height == g.height,
        faithful(solved, g),
        forall|k: int|
            0 <= k < spec_frontier(g).len() ==> solved.at(
                (#[trigger] spec_frontier(g)[k]).0 as int,
                spec_frontier(g)[k].1 as int,
            ) != Cell::Bomb,
        g.in_bounds(qx, qy),
        g.at(qx, qy) == Cell::Number(m),
        1 <= m <= 8,
        is_delta(dx, dy),
        g.in_bounds(qx + dx, qy + dy),
    ensures
        seq![Cell::Flag].contains(g.at(qx + dx, qy + dy)) <==> seq![Cell::Bomb].contains(
            solved.at(qx + dx, qy + dy),
        ),
{
    let px = qx + dx;
    let py = qy + dy;
    lemma_single_contains(g.at(px, py), Cell::Flag);
    lemma_single_contains(solved.at(px, py), Cell::Bomb);
    if solved.at(px, py) == Cell::Bomb && g.at(px, py) != Cell::Flag {
        assert(g.at(px, py) == Cell::Unknown);
        assert(nonzero_numbers()[m - 1] == Cell::Number(m));
        assert(nonzero_numbers().contains(g.at(qx, qy)));
        assert(is_delta(-dx, -dy));
        lemma_adj_count_in_pos(g, px, py, -dx, -dy, nonzero_numbers());
        assert(py * g.width + px < g.width * g.height) by (nonlinear_arith)
            requires
                0 <= px < g.width,
                0 <= py < g.height,
        ;
        assert(0 <= g.width * g.height) by (nonlinear_arith)
            requires
                g.width >= 0,
                g.height >= 0,
        ;
        lemma_frontier_complete(g, g.width, g.width * g.height, px, py);
        let k = choose|k: int|
            0 <= k < spec_frontier(g).len() && #[trigger] spec_frontier(g)[k] == ((
            px as u8,
            py as u8,
            ));
        assert(solved.at(px, py) != Cell::Bomb);
    }
}

/// Flood fill preserves faithfulness: it only reveals ground-truth numbers.
pub proof fn lemma_flood_fill_faithful(solved: GridView<Cell>, g: GridView<Cell>, x: int, y: int)
    requires
        g.wf(),
        solved.width == g.width,
        solved.height == g.height,
        ground_truth_consistent(solved),
        faithful(solved, g),
    ensures
        faithful(solved, spec_flood_fill(solved, g, x, y)),
{
    lemma_ff_work_frame(solved, g, seq![(x, y)]);
    let r = spec_flood_fill(solved, g, x, y);
    assert forall|i: int, j: int| solved.in_bounds(i, j) implies match #[trigger] r.at(i, j) {
        Cell::Unknown => true,
        Cell::Flag => solved.at(i, j) == Cell::Bomb,
        Cell::Number(n) => solved.at(i, j) == Cell::Number(n),
        Cell::Bomb => false,
        Cell::Asterix => false,
    } by {
        if r.at(i, j) != g.at(i, j) {
            assert(r.at(i, j) == solved.at(i, j) && solved.at(i, j) != Cell::Bomb);
            assert(solved.at(i, j) == Cell::Number(solved.adj_count(i, j, Cell::Bomb) as u8));
        } else {
            assert(g.at(i, j) == g.at(i, j));
        }
    }
}

/// Deterministic flagging is sound: when a number's undecided neighborhood
/// matches it exactly, every member really hides a bomb, so flagging them
/// preserves faithfulness.
#[verifier::rlimit(100)]
pub proof fn lemma_place_flags_faithful(solved: GridView<Cell>, g: GridView<Cell>, x: int, y: int)
    requires
        g.wf(),
        solved.width == g.width,
        solved.height == g.height,
        ground_truth_consistent(solved),
        faithful(solved, g),
    ensures
        faithful(solved, spec_place_flags(g, x, y)),
{
    if !g.flags_enabled(x, y) {
        return ;
    }
    let uf = seq![Cell::Unknown, Cell::Flag];
    let list = g.adj_seq(x, y, Some(uf));
    let r = spec_place_flags(g, x, y);
    let m = match g.at(x, y) {
        Cell::Number(n) => n,
        _ => 0,
    };
    assert(solved.at(x, y) == Cell::Number(m));
    lemma_adj_seq_len(solved, x, y, Some(seq![Cell::Bomb]));
    assert(solved.at(x, y) == Cell::Number(solved.adj_count(x, y, Cell::Bomb) as u8));
    assert(m == solved.adj_count(x, y, Cell::Bomb));

    // every bomb neighbor is still undecided, and there are exactly as
    // many undecided neighbors as bombs: the undecided set is the bombs
    assert forall|dx: int, dy: int|
        #[trigger] is_delta(dx, dy) && solved.in_bounds(x + dx, y + dy) implies (seq![
        Cell::Bomb,
    ].contains(solved.at(x + dx, y + dy)) ==> uf.contains(g.at(x + dx, y + dy))) by {
        lemma_single_contains(solved.at(x + dx, y + dy), Cell::Bomb);
        if solved.at(x + dx, y + dy) == Cell::Bomb {
            assert(g.at(x + dx, y + dy) == Cell::Unknown || g.at(x + dx, y + dy) == Cell::Flag);
            assert(uf[0] == Cell::Unknown && uf[1] == Cell::Flag);
        }
    }
    lemma_adj_counts_squeeze(solved, seq![Cell::Bomb], g, uf, x, y);

    lemma_adj_seq_in_bounds(g, x, y, Some(uf));
    lemma_adj_seq_deltas(g, x, y, Some(uf));
    assert forall|i: int| 0 <= i < list.len() implies {
        let p = #[trigger] list[i];
        g.in_bounds(p.0 as int, p.1 as int) && (g.at(p.0 as int, p.1 as int) == Cell::Unknown
            || g.at(p.0 as int, p.1 as int) == Cell::Flag)
    } by {
        let p = list[i];
        assert(cell_filter_passes(Some(uf), g.at(p.0 as int, p.1 as int)));
        let j = choose|j: int| 0 <= j < uf.len() && uf[j] == g.at(p.0 as int, p.1 as int);
        assert(j == 0 || j == 1);
    }
    lemma_flag_fold_frame(g, list, list.len() as int);
    lemma_flag_fold_members(g, list, list.len() as int);

    assert forall|i: int, j: int| solved.in_bounds(i, j) implies match #[trigger] r.at(i, j) {
        Cell::Unknown => true,
        Cell::Flag => solved.at(i, j) == Cell::Bomb,
        Cell::Number(n) => solved.at(i, j) == Cell::Number(n),
        Cell::Bomb => false,
        Cell::Asterix => false,
    } by {
        if r.at(i, j) != g.at(i, j) {
            assert(r.at(i, j) == Cell::Flag);
            let k = choose|k: int| 0 <= k < list.len() && (#[trigger] list[k]).0 == i && list[k].1
                == j;
            assert(is_delta(i - x, j - y));
            assert(cell_filter_passes(Some(uf), g.at(i, j)));
            assert(uf.contains(g.at(i, j)));
            lemma_single_contains(solved.at(i, j), Cell::Bomb);
            assert(solved.at(i, j) == Cell::Bomb);
        } else {
            assert(g.at(i, j) == g.at(i, j));
        }
    }
}

/// A whole flagging pass preserves faithfulness.
pub proof fn lemma_flags_all_faithful(solved: GridView<Cell>, g: GridView<Cell>, w: int, n: int)
    requires
        g.wf(),
        solved.width == g.width,
        solved.height == g.height,
        ground_truth_consistent(solved),
        faithful(solved, g),
    ensures
        faithful(solved, flags_all_upto(g, w, n)),
    decreases n,
{
    if n > 0 && w > 0 {
        lemma_flags_all_faithful(solved, g, w, n - 1);
        let mid = flags_all_upto(g, w, n - 1);
        crate::board::lemma_flags_all_frame(g, w, n - 1);
        lemma_place_flags_faithful(solved, mid, (n - 1) % w, (n - 1) / w);
    }
}

/// A whole chord pass preserves faithfulness: it only reveals ground-truth
/// numbers.
pub proof fn lemma_chord_all_faithful(solved: GridView<Cell>, g: GridView<Cell>, w: int, n: int)
    requires
        g.wf(),
        solved.width == g.width,
        solved.height == g.height,
        ground_truth_consistent(solved),
        faithful(solved, g),
    ensures
        faithful(solved, chord_all_upto(solved, g, w, n)),
{
    lemma_chord_all_frame(solved, g, w, n);
    let r = chord_all_upto(solved, g, w, n);
    assert forall|i: int, j: int| solved.in_bounds(i, j) implies match #[trigger] r.at(i, j) {
        Cell::Unknown => true,
        Cell::Flag => solved.at(i, j) == Cell::Bomb,
        Cell::Number(n2) => solved.at(i, j) == Cell::Number(n2),
        Cell::Bomb => false,
        Cell::Asterix => false,
    } by {
        if r.at(i, j) != g.at(i, j) {
            assert(r.at(i, j) == solved.at(i, j) && solved.at(i, j) != Cell::Bomb);
            assert(solved.at(i, j) == Cell::Number(solved.adj_count(i, j, Cell::Bomb) as u8));
        } else {
            assert(g.at(i, j) == g.at(i, j));
        }
    }
}

/// The deterministic step preserves faithfulness: together with
/// [`lemma_permute_sound`] and [`lemma_flood_fill_faithful`], a whole solve
/// run never flags a safe cell and never shows a wrong number.
pub proof fn lemma_simple_step_faithful(solved: GridView<Cell>, g: GridView<Cell>)
    requires
        g.wf(),
        solved.width == g.width,
        solved.height == g.height,
        ground_truth_consistent(solved),
        faithful(solved, g),
    ensures
        faithful(solved, spec_simple_step(solved, g)),
{
    let total = g.width * g.height;
    lemma_flags_all_faithful(solved, g, g.width, total);
    crate::board::lemma_flags_all_frame(g, g.width, total);
    let mid = flags_all_upto(g, g.width, total);
    lemma_chord_all_faithful(solved, mid, g.width, total);
}

} // verus!
