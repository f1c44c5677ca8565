//! Counting cells that hold a given value, with the facts the rest of the
//! crate needs: how a single write moves the count, how the count relates
//! to a sequence's multiset, and that reveal-style updates (a cell changing
//! only away from a designated value) can only shrink the count.

use vstd::multiset::Multiset;
use vstd::prelude::*;

use crate::grid::GridView;

verus! {

/// How many entries of `row` equal `c`.
pub open spec fn row_count<T>(row: Seq<T>, c: T) -> nat
    decreases row.len(),
{
    if row.len() == 0 {
        0
    } else {
        row_count(row.drop_last(), c) + if row.last() == c {
            1nat
        } else {
            0nat
        }
    }
}

/// How many cells across all of `rows` equal `c`.
pub open spec fn rows_count<T>(rows: Seq<Seq<T>>, c: T) -> nat
    decreases rows.len(),
{
    if rows.len() == 0 {
        0
    } else {
        rows_count(rows.drop_last(), c) + row_count(rows.last(), c)
    }
}

impl<T> GridView<T> {
    /// How many cells of the grid equal `c`.
    pub open spec fn count(self, c: T) -> nat {
        rows_count(self.rows, c)
    }
}

/// Writing one entry moves the count by the difference of the old and new
/// values' matches.
pub proof fn lemma_row_count_update<T>(row: Seq<T>, i: int, v: T, c: T)
    requires
        0 <= i < row.len(),
    ensures
        row_count(row.update(i, v), c) + (if row[i] == c {
            1nat
        } else {
            0nat
        }) == row_count(row, c) + (if v == c {
            1nat
        } else {
            0nat
        }),
    decreases row.len(),
{
    let u = row.update(i, v);
    if i == row.len() - 1 {
        assert(u.drop_last() =~= row.drop_last());
    } else {
        assert(u.drop_last() =~= row.drop_last().update(i, v));
        lemma_row_count_update(row.drop_last(), i, v, c);
    }
}

/// Replacing one row moves the count by the difference of the rows' counts.
pub proof fn lemma_rows_count_update<T>(rows: Seq<Seq<T>>, r: int, newrow: Seq<T>, c: T)
    requires
        0 <= r < rows.len(),
    ensures
        rows_count(rows.update(r, newrow), c) + row_count(rows[r], c) == rows_count(rows, c)
            + row_count(newrow, c),
    decreases rows.len(),
{
    let u = rows.update(r, newrow);
    if r == rows.len() - 1 {
        assert(u.drop_last() =~= rows.drop_last());
    } else {
        assert(u.drop_last() =~= rows.drop_last().update(r, newrow));
        lemma_rows_count_update(rows.drop_last(), r, newrow, c);
    }
}

/// Setting one cell moves the grid count by the difference of the old and
/// new values' matches.
pub proof fn lemma_set_count<T>(g: GridView<T>, x: int, y: int, v: T, c: T)
    requires
        g.wf(),
        g.in_bounds(x, y),
    ensures
        g.set(x, y, v).count(c) + (if g.at(x, y) == c {
            1nat
        } else {
            0nat
        }) == g.count(c) + (if v == c {
            1nat
        } else {
            0nat
        }),
{
    let r = g.height - y - 1;
    lemma_row_count_update(g.rows[r], x, v, c);
    lemma_rows_count_update(g.rows, r, g.rows[r].update(x, v), c);
}

/// When entries only ever change away from `u`, the count of `u` cannot
/// grow.
pub proof fn lemma_row_count_pointwise_le<T>(r1: Seq<T>, r2: Seq<T>, u: T)
    requires
        r1.len() == r2.len(),
        forall|k: int| 0 <= k < r1.len() && r2[k] != #[trigger] r1[k] ==> r1[k] == u && r2[k] != u,
    ensures
        row_count(r2, u) <= row_count(r1, u),
    decreases r1.len(),
{
    if r1.len() > 0 {
        assert forall|k: int|
            0 <= k < r1.drop_last().len() && r2.drop_last()[k] != #[trigger] r1.drop_last()[k]
            implies r1.drop_last()[k] == u && r2.drop_last()[k] != u by {
            assert(r1.drop_last()[k] == r1[k]);
            assert(r2.drop_last()[k] == r2[k]);
        }
        lemma_row_count_pointwise_le(r1.drop_last(), r2.drop_last(), u);
        assert(r1.last() == r1[r1.len() - 1]);
        assert(r2.last() == r2[r1.len() - 1]);
    }
}

/// When entries only ever change away from `u` and at least one does, the
/// count of `u` strictly shrinks.
pub proof fn lemma_row_count_pointwise_lt<T>(r1: Seq<T>, r2: Seq<T>, u: T, w: int)
    requires
        r1.len() == r2.len(),
        forall|k: int| 0 <= k < r1.len() && r2[k] != #[trigger] r1[k] ==> r1[k] == u && r2[k] != u,
        0 <= w < r1.len(),
        r1[w] == u,
        r2[w] != u,
    ensures
        row_count(r2, u) < row_count(r1, u),
    decreases r1.len(),
{
    assert forall|k: int|
        0 <= k < r1.drop_last().len() && r2.drop_last()[k] != #[trigger] r1.drop_last()[k] implies
        r1.drop_last()[k] == u && r2.drop_last()[k] != u by {
        assert(r1.drop_last()[k] == r1[k]);
        assert(r2.drop_last()[k] == r2[k]);
    }
    assert(r1.last() == r1[r1.len() - 1]);
    assert(r2.last() == r2[r1.len() - 1]);
    if w == r1.len() - 1 {
        lemma_row_count_pointwise_le(r1.drop_last(), r2.drop_last(), u);
    } else {
        assert(r1.drop_last()[w] == r1[w]);
        assert(r2.drop_last()[w] == r2[w]);
        lemma_row_count_pointwise_lt(r1.drop_last(), r2.drop_last(), u, w);
    }
}

/// Row-wise version of [`lemma_row_count_pointwise_le`].
pub proof fn lemma_rows_count_pointwise_le<T>(rs1: Seq<Seq<T>>, rs2: Seq<Seq<T>>, u: T)
    requires
        rs1.len() == rs2.len(),
        forall|r: int|
            0 <= r < rs1.len() ==> (#[trigger] rs2[r]).len() == (#[trigger] rs1[r]).len(),
        forall|r: int, k: int|
            0 <= r < rs1.len() && 0 <= k < rs1[r].len() && (#[trigger] rs2[r][k]) != (
            #[trigger] rs1[r][k]) ==> rs1[r][k] == u && rs2[r][k] != u,
    ensures
        rows_count(rs2, u) <= rows_count(rs1, u),
    decreases rs1.len(),
{
    if rs1.len() > 0 {
        let n = rs1.len() - 1;
        assert forall|r: int|
            0 <= r < rs1.drop_last().len() implies (#[trigger] rs2.drop_last()[r]).len() == (
        #[trigger] rs1.drop_last()[r]).len() by {
            assert(rs1.drop_last()[r] == rs1[r]);
            assert(rs2.drop_last()[r] == rs2[r]);
        }
        assert forall|r: int, k: int|
            0 <= r < rs1.drop_last().len() && 0 <= k < rs1.drop_last()[r].len() && (
            #[trigger] rs2.drop_last()[r][k]) != (#[trigger] rs1.drop_last()[r][k]) implies
            rs1.drop_last()[r][k] == u && rs2.drop_last()[r][k] != u by {
            assert(rs1.drop_last()[r] == rs1[r]);
            assert(rs2.drop_last()[r] == rs2[r]);
        }
        lemma_rows_count_pointwise_le(rs1.drop_last(), rs2.drop_last(), u);
        assert(rs1.last() == rs1[n] && rs2.last() == rs2[n]);
        assert forall|k: int|
            0 <= k < rs1[n].len() && rs2[n][k] != #[trigger] rs1[n][k] implies rs1[n][k] == u
            && rs2[n][k] != u by {}
        lemma_row_count_pointwise_le(rs1[n], rs2[n], u);
    }
}

/// Grid-level reveal monotonicity: when cells only ever change away from
/// `u`, the count of `u` cannot grow.
pub proof fn lemma_grid_count_pointwise_le<T>(g1: GridView<T>, g2: GridView<T>, u: T)
    requires
        g1.wf(),
        g2.wf(),
        g1.width == g2.width,
        g1.height == g2.height,
        forall|x: int, y: int|
            g1.in_bounds(x, y) && g2.at(x, y) != #[trigger] g1.at(x, y) ==> g1.at(x, y) == u
                && g2.at(x, y) != u,
    ensures
        g2.count(u) <= g1.count(u),
{
    assert forall|r: int, k: int|
        0 <= r < g1.rows.len() && 0 <= k < g1.rows[r].len() && (#[trigger] g2.rows[r][k]) != (
        #[trigger] g1.rows[r][k]) implies g1.rows[r][k] == u && g2.rows[r][k] != u by {
        let x = k;
        let y = g1.height - r - 1;
        assert(g1.at(x, y) == g1.rows[r][k]);
        assert(g2.at(x, y) == g2.rows[r][k]);
    }
    lemma_rows_count_pointwise_le(g1.rows, g2.rows, u);
}

/// Grid-level strict reveal monotonicity: when cells only ever change away
/// from `u` and the cell at `(wx, wy)` does, the count of `u` strictly
/// shrinks.
pub proof fn lemma_grid_count_pointwise_lt<T>(g1: GridView<T>, g2: GridView<T>, u: T, wx: int, wy: int)
    requires
        g1.wf(),
        g2.wf(),
        g1.width == g2.width,
        g1.height == g2.height,
        forall|x: int, y: int|
            g1.in_bounds(x, y) && g2.at(x, y) != #[trigger] g1.at(x, y) ==> g1.at(x, y) == u
                && g2.at(x, y) != u,
        g1.in_bounds(wx, wy),
        g1.at(wx, wy) == u,
        g2.at(wx, wy) != u,
    ensures
        g2.count(u) < g1.count(u),
{
    let r = g1.height - wy - 1;
    let mid = g2.rows.update(r, g1.rows[r]);
    let gm = GridView { rows: mid, ..g2 };
    assert(gm.wf());
    assert forall|x: int, y: int|
        g1.in_bounds(x, y) && gm.at(x, y) != #[trigger] g1.at(x, y) implies g1.at(x, y) == u
        && gm.at(x, y) != u by {
        let rr = g1.height - y - 1;
        if rr == r {
            assert(gm.at(x, y) == g1.at(x, y));
        } else {
            assert(gm.at(x, y) == g2.at(x, y));
        }
    }
    lemma_grid_count_pointwise_le(g1, gm, u);
    lemma_rows_count_update(g2.rows, r, g1.rows[r], u);
    assert forall|k: int|
        0 <= k < g1.rows[r].len() && g2.rows[r][k] != #[trigger] g1.rows[r][k] implies g1.rows[r][k]
        == u && g2.rows[r][k] != u by {
        assert(g1.at(k, wy) == g1.rows[r][k]);
        assert(g2.at(k, wy) == g2.rows[r][k]);
    }
    assert(g1.at(wx, wy) == g1.rows[r][wx]);
    assert(g2.at(wx, wy) == g2.rows[r][wx]);
    lemma_row_count_pointwise_lt(g1.rows[r], g2.rows[r], u, wx);
}

/// A row's count never exceeds its length.
pub proof fn lemma_row_count_le_len<T>(row: Seq<T>, c: T)
    ensures
        row_count(row, c) <= row.len(),
    decreases row.len(),
{
    if row.len() > 0 {
        lemma_row_count_le_len(row.drop_last(), c);
    }
}

/// A grid's count never exceeds `width * height` cells.
pub proof fn lemma_rows_count_le_total<T>(rows: Seq<Seq<T>>, c: T, w: int)
    requires
        forall|r: int| 0 <= r < rows.len() ==> (#[trigger] rows[r]).len() == w,
    ensures
        rows_count(rows, c) <= rows.len() * w,
    decreases rows.len(),
{
    if rows.len() > 0 {
        let n = rows.len() - 1;
        assert forall|r: int|
            0 <= r < rows.drop_last().len() implies (#[trigger] rows.drop_last()[r]).len() == w by {
            assert(rows.drop_last()[r] == rows[r]);
        }
        lemma_rows_count_le_total(rows.drop_last(), c, w);
        assert(rows.last() == rows[n]);
        lemma_row_count_le_len(rows[n], c);
        assert(n * w + w == (n + 1) * w) by (nonlinear_arith);
        assert(rows.len() * w == n * w + w);
    }
}

/// A sequence's count of `c` is its multiset's multiplicity of `c`.
pub proof fn lemma_row_count_multiset<T>(s: Seq<T>, c: T)
    ensures
        row_count(s, c) == s.to_multiset().count(c),
    decreases s.len(),
{
    if s.len() == 0 {
        s.to_multiset_ensures();
        assert(!s.contains(c));
        assert(s.to_multiset().count(c) == 0);
    } else {
        let t = s.drop_last();
        lemma_row_count_multiset(t, c);
        t.to_multiset_ensures();
        assert(t.push(s.last()) =~= s);
        assert(s.to_multiset() == t.push(s.last()).to_multiset());
        assert(t.push(s.last()).to_multiset() =~= t.to_multiset().insert(s.last()));
        vstd::multiset::lemma_insert_increases_count_by_1(t.to_multiset(), s.last());
        if s.last() != c {
            vstd::multiset::lemma_insert_other_elements_unchanged(t.to_multiset(), s.last(), c);
        }
    }
}

/// Counting distributes over concatenation.
pub proof fn lemma_row_count_add<T>(a: Seq<T>, b: Seq<T>, c: T)
    ensures
        row_count(a + b, c) == row_count(a, c) + row_count(b, c),
    decreases b.len(),
{
    if b.len() == 0 {
        assert(a + b =~= a);
    } else {
        assert((a + b).drop_last() =~= a + b.drop_last());
        assert((a + b).last() == b.last());
        lemma_row_count_add(a, b.drop_last(), c);
    }
}

/// A grid's count is the count over its concatenated rows.
pub proof fn lemma_rows_count_flatten<T>(rows: Seq<Seq<T>>, c: T)
    ensures
        rows_count(rows, c) == row_count(rows.flatten(), c),
    decreases rows.len(),
{
    if rows.len() == 0 {
        assert(rows.flatten() =~= Seq::<T>::empty());
    } else {
        let t = rows.drop_last();
        lemma_rows_count_flatten(t, c);
        assert(t.push(rows.last()) =~= rows);
        t.lemma_flatten_push(rows.last());
        lemma_row_count_add(t.flatten(), rows.last(), c);
    }
}

} // verus!
