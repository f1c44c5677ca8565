//! Cell-grid specifics: the 8-connected Moore neighborhood with its fixed
//! delta order, neighbor queries filtered by cell value, board-wide flag
//! validity, grid comparison, and the counter-grid decrement.

use vstd::prelude::*;

use crate::cell::Cell;
use crate::grid::{Grid, GridView};

verus! {

/// Whether a cell value passes an optional filter set.
pub open spec fn cell_filter_passes(f: Option<Seq<Cell>>, c: Cell) -> bool {
    match f {
        None => true,
        Some(s) => s.contains(c),
    }
}

impl GridView<Cell> {
    /// The contribution of one neighborhood delta to [`Self::adj_seq`]:
    /// the neighbor's position when it is in bounds and passes the filter.
    pub open spec fn adj_entry(self, x: int, y: int, dx: int, dy: int, f: Option<Seq<Cell>>) -> Seq<
        (u8, u8),
    > {
        if self.in_bounds(x + dx, y + dy) && cell_filter_passes(f, self.at(x + dx, y + dy)) {
            seq![(((x + dx) as u8, (y + dy) as u8))]
        } else {
            Seq::empty()
        }
    }

    /// The in-bounds Moore neighbors of `(x, y)` whose value passes the
    /// filter, in the fixed delta order `(-1,1), (0,1), (1,1), (-1,0),
    /// (1,0), (-1,-1), (0,-1), (1,-1)`.
    pub open spec fn adj_seq(self, x: int, y: int, f: Option<Seq<Cell>>) -> Seq<(u8, u8)> {
        self.adj_entry(x, y, -1, 1, f) + self.adj_entry(x, y, 0, 1, f) + self.adj_entry(
            x,
            y,
            1,
            1,
            f,
        ) + self.adj_entry(x, y, -1, 0, f) + self.adj_entry(x, y, 1, 0, f) + self.adj_entry(
            x,
            y,
            -1,
            -1,
            f,
        ) + self.adj_entry(x, y, 0, -1, f) + self.adj_entry(x, y, 1, -1, f)
    }

    /// How many in-bounds neighbors of `(x, y)` hold exactly `c`.
    pub open spec fn adj_count(self, x: int, y: int, c: Cell) -> int {
        self.adj_seq(x, y, Some(seq![c])).len() as int
    }

    /// How many in-bounds neighbors of `(x, y)` hold a value from `f`.
    pub open spec fn adj_count_in(self, x: int, y: int, f: Seq<Cell>) -> int {
        self.adj_seq(x, y, Some(f)).len() as int
    }

    /// Every revealed `Number(n)` cell has exactly `n` flagged neighbors.
    pub open spec fn valid_flags_ok(self) -> bool {
        forall|x: int, y: int|
            self.in_bounds(x, y) ==> match #[trigger] self.at(x, y) {
                Cell::Number(n) => self.adj_count(x, y, Cell::Flag) == n,
                _ => true,
            }
    }

    /// The positions where two equally sized grids differ, in iteration
    /// order over the first `n` cells (`x` varying fastest from `(0, 0)`).
    pub open spec fn diff_prefix(self, other: GridView<Cell>, n: int) -> Seq<(u8, u8)>
        decreases n,
    {
        if n <= 0 || self.width <= 0 {
            Seq::empty()
        } else {
            let x = (n - 1) % self.width;
            let y = (n - 1) / self.width;
            self.diff_prefix(other, n - 1) + if self.at(x, y) == other.at(x, y) {
                Seq::empty()
            } else {
                seq![((x as u8, y as u8))]
            }
        }
    }
}

/// Whether `list` holds `c`.
fn cell_list_contains(list: &Vec<Cell>, c: Cell) -> (r: bool)
    ensures
        r == list@.contains(c),
{
    let mut i: usize = 0;
    while i < list.len()
        invariant
            i <= list@.len(),
            forall|k: int| 0 <= k < i ==> list@[k] != c,
        decreases list@.len() - i,
    {
        if list[i] == c {
            return true;
        }
        i = i + 1;
    }
    false
}

/// The spec-level filter that an optional filter list denotes.
pub open spec fn filter_view(f: Option<Vec<Cell>>) -> Option<Seq<Cell>> {
    match f {
        None => None,
        Some(v) => Some(v@),
    }
}

impl Grid<Cell> {
    /// Appends the neighbor at `(x + dx, y + dy)` to `out` when it is in
    /// bounds and passes the filter.
    fn adj_push(
        &self,
        out: &mut Vec<(u8, u8)>,
        x: u8,
        y: u8,
        dx: i16,
        dy: i16,
        filter_cells: &Option<Vec<Cell>>,
    )
        requires
            self@.wf(),
            -1 <= dx <= 1,
            -1 <= dy <= 1,
        ensures
            final(out)@ == old(out)@ + self@.adj_entry(
                x as int,
                y as int,
                dx as int,
                dy as int,
                filter_view(*filter_cells),
            ),
    {
        let nx = x as i16 + dx;
        let ny = y as i16 + dy;
        let ghost pre = out@;
        match self.get_cell(nx, ny) {
            None => {},
            Some(e) => {
                let keep = match filter_cells {
                    None => true,
                    Some(list) => cell_list_contains(list, e),
                };
                if keep {
                    out.push((nx as u8, ny as u8));
                }
            },
        }
        proof {
            assert(final(out)@ =~= pre + self@.adj_entry(
                x as int,
                y as int,
                dx as int,
                dy as int,
                filter_view(*filter_cells),
            ));
        }
    }

    /// The in-bounds Moore neighbors of `(x, y)`, restricted to those whose
    /// value is in `filter_cells` when a filter is given, in the fixed
    /// delta order.
    pub fn adj_cells(&self, x: u8, y: u8, filter_cells: Option<Vec<Cell>>) -> (r: Result<
        Vec<(u8, u8)>,
        String,
    >)
        requires
            self@.wf(),
        ensures
            r matches Ok(v) && v@ == self@.adj_seq(x as int, y as int, filter_view(filter_cells)),
    {
        let mut out: Vec<(u8, u8)> = Vec::new();
        self.adj_push(&mut out, x, y, -1, 1, &filter_cells);
        self.adj_push(&mut out, x, y, 0, 1, &filter_cells);
        self.adj_push(&mut out, x, y, 1, 1, &filter_cells);
        self.adj_push(&mut out, x, y, -1, 0, &filter_cells);
        self.adj_push(&mut out, x, y, 1, 0, &filter_cells);
        self.adj_push(&mut out, x, y, -1, -1, &filter_cells);
        self.adj_push(&mut out, x, y, 0, -1, &filter_cells);
        self.adj_push(&mut out, x, y, 1, -1, &filter_cells);
        proof {
            assert(out@ =~= self@.adj_seq(x as int, y as int, filter_view(filter_cells)));
        }
        Ok(out)
    }

    /// The flagged neighbors of `(x, y)`.
    pub fn adj_flags(&self, x: u8, y: u8) -> (r: Result<Vec<(u8, u8)>, String>)
        requires
            self@.wf(),
        ensures
            r matches Ok(v) && v@ == self@.adj_seq(x as int, y as int, Some(seq![Cell::Flag])),
            r matches Ok(v) && v@.len() == self@.adj_count(x as int, y as int, Cell::Flag),
    {
        let mut filter: Vec<Cell> = Vec::new();
        filter.push(Cell::Flag);
        proof {
            assert(filter@ =~= seq![Cell::Flag]);
        }
        self.adj_cells(x, y, Some(filter))
    }

    /// The bomb neighbors of `(x, y)`.
    pub fn adj_bombs(&self, x: u8, y: u8) -> (r: Result<Vec<(u8, u8)>, String>)
        requires
            self@.wf(),
        ensures
            r matches Ok(v) && v@ == self@.adj_seq(x as int, y as int, Some(seq![Cell::Bomb])),
            r matches Ok(v) && v@.len() == self@.adj_count(x as int, y as int, Cell::Bomb),
    {
        let mut filter: Vec<Cell> = Vec::new();
        filter.push(Cell::Bomb);
        proof {
            assert(filter@ =~= seq![Cell::Bomb]);
        }
        self.adj_cells(x, y, Some(filter))
    }

    /// The neighbors of `(x, y)` that show a nonzero number.
    pub fn adj_number(&self, x: u8, y: u8) -> (r: Result<Vec<(u8, u8)>, String>)
        requires
            self@.wf(),
        ensures
            r matches Ok(v) && v@ == self@.adj_seq(x as int, y as int, Some(nonzero_numbers())),
            r matches Ok(v) && v@.len() == self@.adj_count_in(x as int, y as int, nonzero_numbers()),
    {
        let mut filter: Vec<Cell> = Vec::new();
        filter.push(Cell::Number(1));
        filter.push(Cell::Number(2));
        filter.push(Cell::Number(3));
        filter.push(Cell::Number(4));
        filter.push(Cell::Number(5));
        filter.push(Cell::Number(6));
        filter.push(Cell::Number(7));
        filter.push(Cell::Number(8));
        proof {
            assert(filter@ =~= nonzero_numbers());
        }
        self.adj_cells(x, y, Some(filter))
    }

    /// Whether every revealed `Number(n)` cell has exactly `n` flagged
    /// neighbors board-wide.
    pub fn valid_flags(&self) -> (r: bool)
        requires
            self@.wf(),
        ensures
            r == self@.valid_flags_ok(),
    {
        let mut y: u8 = 0;
        while y < self.height
            invariant
                self@.wf(),
                y <= self@.height,
                forall|i: int, j: int|
                    self@.in_bounds(i, j) && j < y ==> match #[trigger] self@.at(i, j) {
                        Cell::Number(n) => self@.adj_count(i, j, Cell::Flag) == n,
                        _ => true,
                    },
            decreases self@.height - y,
        {
            let mut x: u8 = 0;
            while x < self.width
                invariant
                    self@.wf(),
                    y < self@.height,
                    x <= self@.width,
                    forall|i: int, j: int|
                        self@.in_bounds(i, j) && j < y ==> match #[trigger] self@.at(i, j) {
                            Cell::Number(n) => self@.adj_count(i, j, Cell::Flag) == n,
                            _ => true,
                        },
                    forall|i: int|
                        0 <= i < x ==> match #[trigger] self@.at(i, y as int) {
                            Cell::Number(n) => self@.adj_count(i, y as int, Cell::Flag) == n,
                            _ => true,
                        },
                decreases self@.width - x,
            {
                match self.get_cell(x as i16, y as i16) {
                    Some(Cell::Number(num)) => {
                        let flags = match self.adj_flags(x, y) {
                            Ok(v) => v,
                            Err(_) => {
                                return false;
                            },
                        };
                        if flags.len() != num as usize {
                            return false;
                        }
                    },
                    _ => {},
                }
                x = x + 1;
            }
            y = y + 1;
        }
        true
    }

    /// The positions where this grid and an equally sized `other` differ,
    /// in iteration order; fails when the dimensions disagree.
    pub fn diff(&self, other: &Grid<Cell>) -> (r: Result<Vec<(u8, u8)>, String>)
        requires
            self@.wf(),
            other@.wf(),
        ensures
            ({
                let total = self@.width * self@.height;
                match r {
                    Ok(v) => self@.width == other@.width && self@.height == other@.height && v@
                        == self@.diff_prefix(other@, total),
                    Err(_) => self@.width != other@.width || self@.height != other@.height,
                }
            }),
    {
        if self.width != other.width {
            return Err("self.width != other.width".to_owned());
        }
        if self.height != other.height {
            return Err("height != other.height".to_owned());
        }
        let w = self.width;
        let mut out: Vec<(u8, u8)> = Vec::new();
        let mut y: u8 = 0;
        while y < self.height
            invariant
                self@.wf(),
                other@.wf(),
                self@.width == other@.width,
                self@.height == other@.height,
                w == self@.width,
                y <= self@.height,
                out@ == self@.diff_prefix(other@, y * w),
            decreases self@.height - y,
        {
            let mut x: u8 = 0;
            while x < w
                invariant
                    self@.wf(),
                    other@.wf(),
                    self@.width == other@.width,
                    self@.height == other@.height,
                    w == self@.width,
                    y < self@.height,
                    x <= w,
                    out@ == self@.diff_prefix(other@, y * w + x),
                decreases w - x,
            {
                let a = self.get_cell(x as i16, y as i16);
                let b = other.get_cell(x as i16, y as i16);
                let differs = match (a, b) {
                    (Some(ca), Some(cb)) => ca != cb,
                    _ => false,
                };
                proof {
                    let n = y * w + x + 1;
                    let ww = self@.width;
                    assert((n - 1) % ww == x && (n - 1) / ww == y) by (nonlinear_arith)
                        requires
                            0 <= x < ww,
                            0 <= y,
                            n - 1 == y * ww + x,
                    ;
                }
                if differs {
                    out.push((x, y));
                }
                proof {
                    assert(out@ =~= self@.diff_prefix(other@, y * w + x + 1));
                }
                x = x + 1;
            }
            proof {
                let yy = y as int;
                let ww = w as int;
                assert((yy + 1) * ww == yy * ww + ww) by (nonlinear_arith);
            }
            y = y + 1;
        }
        proof {
            let ww = self@.width;
            let hh = self@.height;
            assert(hh * ww == ww * hh) by (nonlinear_arith);
        }
        Ok(out)
    }
}

/// The eight nonzero number cells, the values [`Grid::adj_number`] selects.
pub open spec fn nonzero_numbers() -> Seq<Cell> {
    seq![
        Cell::Number(1),
        Cell::Number(2),
        Cell::Number(3),
        Cell::Number(4),
        Cell::Number(5),
        Cell::Number(6),
        Cell::Number(7),
        Cell::Number(8),
    ]
}

impl Grid<Option<u8>> {
    /// Decrements the counter at `(x, y)`; fails when the counter is
    /// already zero, and leaves out-of-bounds or empty cells alone.
    pub fn decr(&mut self, x: u8, y: u8) -> (r: Result<(), String>)
        requires
            old(self)@.wf(),
        ensures
            final(self)@.wf(),
            ({
                let g = old(self)@;
                if g.in_bounds(x as int, y as int) {
                    match g.at(x as int, y as int) {
                        Some(num) => if num > 0 {
                            r is Ok && final(self)@ == g.set(
                                x as int,
                                y as int,
                                Some((num - 1) as u8),
                            )
                        } else {
                            r is Err && *final(self) == *old(self)
                        },
                        None => r is Ok && *final(self) == *old(self),
                    }
                } else {
                    r is Ok && *final(self) == *old(self)
                }
            }),
    {
        match self.get_cell(x as i16, y as i16) {
            Some(cell) => {
                match cell {
                    Some(num) => {
                        if num == 0 {
                            return Err("attempted to decrement a zero counter".to_owned());
                        }
                        match self.set_cell(x as i16, y as i16, Some(num - 1)) {
                            Ok(()) => Ok(()),
                            Err(e) => Err(e),
                        }
                    },
                    None => Ok(()),
                }
            },
            None => Ok(()),
        }
    }
}

/// A singleton filter passes exactly its one value.
pub proof fn lemma_passes_single(c: Cell, d: Cell)
    ensures
        cell_filter_passes(Some(seq![d]), c) <==> c == d,
{
    if cell_filter_passes(Some(seq![d]), c) {
        let j = choose|j: int| 0 <= j < seq![d].len() && seq![d][j] == c;
        assert(j == 0);
    }
    if c == d {
        assert(seq![d][0] == c);
    }
}

/// Two equally shaped grids whose cells pass a filter at the same
/// positions have identical filtered neighborhoods everywhere.
pub proof fn lemma_adj_seq_same(
    g1: GridView<Cell>,
    g2: GridView<Cell>,
    x: int,
    y: int,
    f: Option<Seq<Cell>>,
)
    requires
        g1.width == g2.width,
        g1.height == g2.height,
        forall|i: int, j: int|
            g1.in_bounds(i, j) ==> (cell_filter_passes(f, #[trigger] g1.at(i, j))
                <==> cell_filter_passes(f, #[trigger] g2.at(i, j))),
    ensures
        g1.adj_seq(x, y, f) == g2.adj_seq(x, y, f),
{
    assert(g1.adj_entry(x, y, -1, 1, f) == g2.adj_entry(x, y, -1, 1, f));
    assert(g1.adj_entry(x, y, 0, 1, f) == g2.adj_entry(x, y, 0, 1, f));
    assert(g1.adj_entry(x, y, 1, 1, f) == g2.adj_entry(x, y, 1, 1, f));
    assert(g1.adj_entry(x, y, -1, 0, f) == g2.adj_entry(x, y, -1, 0, f));
    assert(g1.adj_entry(x, y, 1, 0, f) == g2.adj_entry(x, y, 1, 0, f));
    assert(g1.adj_entry(x, y, -1, -1, f) == g2.adj_entry(x, y, -1, -1, f));
    assert(g1.adj_entry(x, y, 0, -1, f) == g2.adj_entry(x, y, 0, -1, f));
    assert(g1.adj_entry(x, y, 1, -1, f) == g2.adj_entry(x, y, 1, -1, f));
}

/// A neighborhood holds at most 8 positions.
pub proof fn lemma_adj_seq_len(g: GridView<Cell>, x: int, y: int, f: Option<Seq<Cell>>)
    ensures
        g.adj_seq(x, y, f).len() <= 8,
{
}

/// Whether two well-formed grids are equal: same shape, same cells.
pub fn grids_equal(a: &Grid<Cell>, b: &Grid<Cell>) -> (r: bool)
    requires
        a@.wf(),
        b@.wf(),
    ensures
        r == (a@ == b@),
{
    if a.width != b.width || a.height != b.height {
        return false;
    }
    let mut y: u8 = 0;
    while y < a.height
        invariant
            a@.wf(),
            b@.wf(),
            a@.width == b@.width,
            a@.height == b@.height,
            y <= a@.height,
            forall|i: int, j: int|
                a@.in_bounds(i, j) && j < y ==> #[trigger] a@.at(i, j) == b@.at(i, j),
        decreases a@.height - y,
    {
        let mut x: u8 = 0;
        while x < a.width
            invariant
                a@.wf(),
                b@.wf(),
                a@.width == b@.width,
                a@.height == b@.height,
                y < a@.height,
                x <= a@.width,
                forall|i: int, j: int|
                    a@.in_bounds(i, j) && j < y ==> #[trigger] a@.at(i, j) == b@.at(i, j),
                forall|i: int| 0 <= i < x ==> #[trigger] a@.at(i, y as int) == b@.at(i, y as int),
            decreases a@.width - x,
        {
            let ca = a.get_cell(x as i16, y as i16);
            let cb = b.get_cell(x as i16, y as i16);
            let same = match (ca, cb) {
                (Some(u), Some(v)) => u == v,
                _ => false,
            };
            if !same {
                proof {
                    assert(a@.at(x as int, y as int) != b@.at(x as int, y as int));
                }
                return false;
            }
            x = x + 1;
        }
        y = y + 1;
    }
    proof {
        crate::grid::lemma_like_is_eq(a@, b@);
    }
    true
}

/// A single neighborhood delta.
pub open spec fn is_delta(dx: int, dy: int) -> bool {
    -1 <= dx <= 1 && -1 <= dy <= 1 && !(dx == 0 && dy == 0)
}

/// An in-bounds neighbor whose value is in the filter makes the filtered
/// neighborhood nonempty.
pub proof fn lemma_adj_count_in_pos(
    g: GridView<Cell>,
    x: int,
    y: int,
    dx: int,
    dy: int,
    fs: Seq<Cell>,
)
    requires
        is_delta(dx, dy),
        g.in_bounds(x + dx, y + dy),
        fs.contains(g.at(x + dx, y + dy)),
    ensures
        g.adj_count_in(x, y, fs) > 0,
{
    assert(g.adj_entry(x, y, dx, dy, Some(fs)).len() == 1);
}

/// A nonempty filtered neighborhood has an in-bounds neighbor whose value
/// is in the filter.
pub proof fn lemma_adj_pos_witness(g: GridView<Cell>, x: int, y: int, fs: Seq<Cell>) -> (d: (
    int,
    int,
))
    requires
        g.adj_count_in(x, y, fs) > 0,
    ensures
        is_delta(d.0, d.1),
        g.in_bounds(x + d.0, y + d.1),
        fs.contains(g.at(x + d.0, y + d.1)),
{
    let f = Some(fs);
    if g.adj_entry(x, y, -1, 1, f).len() > 0 {
        (-1, 1)
    } else if g.adj_entry(x, y, 0, 1, f).len() > 0 {
        (0, 1)
    } else if g.adj_entry(x, y, 1, 1, f).len() > 0 {
        (1, 1)
    } else if g.adj_entry(x, y, -1, 0, f).len() > 0 {
        (-1, 0)
    } else if g.adj_entry(x, y, 1, 0, f).len() > 0 {
        (1, 0)
    } else if g.adj_entry(x, y, -1, -1, f).len() > 0 {
        (-1, -1)
    } else if g.adj_entry(x, y, 0, -1, f).len() > 0 {
        (0, -1)
    } else {
        assert(g.adj_entry(x, y, 1, -1, f).len() > 0);
        (1, -1)
    }
}

/// Two equally shaped grids whose cells pass their respective filters at
/// the same positions around `(x, y)` have equally many filtered neighbors
/// there.
pub proof fn lemma_adj_len_iff(
    g1: GridView<Cell>,
    f1: Seq<Cell>,
    g2: GridView<Cell>,
    f2: Seq<Cell>,
    x: int,
    y: int,
)
    requires
        g1.width == g2.width,
        g1.height == g2.height,
        forall|dx: int, dy: int|
            #[trigger] is_delta(dx, dy) && g1.in_bounds(x + dx, y + dy) ==> (f1.contains(
                g1.at(x + dx, y + dy),
            ) <==> f2.contains(g2.at(x + dx, y + dy))),
    ensures
        g1.adj_count_in(x, y, f1) == g2.adj_count_in(x, y, f2),
{
    assert(is_delta(-1, 1) && is_delta(0, 1) && is_delta(1, 1) && is_delta(-1, 0) && is_delta(1, 0)
        && is_delta(-1, -1) && is_delta(0, -1) && is_delta(1, -1));
    assert(g1.adj_entry(x, y, -1, 1, Some(f1)).len() == g2.adj_entry(x, y, -1, 1, Some(f2)).len());
    assert(g1.adj_entry(x, y, 0, 1, Some(f1)).len() == g2.adj_entry(x, y, 0, 1, Some(f2)).len());
    assert(g1.adj_entry(x, y, 1, 1, Some(f1)).len() == g2.adj_entry(x, y, 1, 1, Some(f2)).len());
    assert(g1.adj_entry(x, y, -1, 0, Some(f1)).len() == g2.adj_entry(x, y, -1, 0, Some(f2)).len());
    assert(g1.adj_entry(x, y, 1, 0, Some(f1)).len() == g2.adj_entry(x, y, 1, 0, Some(f2)).len());
    assert(g1.adj_entry(x, y, -1, -1, Some(f1)).len() == g2.adj_entry(
        x,
        y,
        -1,
        -1,
        Some(f2),
    ).len());
    assert(g1.adj_entry(x, y, 0, -1, Some(f1)).len() == g2.adj_entry(x, y, 0, -1, Some(f2)).len());
    assert(g1.adj_entry(x, y, 1, -1, Some(f1)).len() == g2.adj_entry(x, y, 1, -1, Some(f2)).len());
}

/// Adding a flag next to `(x, y)` while keeping every existing flag
/// strictly grows the flag count there.
pub proof fn lemma_adj_count_flag_lt(
    g1: GridView<Cell>,
    g2: GridView<Cell>,
    x: int,
    y: int,
    dx: int,
    dy: int,
)
    requires
        g1.width == g2.width,
        g1.height == g2.height,
        forall|i: int, j: int|
            g1.in_bounds(i, j) && #[trigger] g1.at(i, j) == Cell::Flag ==> #[trigger] g2.at(i, j)
                == Cell::Flag,
        is_delta(dx, dy),
        g1.in_bounds(x + dx, y + dy),
        g1.at(x + dx, y + dy) != Cell::Flag,
        g2.at(x + dx, y + dy) == Cell::Flag,
    ensures
        g1.adj_count(x, y, Cell::Flag) < g2.adj_count(x, y, Cell::Flag),
{
    let f = Some(seq![Cell::Flag]);
    assert forall|ddx: int, ddy: int| is_delta(ddx, ddy) implies g1.adj_entry(
        x,
        y,
        ddx,
        ddy,
        f,
    ).len() <= g2.adj_entry(x, y, ddx, ddy, f).len() by {
        if g1.in_bounds(x + ddx, y + ddy) && cell_filter_passes(f, g1.at(x + ddx, y + ddy)) {
            lemma_passes_single(g1.at(x + ddx, y + ddy), Cell::Flag);
            lemma_passes_single(g2.at(x + ddx, y + ddy), Cell::Flag);
        }
    }
    assert(g1.adj_entry(x, y, dx, dy, f).len() == 0) by {
        lemma_passes_single(g1.at(x + dx, y + dy), Cell::Flag);
    }
    assert(g2.adj_entry(x, y, dx, dy, f).len() == 1) by {
        lemma_passes_single(g2.at(x + dx, y + dy), Cell::Flag);
    }
}

/// Every position an adjacency query returns is one of the 8 neighborhood
/// deltas away from the queried cell.
pub proof fn lemma_adj_seq_deltas(g: GridView<Cell>, x: int, y: int, f: Option<Seq<Cell>>)
    requires
        g.wf(),
    ensures
        forall|k: int|
            0 <= k < g.adj_seq(x, y, f).len() ==> is_delta(
                (#[trigger] g.adj_seq(x, y, f)[k]).0 - x,
                g.adj_seq(x, y, f)[k].1 - y,
            ),
{
    assert forall|k: int| 0 <= k < g.adj_seq(x, y, f).len() implies is_delta(
        (#[trigger] g.adj_seq(x, y, f)[k]).0 - x,
        g.adj_seq(x, y, f)[k].1 - y,
    ) by {
        delta_entry_ok(g, x, y, -1, 1, f);
        delta_entry_ok(g, x, y, 0, 1, f);
        delta_entry_ok(g, x, y, 1, 1, f);
        delta_entry_ok(g, x, y, -1, 0, f);
        delta_entry_ok(g, x, y, 1, 0, f);
        delta_entry_ok(g, x, y, -1, -1, f);
        delta_entry_ok(g, x, y, 0, -1, f);
        delta_entry_ok(g, x, y, 1, -1, f);
    }
}

/// A single neighborhood entry's position sits at its own delta.
proof fn delta_entry_ok(g: GridView<Cell>, x: int, y: int, dx: int, dy: int, f: Option<Seq<Cell>>)
    requires
        g.wf(),
        is_delta(dx, dy),
    ensures
        forall|k: int|
            0 <= k < g.adj_entry(x, y, dx, dy, f).len() ==> is_delta(
                (#[trigger] g.adj_entry(x, y, dx, dy, f)[k]).0 - x,
                g.adj_entry(x, y, dx, dy, f)[k].1 - y,
            ),
{
    if g.in_bounds(x + dx, y + dy) && cell_filter_passes(f, g.at(x + dx, y + dy)) {
        assert(0 <= x + dx < 256 && 0 <= y + dy < 256);
        assert(g.adj_entry(x, y, dx, dy, f)[0] == (((x + dx) as u8, (y + dy) as u8)));
    }
}

/// When one filtered neighborhood is contained in another pointwise and
/// their counts agree, the two memberships coincide at every neighbor.
pub proof fn lemma_adj_counts_squeeze(
    g1: GridView<Cell>,
    f1: Seq<Cell>,
    g2: GridView<Cell>,
    f2: Seq<Cell>,
    x: int,
    y: int,
)
    requires
        g1.width == g2.width,
        g1.height == g2.height,
        forall|dx: int, dy: int|
            #[trigger] is_delta(dx, dy) && g1.in_bounds(x + dx, y + dy) ==> (f1.contains(
                g1.at(x + dx, y + dy),
            ) ==> f2.contains(g2.at(x + dx, y + dy))),
        g1.adj_count_in(x, y, f1) == g2.adj_count_in(x, y, f2),
    ensures
        forall|dx: int, dy: int|
            #[trigger] is_delta(dx, dy) && g1.in_bounds(x + dx, y + dy) ==> (f2.contains(
                g2.at(x + dx, y + dy),
            ) ==> f1.contains(g1.at(x + dx, y + dy))),
{
    assert(is_delta(-1, 1) && is_delta(0, 1) && is_delta(1, 1) && is_delta(-1, 0) && is_delta(1, 0)
        && is_delta(-1, -1) && is_delta(0, -1) && is_delta(1, -1));
    assert(g1.adj_entry(x, y, -1, 1, Some(f1)).len() <= g2.adj_entry(x, y, -1, 1, Some(f2)).len());
    assert(g1.adj_entry(x, y, 0, 1, Some(f1)).len() <= g2.adj_entry(x, y, 0, 1, Some(f2)).len());
    assert(g1.adj_entry(x, y, 1, 1, Some(f1)).len() <= g2.adj_entry(x, y, 1, 1, Some(f2)).len());
    assert(g1.adj_entry(x, y, -1, 0, Some(f1)).len() <= g2.adj_entry(x, y, -1, 0, Some(f2)).len());
    assert(g1.adj_entry(x, y, 1, 0, Some(f1)).len() <= g2.adj_entry(x, y, 1, 0, Some(f2)).len());
    assert(g1.adj_entry(x, y, -1, -1, Some(f1)).len() <= g2.adj_entry(
        x,
        y,
        -1,
        -1,
        Some(f2),
    ).len());
    assert(g1.adj_entry(x, y, 0, -1, Some(f1)).len() <= g2.adj_entry(x, y, 0, -1, Some(f2)).len());
    assert(g1.adj_entry(x, y, 1, -1, Some(f1)).len() <= g2.adj_entry(x, y, 1, -1, Some(f2)).len());
    assert forall|dx: int, dy: int|
        #[trigger] is_delta(dx, dy) && g1.in_bounds(x + dx, y + dy) implies (f2.contains(
        g2.at(x + dx, y + dy),
    ) ==> f1.contains(g1.at(x + dx, y + dy))) by {
        if f2.contains(g2.at(x + dx, y + dy)) && !f1.contains(g1.at(x + dx, y + dy)) {
            assert(g1.adj_entry(x, y, dx, dy, Some(f1)).len() == 0);
            assert(g2.adj_entry(x, y, dx, dy, Some(f2)).len() == 1);
        }
    }
}

} // verus!
