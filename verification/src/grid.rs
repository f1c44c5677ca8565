//! A rectangular `width x height` container addressed by zero-based `(x, y)`
//! coordinates with `y = 0` as the bottom row (storage row `height - y - 1`).
//!
//! Reads outside the bounds return no value; writes outside the bounds fail
//! with an error. Neither ever panics.

use vstd::prelude::*;

verus! {

/// The mathematical model of a [`Grid`]: the stored rows (top row first)
/// together with the dimensions.
#[verifier::ext_equal]
pub struct GridView<T> {
    pub width: int,
    pub height: int,
    pub rows: Seq<Seq<T>>,
}

impl<T> GridView<T> {
    /// The shape every grid keeps: `height` rows of `width` cells each,
    /// both dimensions at most 255.
    pub open spec fn wf(self) -> bool {
        &&& self.rows.len() == self.height
        &&& forall|r: int| 0 <= r < self.rows.len() ==> (#[trigger] self.rows[r]).len() == self.width
        &&& 0 <= self.width <= 255
        &&& 0 <= self.height <= 255
    }

    pub open spec fn in_bounds(self, x: int, y: int) -> bool {
        0 <= x < self.width && 0 <= y < self.height
    }

    /// The cell at logical coordinates `(x, y)`; row 0 in storage is the top
    /// visual row, so logical `y` lives in storage row `height - y - 1`.
    pub open spec fn at(self, x: int, y: int) -> T
        recommends
            self.in_bounds(x, y),
    {
        self.rows[self.height - y - 1][x]
    }

    /// The grid with the cell at `(x, y)` replaced by `v`.
    pub open spec fn set(self, x: int, y: int, v: T) -> GridView<T>
        recommends
            self.in_bounds(x, y),
    {
        GridView {
            rows: self.rows.update(
                self.height - y - 1,
                self.rows[self.height - y - 1].update(x, v),
            ),
            ..self
        }
    }

    /// Two grids hold the same cells in the same shape.
    pub open spec fn like(self, other: GridView<T>) -> bool {
        &&& self.width == other.width
        &&& self.height == other.height
        &&& forall|x: int, y: int|
            self.in_bounds(x, y) ==> self.at(x, y) == #[trigger] other.at(x, y)
    }
}

/// `set` touches exactly one cell and keeps the shape.
pub proof fn lemma_set_at<T>(g: GridView<T>, x: int, y: int, v: T)
    requires
        g.wf(),
        g.in_bounds(x, y),
    ensures
        g.set(x, y, v).wf(),
        g.set(x, y, v).width == g.width,
        g.set(x, y, v).height == g.height,
        g.set(x, y, v).at(x, y) == v,
        forall|i: int, j: int|
            g.in_bounds(i, j) && !(i == x && j == y) ==> g.set(x, y, v).at(i, j) == #[trigger] g.at(
                i,
                j,
            ),
{
}

/// Cell-wise equal well-formed grids are equal.
pub proof fn lemma_like_is_eq<T>(a: GridView<T>, b: GridView<T>)
    requires
        a.wf(),
        b.wf(),
        a.like(b),
    ensures
        a == b,
{
    assert forall|r: int| 0 <= r < a.rows.len() implies a.rows[r] =~= b.rows[r] by {
        assert forall|c: int| 0 <= c < a.rows[r].len() implies a.rows[r][c] == b.rows[r][c] by {
            let x = c;
            let y = a.height - r - 1;
            assert(a.at(x, y) == b.at(x, y));
        }
    }
    assert(a =~~= b);
}

/// A rectangular array of `T` with bounds-checked access.
///
/// The rows are stored top visual row first; all coordinate arithmetic goes
/// through the [`GridView`] model.
#[derive(Clone, Debug, PartialEq, Eq)]
pub struct Grid<T> {
    pub cells: Vec<Vec<T>>,
    pub width: u8,
    pub height: u8,
}

impl<T> View for Grid<T> {
    type V = GridView<T>;

    open spec fn view(&self) -> GridView<T> {
        GridView {
            width: self.width as int,
            height: self.height as int,
            rows: Seq::new(self.cells@.len(), |r: int| self.cells@[r]@),
        }
    }
}

impl<T: Copy> Grid<T> {
    /// A `width x height` grid holding `fill_cell` everywhere.
    pub fn new(width: u8, height: u8, fill_cell: T) -> (g: Grid<T>)
        ensures
            g@.wf(),
            g@.width == width,
            g@.height == height,
            forall|x: int, y: int| g@.in_bounds(x, y) ==> g@.at(x, y) == fill_cell,
    {
        let mut cells: Vec<Vec<T>> = Vec::new();
        let mut r: u8 = 0;
        while r < height
            invariant
                r <= height,
                cells@.len() == r,
                forall|i: int|
                    0 <= i < r ==> (#[trigger] cells@[i])@.len() == width && forall|c: int|
                        0 <= c < width ==> cells@[i]@[c] == fill_cell,
            decreases height - r,
        {
            let mut row: Vec<T> = Vec::new();
            let mut c: u8 = 0;
            while c < width
                invariant
                    c <= width,
                    row@.len() == c,
                    forall|j: int| 0 <= j < c ==> row@[j] == fill_cell,
                decreases width - c,
            {
                row.push(fill_cell);
                c = c + 1;
            }
            cells.push(row);
            r = r + 1;
        }
        let g = Grid { cells, width, height };
        assert forall|x: int, y: int| g@.in_bounds(x, y) implies g@.at(x, y) == fill_cell by {
            assert(0 <= g@.height - y - 1 < g@.rows.len());
        }
        g
    }

    /// Wraps externally supplied rows; fails unless there are exactly
    /// `height` rows of exactly `width` cells each.
    pub fn from(cells: Vec<Vec<T>>, width: u8, height: u8) -> (r: Result<Grid<T>, String>)
        ensures
            ({
                let ok = cells@.len() == height && forall|i: int|
                    0 <= i < cells@.len() ==> (#[trigger] cells@[i])@.len() == width;
                match r {
                    Ok(g) => ok && g@.wf() && g.width == width && g.height == height && g@.rows
                        == Seq::new(cells@.len(), |i: int| cells@[i]@),
                    Err(_) => !ok,
                }
            }),
    {
        if cells.len() != height as usize {
            return Err("cells.len != height".to_owned());
        }
        let mut i: usize = 0;
        while i < cells.len()
            invariant
                i <= cells@.len(),
                forall|k: int| 0 <= k < i ==> (#[trigger] cells@[k])@.len() == width,
            decreases cells@.len() - i,
        {
            if cells[i].len() != width as usize {
                return Err("row != height".to_owned());
            }
            i = i + 1;
        }
        Ok(Grid { cells, width, height })
    }

    /// `Some` cell value when `(x, y)` is in bounds, `None` otherwise.
    pub fn get_cell(&self, x: i16, y: i16) -> (r: Option<T>)
        requires
            self@.wf(),
        ensures
            r == if self@.in_bounds(x as int, y as int) {
                Some(self@.at(x as int, y as int))
            } else {
                None::<T>
            },
    {
        if self.assert_bounds(x, y).is_err() {
            return None;
        }
        let row = (self.height as usize) - (y as usize) - 1;
        proof {
            assert(self@.rows.len() == self.cells@.len());
            assert(self@.rows[row as int] == self.cells@[row as int]@);
        }
        Some(self.cells[row][x as usize])
    }

    /// Replaces the cell at `(x, y)`; fails without mutating when the
    /// coordinates are out of bounds.
    pub fn set_cell(&mut self, x: i16, y: i16, cell_value: T) -> (r: Result<(), String>)
        requires
            old(self)@.wf(),
        ensures
            final(self)@.wf(),
            final(self).width == old(self).width,
            final(self).height == old(self).height,
            old(self)@.in_bounds(x as int, y as int) ==> r is Ok && final(self)@ == old(
                self,
            )@.set(x as int, y as int, cell_value),
            !old(self)@.in_bounds(x as int, y as int) ==> r is Err && *final(self) == *old(self),
    {
        match self.assert_bounds(x, y) {
            Err(e) => Err(e),
            Ok(()) => {
                let row = (self.height as usize) - (y as usize) - 1;
                proof {
                    assert(self@.rows.len() == self.cells@.len());
                    assert(self@.rows[row as int] == self.cells@[row as int]@);
                }
                self.cells[row][x as usize] = cell_value;
                proof {
                    assert(self@ =~~= old(self)@.set(x as int, y as int, cell_value));
                }

                Ok(())
            },
        }
    }

    /// `Ok` exactly when `(x, y)` is in bounds.
    fn assert_bounds(&self, x: i16, y: i16) -> (r: Result<(), String>)
        ensures
            r is Ok <==> self@.in_bounds(x as int, y as int),
    {
        if x < 0 || x >= self.width as i16 {
            Err("x is out of bounds".to_owned())
        } else if y < 0 || y >= self.height as i16 {
            Err("y is out of bounds".to_owned())
        } else {
            Ok(())
        }
    }

    /// A fresh iterator over all cells, `(0, 0)` (bottom left) first,
    /// `x` varying fastest.
    pub fn get_iter(&self) -> (it: CellsIter<T>)
        requires
            self@.wf(),
        ensures
            it.wf(),
            it.curr_pos == (0u8, 0u8),
            it@ == self@,
    {
        let it = CellsIter {
            curr_pos: (0, 0),
            width: self.width,
            height: self.height,
            cells: copy_rows(&self.cells),
        };
        proof {
            assert(it@.rows =~= self@.rows);
            assert(it@ =~~= self@);
        }
        it
    }
}

/// A copy of `height` rows of `Copy` cells.
fn copy_rows<T: Copy>(cells: &Vec<Vec<T>>) -> (r: Vec<Vec<T>>)
    ensures
        r@.len() == cells@.len(),
        forall|i: int| 0 <= i < cells@.len() ==> (#[trigger] r@[i])@ == cells@[i]@,
{
    let mut out: Vec<Vec<T>> = Vec::new();
    let mut i: usize = 0;
    while i < cells.len()
        invariant
            i <= cells@.len(),
            out@.len() == i,
            forall|k: int| 0 <= k < i ==> (#[trigger] out@[k])@ == cells@[k]@,
        decreases cells@.len() - i,
    {
        let src = &cells[i];
        let mut row: Vec<T> = Vec::new();
        let mut j: usize = 0;
        while j < src.len()
            invariant
                j <= src@.len(),
                row@.len() == j,
                forall|k: int| 0 <= k < j ==> row@[k] == src@[k],
            decreases src@.len() - j,
        {
            row.push(src[j]);
            j = j + 1;
        }
        proof {
            assert(row@ =~= src@);
        }
        out.push(row);
        i = i + 1;
    }
    out
}

/// One step of a cell iteration: a position and the value found there.
#[derive(Debug, PartialEq)]
pub struct CellsIterValue<T> {
    pub pos: (u8, u8),
    pub val: T,
}

/// A finite cursor over a grid's cells in `(0, 0)`, `(1, 0)`, ... order.
#[derive(Debug)]
pub struct CellsIter<T> {
    pub curr_pos: (u8, u8),
    pub width: u8,
    pub height: u8,
    pub cells: Vec<Vec<T>>,
}

impl<T> View for CellsIter<T> {
    type V = GridView<T>;

    open spec fn view(&self) -> GridView<T> {
        GridView {
            width: self.width as int,
            height: self.height as int,
            rows: Seq::new(self.cells@.len(), |r: int| self.cells@[r]@),
        }
    }
}

impl<T> CellsIter<T> {
    /// The iterator's snapshot still has the grid shape and the cursor has
    /// not run past the end.
    pub open spec fn wf(self) -> bool {
        &&& self@.wf()
        &&& self.curr_pos.0 <= self.width
        &&& self.curr_pos.1 <= self.height
    }

    /// How many cells the cursor has already produced.
    pub open spec fn index(self) -> int {
        self.curr_pos.1 * self@.width + self.curr_pos.0
    }
}

impl<T: Copy> CellsIter<T> {
    /// The next position/value pair, or `None` once all `width * height`
    /// cells have been produced.
    pub fn next(&mut self) -> (r: Option<CellsIterValue<T>>)
        requires
            old(self).wf(),
        ensures
            final(self).wf(),
            final(self)@ == old(self)@,
            ({
                let k = old(self).index();
                let w = old(self)@.width;
                let h = old(self)@.height;
                if k < w * h {
                    &&& r == Some(
                        CellsIterValue {
                            pos: ((k % w) as u8, (k / w) as u8),
                            val: old(self)@.at(k % w, k / w),
                        },
                    )
                    &&& final(self).index() == k + 1
                } else {
                    r is None && final(self).index() == k
                }
            }),
    {
        if self.width == 0 {
            return None;
        }
        if self.curr_pos.1 >= self.height {
            proof {
                let w = self@.width;
                let h = self@.height;
                assert(self.index() >= w * h) by (nonlinear_arith)
                    requires
                        self.index() == self.curr_pos.1 * w + self.curr_pos.0,
                        self.curr_pos.1 >= h,
                        self.curr_pos.0 >= 0,
                        w >= 0,
                ;
            }
            return None;
        }
        if self.curr_pos.0 >= self.width {
            self.curr_pos = (0, self.curr_pos.1 + 1);
            proof {
                let w = self@.width;
                let ki = self.index();
                let k0 = old(self).index();
                let y1 = self.curr_pos.1 as int;
                let y0 = old(self).curr_pos.1 as int;
                let x0 = old(self).curr_pos.0 as int;
                assert(ki == k0) by (nonlinear_arith)
                    requires
                        ki == y1 * w,
                        k0 == y0 * w + x0,
                        y1 == y0 + 1,
                        x0 == w,
                ;
            }
            if self.curr_pos.1 >= self.height {
                proof {
                    let w = self@.width;
                    let h = self@.height;
                    assert(self.index() >= w * h) by (nonlinear_arith)
                        requires
                            self.index() == self.curr_pos.1 * w,
                            self.curr_pos.1 >= h,
                            w >= 0,
                    ;
                }
                return None;
            }
        }
        let x = self.curr_pos.0;
        let y = self.curr_pos.1;
        let row = (self.height as usize) - (y as usize) - 1;
        proof {
            assert(self@.rows.len() == self.cells@.len());
            assert(self@.rows[row as int] == self.cells@[row as int]@);
        }
        let out = CellsIterValue { pos: (x, y), val: self.cells[row][x as usize] };
        self.curr_pos = (x + 1, y);
        proof {
            let w = self@.width;
            let k = old(self).index();
            assert(k == y * w + x);
            assert(k % w == x && k / w == y) by (nonlinear_arith)
                requires
                    0 <= x < w,
                    0 <= y,
                    k == y * w + x,
            ;
            let h = self@.height;
            assert(k < w * h) by (nonlinear_arith)
                requires
                    0 <= x < w,
                    0 <= y < h,
                    k == y * w + x,
            ;
        }
        Some(out)
    }

    /// Every remaining position/value pair, in iteration order.
    pub fn collect(self) -> (r: Vec<CellsIterValue<T>>)
        requires
            self.wf(),
            self.curr_pos == (0u8, 0u8),
        ensures
            r@.len() == self@.width * self@.height,
            forall|k: int|
                0 <= k < r@.len() ==> #[trigger] r@[k] == (CellsIterValue {
                    pos: ((k % self@.width) as u8, (k / self@.width) as u8),
                    val: self@.at(k % self@.width, k / self@.width),
                }),
    {
        let ghost total = self@.width * self@.height;
        proof {
            assert(total >= 0 && total <= 255 * 255) by (nonlinear_arith)
                requires
                    total == self@.width * self@.height,
                    0 <= self@.width <= 255,
                    0 <= self@.height <= 255,
            ;
        }
        let mut it = self;
        let mut out: Vec<CellsIterValue<T>> = Vec::new();
        loop
            invariant
                it.wf(),
                it@ == self@,
                it@.width * it@.height == total,
                0 <= it.index() <= total,
                out@.len() == it.index(),
                forall|k: int|
                    0 <= k < out@.len() ==> #[trigger] out@[k] == (CellsIterValue {
                        pos: ((k % self@.width) as u8, (k / self@.width) as u8),
                        val: self@.at(k % self@.width, k / self@.width),
                    }),
            decreases total - it.index(),
        {
            match it.next() {
                None => {
                    return out;
                },
                Some(v) => {
                    out.push(v);
                },
            }
        }
    }
}

impl<T: Copy> Grid<T> {
    /// An independent copy of the grid, sharing no storage with the
    /// original.
    pub fn duplicate(&self) -> (r: Grid<T>)
        ensures
            r@ == self@,
            r.width == self.width,
            r.height == self.height,
    {
        let r = Grid { cells: copy_rows(&self.cells), width: self.width, height: self.height };
        proof {
            assert(r@.rows =~= self@.rows);
            assert(r@ =~~= self@);
        }
        r
    }
}

} // verus!
