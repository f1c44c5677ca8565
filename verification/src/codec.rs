//! The text encoding of a cell grid: rows separated by newlines, cells
//! within a row separated by spaces, one token per cell (`0`-`8`, `B`, `F`,
//! `?`, and the reserved display marker `*`).
//!
//! Parsing infers the width from the first row's token count and the height
//! from the row count, then reshapes the flat token list by that width, so
//! every contract here is stated over the byte sequence of the input.

use vstd::prelude::*;
use vstd::string::StringSliceAdditionalSpecFns;

use crate::cell::Cell;
use crate::counting::row_count;
use crate::grid::{Grid, GridView};
use crate::utils::{chunk_rows, unflatten};

verus! {

/// Token separators: space and newline.
pub open spec fn is_sep(b: u8) -> bool {
    b == 32 || b == 10
}

/// The length of the leading run of non-separator bytes.
pub open spec fn run_len(s: Seq<u8>) -> nat
    decreases s.len(),
{
    if s.len() == 0 || is_sep(s[0]) {
        0
    } else {
        1 + run_len(s.drop_first())
    }
}

/// The leading run never runs past the end.
pub proof fn lemma_run_len_le_len(s: Seq<u8>)
    ensures
        run_len(s) <= s.len(),
    decreases s.len(),
{
    if s.len() > 0 && !is_sep(s[0]) {
        lemma_run_len_le_len(s.drop_first());
    }
}

/// The maximal runs of non-separator bytes: the whitespace-separated tokens
/// of the input, line breaks included as separators.
pub open spec fn runs(s: Seq<u8>) -> Seq<Seq<u8>>
    decreases s.len(),
{
    if s.len() == 0 {
        Seq::empty()
    } else if is_sep(s[0]) {
        runs(s.drop_first())
    } else {
        proof {
            lemma_run_len_le_len(s);
        }
        seq![s.take(run_len(s) as int)] + runs(s.skip(run_len(s) as int))
    }
}

/// The length of the first line: the bytes before the first newline.
pub open spec fn until_nl(s: Seq<u8>) -> nat
    decreases s.len(),
{
    if s.len() == 0 || s[0] == 10 {
        0
    } else {
        1 + until_nl(s.drop_first())
    }
}

/// The cell a single token byte denotes, if any.
pub open spec fn parse_byte(b: u8) -> Option<Cell> {
    if 48 <= b <= 56 {
        Some(Cell::Number((b - 48) as u8))
    } else if b == 66 {
        Some(Cell::Bomb)
    } else if b == 70 {
        Some(Cell::Flag)
    } else if b == 63 {
        Some(Cell::Unknown)
    } else if b == 42 {
        Some(Cell::Asterix)
    } else {
        None
    }
}

/// The cell a token denotes: only single recognized bytes are tokens.
pub open spec fn parse_token(t: Seq<u8>) -> Option<Cell> {
    if t.len() != 1 {
        None
    } else {
        parse_byte(t[0])
    }
}

/// The cell of a valid token (arbitrary marker on an invalid one).
pub open spec fn forced_token(t: Seq<u8>) -> Cell {
    match parse_token(t) {
        Some(c) => c,
        None => Cell::Asterix,
    }
}

/// Whether every token of the input is recognized.
pub open spec fn tokens_valid(s: Seq<u8>) -> bool {
    forall|i: int| 0 <= i < runs(s).len() ==> parse_token(#[trigger] runs(s)[i]) is Some
}

/// The flat cell list the input's tokens denote.
pub open spec fn parsed_cells(s: Seq<u8>) -> Seq<Cell> {
    Seq::new(runs(s).len(), |i: int| forced_token(runs(s)[i]))
}

/// The parsed height: one more than the number of newlines.
pub open spec fn spec_height(s: Seq<u8>) -> int {
    1 + row_count(s, 10u8) as int
}

/// The parsed width: the number of tokens on the first line.
pub open spec fn spec_width(s: Seq<u8>) -> int {
    runs(s.take(until_nl(s) as int)).len() as int
}

/// Whether the input parses: dimensions within 255, every token
/// recognized, and the flat token list reshaping by the first line's width
/// into exactly `height` full rows.
pub open spec fn parse_ok(s: Seq<u8>) -> bool {
    let w = spec_width(s);
    let h = spec_height(s);
    let rows = chunk_rows(parsed_cells(s), w);
    &&& h <= 255
    &&& w <= 255
    &&& tokens_valid(s)
    &&& rows.len() == h
    &&& forall|r: int| 0 <= r < rows.len() ==> (#[trigger] rows[r]).len() == w
}

/// The grid a parsable input denotes.
pub open spec fn parse_result(s: Seq<u8>) -> GridView<Cell> {
    GridView {
        width: spec_width(s),
        height: spec_height(s),
        rows: chunk_rows(parsed_cells(s), spec_width(s)),
    }
}

/// A scan that saw no newline among the first `i` bytes and stands at a
/// newline or the end has found the first line's length.
proof fn lemma_until_nl_at(s: Seq<u8>, i: int)
    requires
        0 <= i <= s.len(),
        forall|k: int| 0 <= k < i ==> s[k] != 10,
        i == s.len() || s[i] == 10,
    ensures
        until_nl(s) == i,
    decreases i,
{
    if i > 0 {
        let t = s.drop_first();
        assert forall|k: int| 0 <= k < i - 1 implies t[k] != 10 by {
            assert(t[k] == s[k + 1]);
        }
        if i - 1 < t.len() {
            assert(t[i - 1] == s[i]);
        }
        lemma_until_nl_at(t, i - 1);
    }
}

/// A scan that saw only non-separator bytes in `[0, j)` and stands at a
/// separator or the end has found the leading run's length.
proof fn lemma_run_len_at(s: Seq<u8>, j: int)
    requires
        0 <= j <= s.len(),
        forall|k: int| 0 <= k < j ==> !is_sep(s[k]),
        j == s.len() || is_sep(s[j]),
    ensures
        run_len(s) == j,
    decreases j,
{
    if j > 0 {
        let t = s.drop_first();
        assert forall|k: int| 0 <= k < j - 1 implies !is_sep(t[k]) by {
            assert(t[k] == s[k + 1]);
        }
        if j - 1 < t.len() {
            assert(t[j - 1] == s[j]);
        }
        lemma_run_len_at(t, j - 1);
    }
}

/// There are never more tokens than bytes.
proof fn lemma_runs_len_le(s: Seq<u8>)
    ensures
        runs(s).len() <= s.len(),
    decreases s.len(),
{
    if s.len() == 0 {
    } else if is_sep(s[0]) {
        lemma_runs_len_le(s.drop_first());
    } else {
        lemma_run_len_le_len(s);
        lemma_runs_len_le(s.skip(run_len(s) as int));
    }
}

/// The cell a single token byte denotes, if any.
fn parse_cell_byte(b: u8) -> (r: Option<Cell>)
    ensures
        r == parse_byte(b),
{
    if 48 <= b && b <= 56 {
        Some(Cell::Number(b - 48))
    } else if b == 66 {
        Some(Cell::Bomb)
    } else if b == 70 {
        Some(Cell::Flag)
    } else if b == 63 {
        Some(Cell::Unknown)
    } else if b == 42 {
        Some(Cell::Asterix)
    } else {
        None
    }
}

/// The end of the token starting at `i`: the first separator or the end.
fn scan_run_end(bytes: &[u8], i: usize) -> (j: usize)
    requires
        i < bytes@.len(),
        !is_sep(bytes@[i as int]),
    ensures
        i < j <= bytes@.len(),
        forall|k: int| i <= k < j ==> !is_sep(bytes@[k]),
        j == bytes@.len() || is_sep(bytes@[j as int]),
{
    let mut j = i;
    while j < bytes.len()
        invariant
            i <= j <= bytes@.len(),
            !is_sep(bytes@[i as int]),
            forall|k: int| i <= k < j ==> !is_sep(bytes@[k]),
        decreases bytes@.len() - j,
    {
        let b = bytes[j];
        if b == 32 || b == 10 {
            return j;
        }
        j = j + 1;
    }
    j
}

/// How many tokens the input holds.
fn count_tokens(bytes: &[u8]) -> (n: usize)
    ensures
        n == runs(bytes@).len(),
{
    let ghost s = bytes@;
    proof {
        assert(s.skip(0) =~= s);
        assert(runs(s).skip(0) =~= runs(s));
    }
    let mut n: usize = 0;
    let mut i: usize = 0;
    while i < bytes.len()
        invariant
            s == bytes@,
            i <= s.len(),
            n <= i,
            runs(s.skip(i as int)) == runs(s).skip(n as int),
            n <= runs(s).len(),
        decreases s.len() - i,
    {
        let b = bytes[i];
        if b == 32 || b == 10 {
            proof {
                assert(s.skip(i as int).drop_first() =~= s.skip(i + 1));
            }
            i = i + 1;
        } else {
            let j = scan_run_end(bytes, i);
            proof {
                let rest = s.skip(i as int);
                assert forall|k: int| 0 <= k < j - i implies !is_sep(rest[k]) by {
                    assert(rest[k] == s[k + i]);
                }
                if j - i < rest.len() {
                    assert(rest[j - i] == s[j as int]);
                }
                lemma_run_len_at(rest, j - i);
                assert(rest.skip(j - i) =~= s.skip(j as int));
                assert(runs(rest) == seq![rest.take(j - i)] + runs(s.skip(j as int)));
                lemma_runs_len_le(rest);
                assert(runs(s).skip(n as int).len() >= 1);
                assert((seq![rest.take(j - i)] + runs(s.skip(j as int))).drop_first() =~= runs(
                    s.skip(j as int),
                ));
                assert(runs(s).skip(n as int).drop_first() =~= runs(s).skip(n + 1));
                assert(runs(s.skip(j as int)) =~= runs(s).skip(n + 1));
            }
            n = n + 1;
            i = j;
        }
    }
    proof {
        assert(s.skip(s.len() as int) =~= Seq::<u8>::empty());
        assert(runs(s).skip(n as int).len() == 0);
    }
    n
}

/// The cells the input's tokens denote, in order; fails on the first
/// unrecognized token.
fn parse_tokens(bytes: &[u8]) -> (r: Result<Vec<Cell>, String>)
    ensures
        r is Ok <==> tokens_valid(bytes@),
        r matches Ok(v) ==> v@ == parsed_cells(bytes@),
{
    let ghost s = bytes@;
    proof {
        assert(s.skip(0) =~= s);
        assert(runs(s).skip(0) =~= runs(s));
    }
    let mut cells: Vec<Cell> = Vec::new();
    let mut i: usize = 0;
    while i < bytes.len()
        invariant
            s == bytes@,
            i <= s.len(),
            cells@.len() <= runs(s).len(),
            runs(s.skip(i as int)) == runs(s).skip(cells@.len() as int),
            forall|k: int|
                0 <= k < cells@.len() ==> parse_token(#[trigger] runs(s)[k]) == Some(cells@[k]),
        decreases s.len() - i,
    {
        let b = bytes[i];
        if b == 32 || b == 10 {
            proof {
                assert(s.skip(i as int).drop_first() =~= s.skip(i + 1));
            }
            i = i + 1;
        } else {
            let j = scan_run_end(bytes, i);
            let ghost t = cells@.len() as int;
            proof {
                let rest = s.skip(i as int);
                assert forall|k: int| 0 <= k < j - i implies !is_sep(rest[k]) by {
                    assert(rest[k] == s[k + i]);
                }
                if j - i < rest.len() {
                    assert(rest[j - i] == s[j as int]);
                }
                lemma_run_len_at(rest, j - i);
                assert(rest.skip(j - i) =~= s.skip(j as int));
                assert(rest.take(j - i) =~= s.subrange(i as int, j as int));
                assert(runs(rest) == seq![s.subrange(i as int, j as int)] + runs(s.skip(j as int)));
                lemma_runs_len_le(rest);
                assert(runs(s).skip(t).len() >= 1);
                assert(runs(s).skip(t)[0] == runs(s)[t]);
                assert(runs(s)[t] == s.subrange(i as int, j as int));
                assert((seq![s.subrange(i as int, j as int)] + runs(s.skip(j as int))).drop_first()
                    =~= runs(s.skip(j as int)));
                assert(runs(s).skip(t).drop_first() =~= runs(s).skip(t + 1));
                assert(runs(s.skip(j as int)) =~= runs(s).skip(t + 1));
            }
            let cell = if j - i == 1 {
                parse_cell_byte(b)
            } else {
                None
            };
            proof {
                let tok = s.subrange(i as int, j as int);
                if j - i == 1 {
                    assert(tok[0] == s[i as int]);
                    assert(parse_token(tok) == parse_byte(s[i as int]));
                }
            }
            match cell {
                None => {
                    proof {
                        assert(parse_token(runs(s)[t]) is None);
                    }
                    return Err("unknown character".to_owned());
                },
                Some(c) => {
                    cells.push(c);
                },
            }
            i = j;
        }
    }
    proof {
        assert(s.skip(s.len() as int) =~= Seq::<u8>::empty());
        assert(runs(s).skip(cells@.len() as int).len() == 0);
        assert(cells@ =~= parsed_cells(s));
    }
    Ok(cells)
}

impl Grid<Cell> {
    /// Parses the text encoding: the width is the first row's token count,
    /// the height the row count; fails on dimensions over 255, on an
    /// unrecognized token, and on a token list that does not reshape into
    /// `height` rows of `width` cells.
    pub fn from_str(input_str: &str) -> (r: Result<Grid<Cell>, String>)
        ensures
            ({
                let s = input_str.spec_bytes();
                &&& r is Ok <==> parse_ok(s)
                &&& (r matches Ok(g) ==> g@ == parse_result(s) && g@.wf())
            }),
    {
        let bytes: &[u8] = input_str.as_bytes();
        let ghost s = bytes@;

        // height: one more than the number of newlines
        let mut nl_count: usize = 0;
        let mut i: usize = 0;
        while i < bytes.len()
            invariant
                s == bytes@,
                i <= s.len(),
                nl_count == row_count(s.take(i as int), 10u8),
                nl_count <= i,
            decreases s.len() - i,
        {
            proof {
                assert(s.take(i + 1).drop_last() =~= s.take(i as int));
                assert(s.take(i + 1).last() == s[i as int]);
            }
            if bytes[i] == 10 {
                nl_count = nl_count + 1;
            }
            i = i + 1;
        }
        proof {
            assert(s.take(s.len() as int) =~= s);
        }
        if nl_count > 254 {
            return Err("height > 255".to_owned());
        }
        let height_big = nl_count + 1;

        // width: the number of tokens on the first line
        let mut nl: usize = 0;
        while nl < bytes.len() && bytes[nl] != 10
            invariant
                s == bytes@,
                nl <= s.len(),
                forall|k: int| 0 <= k < nl ==> s[k] != 10,
            decreases s.len() - nl,
        {
            nl = nl + 1;
        }
        proof {
            lemma_until_nl_at(s, nl as int);
        }
        let first_line = &bytes[0..nl];
        let width_big = count_tokens(first_line);
        proof {
            assert(first_line@ =~= s.take(until_nl(s) as int));
        }
        if width_big > 255 {
            return Err("width > 255".to_owned());
        }
        let height: u8 = height_big as u8;
        let width: u8 = width_big as u8;

        let flat_cells = match parse_tokens(bytes) {
            Ok(v) => v,
            Err(e) => {
                return Err(e);
            },
        };
        let cells = match unflatten(flat_cells, width, height) {
            Ok(v) => v,
            Err(e) => {
                return Err(e);
            },
        };
        let g = match Grid::from(cells, width, height) {
            Ok(g) => g,
            Err(e) => {
                return Err(e);
            },
        };
        proof {
            assert(g@.rows =~= chunk_rows(parsed_cells(s), spec_width(s)));
            assert(g@ =~~= parse_result(s));
        }
        Ok(g)
    }
}

/// The byte that encodes a cell (meaningful for cells `is_token` admits).
pub open spec fn token_byte(c: Cell) -> u8 {
    match c {
        Cell::Number(n) => (48 + n) as u8,
        Cell::Bomb => 66,
        Cell::Flag => 70,
        Cell::Unknown => 63,
        Cell::Asterix => 42,
    }
}

impl GridView<Cell> {
    /// Every cell of the grid has a token in the text encoding.
    pub open spec fn tokens_ok(self) -> bool {
        forall|x: int, y: int| self.in_bounds(x, y) ==> (#[trigger] self.at(x, y)).is_token()
    }
}

/// One encoded row: token bytes separated by single spaces.
pub open spec fn render_row(row: Seq<Cell>) -> Seq<u8>
    decreases row.len(),
{
    if row.len() == 0 {
        Seq::empty()
    } else if row.len() == 1 {
        seq![token_byte(row[0])]
    } else {
        seq![token_byte(row[0]), 32u8] + render_row(row.drop_first())
    }
}

/// The encoded grid: encoded rows separated by single newlines, top
/// storage row first.
pub open spec fn render_rows(rows: Seq<Seq<Cell>>) -> Seq<u8>
    decreases rows.len(),
{
    if rows.len() == 0 {
        Seq::empty()
    } else if rows.len() == 1 {
        render_row(rows[0])
    } else {
        render_row(rows[0]) + seq![10u8] + render_rows(rows.drop_first())
    }
}

/// The text encoding of a grid, as bytes.
pub open spec fn spec_render(g: GridView<Cell>) -> Seq<u8> {
    render_rows(g.rows)
}

/// An encoded row splits at any interior cell boundary around one space.
pub proof fn lemma_render_row_split(row: Seq<Cell>, j: int)
    requires
        1 <= j < row.len(),
    ensures
        render_row(row) == render_row(row.take(j)) + seq![32u8] + render_row(row.skip(j)),
    decreases j,
{
    if j == 1 {
        assert(row.take(1) =~= seq![row[0]]);
        assert(row.skip(1) =~= row.drop_first());
        assert(render_row(seq![row[0]]) == seq![token_byte(row[0])]);
        assert(render_row(row) =~= render_row(row.take(1)) + seq![32u8] + render_row(row.skip(1)));
    } else {
        let d = row.drop_first();
        lemma_render_row_split(d, j - 1);
        assert(row.take(j).drop_first() =~= d.take(j - 1));
        assert(row.take(j)[0] == row[0]);
        assert(row.skip(j) =~= d.skip(j - 1));
        assert(render_row(row.take(j)) == seq![token_byte(row[0]), 32u8] + render_row(d.take(j - 1)));
        assert(render_row(row) =~= render_row(row.take(j)) + seq![32u8] + render_row(row.skip(j)));
    }
}

/// The encoded grid splits at any interior row boundary around one newline.
pub proof fn lemma_render_rows_split(rows: Seq<Seq<Cell>>, i: int)
    requires
        1 <= i < rows.len(),
    ensures
        render_rows(rows) == render_rows(rows.take(i)) + seq![10u8] + render_rows(rows.skip(i)),
    decreases i,
{
    if i == 1 {
        assert(rows.take(1) =~= seq![rows[0]]);
        assert(rows.skip(1) =~= rows.drop_first());
        assert(render_rows(seq![rows[0]]) == render_row(rows[0]));
        assert(render_rows(rows) =~= render_rows(rows.take(1)) + seq![10u8] + render_rows(
            rows.skip(1),
        ));
    } else {
        let d = rows.drop_first();
        lemma_render_rows_split(d, i - 1);
        assert(rows.take(i).drop_first() =~= d.take(i - 1));
        assert(rows.take(i)[0] == rows[0]);
        assert(rows.skip(i) =~= d.skip(i - 1));
        assert(render_rows(rows.take(i)) == render_row(rows[0]) + seq![10u8] + render_rows(
            d.take(i - 1),
        ));
        assert(render_rows(rows) =~= render_rows(rows.take(i)) + seq![10u8] + render_rows(
            rows.skip(i),
        ));
    }
}

/// The token byte of a cell; always plain ASCII.
fn cell_byte(c: Cell) -> (b: u8)
    requires
        c.is_token(),
    ensures
        b == token_byte(c),
        b < 128,
{
    match c {
        Cell::Number(n) => 48 + n,
        Cell::Bomb => 66,
        Cell::Flag => 70,
        Cell::Unknown => 63,
        Cell::Asterix => 42,
    }
}

/// Relies on String::from_utf8: the string it accepts ASCII bytes into
/// encodes in UTF-8 as exactly those bytes.
#[verifier::external_body]
fn bytes_to_string(v: Vec<u8>) -> (r: String)
    requires
        forall|i: int| 0 <= i < v@.len() ==> v@[i] < 128,
    ensures
        vstd::utf8::encode_utf8(r@) == v@,
{
    String::from_utf8(v).unwrap_or_default()
}

impl Grid<Cell> {
    /// The text encoding of the grid: one line per storage row (top row
    /// first), token bytes separated by single spaces.
    pub fn to_string(&self) -> (r: String)
        requires
            self@.wf(),
            self@.tokens_ok(),
        ensures
            vstd::utf8::encode_utf8(r@) == spec_render(self@),
    {
        let ghost rowsv = self@.rows;
        let mut out: Vec<u8> = Vec::new();
        let mut r: u8 = 0;
        proof {
            assert(rowsv.take(0) =~= Seq::<Seq<Cell>>::empty());
        }
        while r < self.height
            invariant
                self@.wf(),
                self@.tokens_ok(),
                rowsv == self@.rows,
                r <= self@.height,
                out@ == render_rows(rowsv.take(r as int)),
                forall|k: int| 0 <= k < out@.len() ==> out@[k] < 128,
            decreases self@.height - r,
        {
            let ghost base = out@;
            let ghost sep: Seq<u8> = if r > 0 {
                seq![10u8]
            } else {
                Seq::empty()
            };
            if r > 0 {
                out.push(10);
            }
            proof {
                assert(out@ =~= base + sep);
                assert(rowsv[r as int].take(0) =~= Seq::<Cell>::empty());
            }
            let mut c: u8 = 0;
            while c < self.width
                invariant
                    self@.wf(),
                    self@.tokens_ok(),
                    rowsv == self@.rows,
                    r < self@.height,
                    c <= self@.width,
                    out@ == base + sep + render_row(rowsv[r as int].take(c as int)),
                    forall|k: int| 0 <= k < out@.len() ==> out@[k] < 128,
                decreases self@.width - c,
            {
                let ghost rowv = rowsv[r as int];
                if c > 0 {
                    out.push(32);
                }
                let row_idx = r as usize;
                proof {
                    assert(self@.rows[r as int] == self.cells@[r as int]@);
                    assert(self@.at(c as int, self@.height - r - 1) == rowv[c as int]);
                }
                let b = cell_byte(self.cells[row_idx][c as usize]);
                out.push(b);
                proof {
                    let cc = c as int;
                    if cc == 0 {
                        assert(rowv.take(1) =~= seq![rowv[0]]);
                        assert(render_row(rowv.take(1)) == seq![token_byte(rowv[0])]);
                    } else {
                        lemma_render_row_split(rowv.take(cc + 1), cc);
                        assert(rowv.take(cc + 1).take(cc) =~= rowv.take(cc));
                        assert(rowv.take(cc + 1).skip(cc) =~= seq![rowv[cc]]);
                        assert(render_row(seq![rowv[cc]]) == seq![token_byte(rowv[cc])]);
                    }
                    assert(out@ =~= base + sep + render_row(rowv.take(cc + 1)));
                }
                c = c + 1;
            }
            proof {
                let rr = r as int;
                assert(rowsv[rr].take(self@.width) =~= rowsv[rr]);
                if rr == 0 {
                    assert(rowsv.take(1) =~= seq![rowsv[0]]);
                    assert(render_rows(rowsv.take(1)) == render_row(rowsv[0]));
                    assert(out@ =~= render_rows(rowsv.take(1)));
                } else {
                    lemma_render_rows_split(rowsv.take(rr + 1), rr);
                    assert(rowsv.take(rr + 1).take(rr) =~= rowsv.take(rr));
                    assert(rowsv.take(rr + 1).skip(rr) =~= seq![rowsv[rr]]);
                    assert(render_rows(seq![rowsv[rr]]) == render_row(rowsv[rr]));
                    assert(out@ =~= base + seq![10u8] + render_row(rowsv[rr]));
                    assert(out@ =~= render_rows(rowsv.take(rr + 1)));
                }
            }
            r = r + 1;
        }
        proof {
            assert(rowsv.take(self@.height) =~= rowsv);
        }
        bytes_to_string(out)
    }
}

/// Token bytes are never separators.
proof fn lemma_token_byte_not_sep(c: Cell)
    requires
        c.is_token(),
    ensures
        !is_sep(token_byte(c)),
        parse_byte(token_byte(c)) == Some(c),
{
}

/// A rendered row has no newline byte.
proof fn lemma_render_row_no_nl(row: Seq<Cell>)
    requires
        forall|i: int| 0 <= i < row.len() ==> (#[trigger] row[i]).is_token(),
    ensures
        forall|k: int| 0 <= k < render_row(row).len() ==> #[trigger] render_row(row)[k] != 10,
        row_count(render_row(row), 10u8) == 0,
    decreases row.len(),
{
    if row.len() == 0 {
    } else if row.len() == 1 {
        lemma_token_byte_not_sep(row[0]);
        assert(render_row(row).drop_last() =~= Seq::<u8>::empty());
        assert(row_count(Seq::<u8>::empty(), 10u8) == 0);
    } else {
        let d = row.drop_first();
        assert forall|i: int| 0 <= i < d.len() implies (#[trigger] d[i]).is_token() by {
            assert(d[i] == row[i + 1]);
        }
        lemma_render_row_no_nl(d);
        lemma_token_byte_not_sep(row[0]);
        let pre = seq![token_byte(row[0]), 32u8];
        crate::counting::lemma_row_count_add(pre, render_row(d), 10u8);
        assert(pre.drop_last() =~= seq![token_byte(row[0])]);
        let tbs = seq![token_byte(row[0])];
        assert(tbs.drop_last() =~= Seq::<u8>::empty());
        assert(row_count(Seq::<u8>::empty(), 10u8) == 0);
        assert(row_count(tbs, 10u8) == 0);
        assert(row_count(pre, 10u8) == 0);
        assert forall|k: int| 0 <= k < render_row(row).len() implies #[trigger] render_row(
            row,
        )[k] != 10 by {
            if k >= 2 {
                assert(render_row(row)[k] == render_row(d)[k - 2]);
            }
        }
    }
}

/// The leading run of a compound is the leading run of its first part when
/// the remainder is empty or starts with a separator.
proof fn lemma_run_len_prefix(a: Seq<u8>, rest: Seq<u8>)
    requires
        run_len(a) < a.len() || rest.len() == 0 || is_sep(rest[0]),
    ensures
        run_len(a + rest) == run_len(a),
    decreases a.len(),
{
    lemma_run_len_le_len(a);
    if a.len() == 0 {
        assert(a + rest =~= rest);
    } else if is_sep(a[0]) {
        assert((a + rest)[0] == a[0]);
    } else {
        assert((a + rest)[0] == a[0]);
        assert((a + rest).drop_first() =~= a.drop_first() + rest);
        lemma_run_len_prefix(a.drop_first(), rest);
    }
}

/// A separator splits the token list: the tokens of `a ++ [sep] ++ b` are
/// the tokens of `a` followed by the tokens of `b`.
proof fn lemma_runs_split(a: Seq<u8>, sep: u8, b: Seq<u8>)
    requires
        is_sep(sep),
    ensures
        runs(a + seq![sep] + b) == runs(a) + runs(b),
    decreases a.len(),
{
    let s = a + seq![sep] + b;
    if a.len() == 0 {
        assert(s =~= seq![sep] + b);
        assert(s.drop_first() =~= b);
        assert(runs(s) == runs(b));
        assert(runs(a) =~= Seq::<Seq<u8>>::empty());
        assert(runs(a) + runs(b) =~= runs(b));
    } else if is_sep(a[0]) {
        assert(s[0] == a[0]);
        assert(s.drop_first() =~= a.drop_first() + seq![sep] + b);
        lemma_runs_split(a.drop_first(), sep, b);
    } else {
        assert(s[0] == a[0]);
        lemma_run_len_le_len(a);
        if run_len(a) < a.len() {
            lemma_run_len_prefix(a, seq![sep] + b);
            assert(a + (seq![sep] + b) =~= s);
        } else {
            assert(run_len(a) == a.len());
            lemma_run_len_prefix(a, seq![sep] + b);
            assert(a + (seq![sep] + b) =~= s);
        }
        let rl = run_len(a) as int;
        assert(run_len(s) == rl);
        assert(s.take(rl) =~= a.take(rl));
        assert(s.skip(rl) =~= a.skip(rl) + seq![sep] + b);
        lemma_runs_split(a.skip(rl), sep, b);
        assert(runs(s) == seq![a.take(rl)] + (runs(a.skip(rl)) + runs(b)));
        assert(runs(a) == seq![a.take(rl)] + runs(a.skip(rl)));
        assert(seq![a.take(rl)] + (runs(a.skip(rl)) + runs(b)) =~= (seq![a.take(rl)] + runs(
            a.skip(rl),
        )) + runs(b));
    }
}

/// The tokens of a rendered row are its cells' token bytes, one each.
proof fn lemma_runs_render_row(row: Seq<Cell>)
    requires
        forall|i: int| 0 <= i < row.len() ==> (#[trigger] row[i]).is_token(),
    ensures
        runs(render_row(row)) =~= Seq::new(row.len(), |i: int| seq![token_byte(row[i])]),
    decreases row.len(),
{
    if row.len() == 0 {
    } else if row.len() == 1 {
        lemma_token_byte_not_sep(row[0]);
        let s = render_row(row);
        assert(s == seq![token_byte(row[0])]);
        assert(!is_sep(s[0]));
        assert(s.drop_first() =~= Seq::<u8>::empty());
        assert(run_len(Seq::<u8>::empty()) == 0);
        assert(run_len(s) == 1);
        assert(s.take(1) =~= s);
        assert(s.skip(1) =~= Seq::<u8>::empty());
        assert(runs(Seq::<u8>::empty()) =~= Seq::<Seq<u8>>::empty());
        assert(runs(s) =~= seq![s]);
    } else {
        let d = row.drop_first();
        assert forall|i: int| 0 <= i < d.len() implies (#[trigger] d[i]).is_token() by {
            assert(d[i] == row[i + 1]);
        }
        lemma_runs_render_row(d);
        lemma_token_byte_not_sep(row[0]);
        let s = render_row(row);
        assert(s == seq![token_byte(row[0]), 32u8] + render_row(d));
        assert(seq![token_byte(row[0])] + seq![32u8] + render_row(d) =~= s);
        lemma_runs_split(seq![token_byte(row[0])], 32u8, render_row(d));
        let one = seq![token_byte(row[0])];
        assert(!is_sep(one[0]));
        assert(one.drop_first() =~= Seq::<u8>::empty());
        assert(run_len(Seq::<u8>::empty()) == 0);
        assert(run_len(one) == 1);
        assert(one.take(1) =~= one);
        assert(one.skip(1) =~= Seq::<u8>::empty());
        assert(runs(Seq::<u8>::empty()) =~= Seq::<Seq<u8>>::empty());
        assert(runs(one) =~= seq![one]);
        assert(runs(s) == seq![one] + runs(render_row(d)));
        assert(runs(s) =~= Seq::new(row.len(), |i: int| seq![token_byte(row[i])]));
    }
}

/// The tokens of a rendered grid are the token bytes of its concatenated
/// rows, and the rendered grid has one newline per row boundary.
proof fn lemma_runs_render_rows(rows: Seq<Seq<Cell>>)
    requires
        rows.len() >= 1,
        forall|r: int, i: int|
            0 <= r < rows.len() && 0 <= i < rows[r].len() ==> (#[trigger] rows[r][i]).is_token(),
    ensures
        runs(render_rows(rows)) =~= Seq::new(
            rows.flatten().len(),
            |k: int| seq![token_byte(rows.flatten()[k])],
        ),
        row_count(render_rows(rows), 10u8) == rows.len() - 1,
    decreases rows.len(),
{
    if rows.len() == 1 {
        assert forall|i: int| 0 <= i < rows[0].len() implies (#[trigger] rows[0][i]).is_token() by {}
        lemma_runs_render_row(rows[0]);
        lemma_render_row_no_nl(rows[0]);
        assert(rows.flatten() =~= rows[0] + rows.drop_first().flatten());
        assert(rows.drop_first() =~= Seq::<Seq<Cell>>::empty());
        assert(rows.flatten() =~= rows[0]);
        assert(render_rows(rows) == render_row(rows[0]));
    } else {
        let d = rows.drop_first();
        assert forall|r: int, i: int|
            0 <= r < d.len() && 0 <= i < d[r].len() implies (#[trigger] d[r][i]).is_token() by {
            assert(d[r] == rows[r + 1]);
        }
        lemma_runs_render_rows(d);
        lemma_runs_render_row(rows[0]);
        lemma_render_row_no_nl(rows[0]);
        let s = render_rows(rows);
        assert(s == render_row(rows[0]) + seq![10u8] + render_rows(d));
        lemma_runs_split(render_row(rows[0]), 10u8, render_rows(d));
        assert(rows.flatten() == rows[0] + d.flatten());
        assert forall|k: int| 0 <= k < rows.flatten().len() implies #[trigger] runs(s)[k] == seq![
            token_byte(rows.flatten()[k]),
        ] by {
            if k < rows[0].len() {
                assert(runs(s)[k] == runs(render_row(rows[0]))[k]);
                assert(rows.flatten()[k] == rows[0][k]);
            } else {
                assert(runs(s)[k] == runs(render_rows(d))[k - rows[0].len()]);
                assert(rows.flatten()[k] == d.flatten()[k - rows[0].len()]);
            }
        }
        assert(runs(s).len() == rows.flatten().len());
        crate::counting::lemma_row_count_add(
            render_row(rows[0]) + seq![10u8],
            render_rows(d),
            10u8,
        );
        assert((render_row(rows[0]) + seq![10u8]).drop_last() =~= render_row(rows[0]));
        assert((render_row(rows[0]) + seq![10u8]).last() == 10u8);
        assert(render_row(rows[0]) + seq![10u8] + render_rows(d) =~= (render_row(rows[0])
            + seq![10u8]) + render_rows(d));
    }
}

/// Reshaping the concatenation of equal-width rows gives the rows back.
proof fn lemma_chunk_of_flatten(rows: Seq<Seq<Cell>>, w: int)
    requires
        w >= 1,
        rows.len() >= 1,
        forall|r: int| 0 <= r < rows.len() ==> (#[trigger] rows[r]).len() == w,
    ensures
        chunk_rows(rows.flatten(), w) == rows,
    decreases rows.len(),
{
    let flat = rows.flatten();
    assert(flat == rows[0] + rows.drop_first().flatten());
    if rows.len() == 1 {
        assert(rows.drop_first() =~= Seq::<Seq<Cell>>::empty());
        assert(flat =~= rows[0]);
        assert(chunk_rows(flat, w) == seq![flat]);
        assert(chunk_rows(flat, w) =~= rows);
    } else {
        let d = rows.drop_first();
        assert forall|r: int| 0 <= r < d.len() implies (#[trigger] d[r]).len() == w by {
            assert(d[r] == rows[r + 1]);
        }
        lemma_chunk_of_flatten(d, w);
        assert(d.flatten().len() >= d[0].len());
        assert(d.flatten() == d[0] + d.drop_first().flatten());
        assert(flat.len() > w);
        assert(flat.take(w) =~= rows[0]);
        assert(flat.skip(w) =~= d.flatten());
        assert(chunk_rows(flat, w) == seq![rows[0]] + chunk_rows(d.flatten(), w));
        assert(chunk_rows(flat, w) =~= rows);
    }
}

/// Round trip: parsing the text encoding of any well-formed, nonempty,
/// encodable grid reproduces the grid exactly.
pub proof fn lemma_text_round_trip(g: GridView<Cell>)
    requires
        g.wf(),
        g.width >= 1,
        g.height >= 1,
        g.tokens_ok(),
    ensures
        parse_ok(spec_render(g)),
        parse_result(spec_render(g)) == g,
{
    let s = spec_render(g);
    let rows = g.rows;
    assert forall|r: int, i: int|
        0 <= r < rows.len() && 0 <= i < rows[r].len() implies (#[trigger] rows[r][i]).is_token() by {
        assert(g.at(i, g.height - r - 1) == rows[r][i]);
    }
    lemma_runs_render_rows(rows);
    assert(spec_height(s) == rows.len());

    // the first line is the first row's rendering
    lemma_render_row_no_nl(rows[0]);
    if rows.len() == 1 {
        assert(render_rows(rows) == render_row(rows[0]));
        lemma_until_nl_at(s, s.len() as int);
    } else {
        let tail = render_rows(rows.drop_first());
        assert(s == render_row(rows[0]) + seq![10u8] + tail);
        assert forall|k: int| 0 <= k < render_row(rows[0]).len() implies s[k] != 10 by {
            assert(s[k] == render_row(rows[0])[k]);
        }
        assert(s[render_row(rows[0]).len() as int] == 10);
        lemma_until_nl_at(s, render_row(rows[0]).len() as int);
    }
    assert(s.take(until_nl(s) as int) =~= render_row(rows[0]));
    lemma_runs_render_row(rows[0]);
    assert(spec_width(s) == rows[0].len());
    assert(rows[0].len() == g.width);

    // every token parses back to its cell
    let flat = rows.flatten();
    assert forall|i: int| 0 <= i < runs(s).len() implies parse_token(#[trigger] runs(s)[i])
        is Some by {
        assert(runs(s)[i] == seq![token_byte(flat[i])]);
        lemma_flatten_member_token(rows, i);
    }
    assert(tokens_valid(s));
    assert forall|i: int| 0 <= i < flat.len() implies #[trigger] parsed_cells(s)[i] == flat[i] by {
        assert(runs(s)[i] == seq![token_byte(flat[i])]);
        lemma_flatten_member_token(rows, i);
    }
    assert(parsed_cells(s) =~= flat);

    lemma_chunk_of_flatten(rows, g.width);
    assert(parse_result(s) =~~= g);
}

/// Every cell of the concatenated rows of an encodable grid is a token and
/// its byte parses back.
proof fn lemma_flatten_member_token(rows: Seq<Seq<Cell>>, k: int)
    requires
        forall|r: int, i: int|
            0 <= r < rows.len() && 0 <= i < rows[r].len() ==> (#[trigger] rows[r][i]).is_token(),
        0 <= k < rows.flatten().len(),
    ensures
        rows.flatten()[k].is_token(),
        parse_byte(token_byte(rows.flatten()[k])) == Some(rows.flatten()[k]),
    decreases rows.len(),
{
    if rows.len() > 0 {
        assert(rows.flatten() == rows[0] + rows.drop_first().flatten());
        if k < rows[0].len() {
            assert(rows.flatten()[k] == rows[0][k]);
        } else {
            let d = rows.drop_first();
            assert forall|r: int, i: int|
                0 <= r < d.len() && 0 <= i < d[r].len() implies (#[trigger] d[r][i]).is_token() by {
                assert(d[r] == rows[r + 1]);
            }
            assert(rows.flatten()[k] == d.flatten()[k - rows[0].len()]);
            lemma_flatten_member_token(d, k - rows[0].len());
        }
        lemma_token_byte_not_sep(rows.flatten()[k]);
    }
}

} // verus!
