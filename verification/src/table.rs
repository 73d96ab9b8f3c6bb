//! The delimited text form of a table of columns.
//!
//! A table is a sequence of columns, a column a sequence of cells of which
//! the first is the header label. Columns may differ in length. In text,
//! every cell is followed by a comma and every row by a line feed.

use vstd::prelude::*;
use crate::text::{cells, copy_bytes, grid, push_bytes, split, split_fields, COMMA, NEWLINE};

verus! {

/// The length of the longest column.
pub open spec fn longest(cols: Seq<Seq<Seq<u8>>>) -> nat
    decreases cols.len(),
{
    if cols.len() == 0 {
        0
    } else {
        let before = longest(cols.drop_last());
        if cols.last().len() > before {
            cols.last().len()
        } else {
            before
        }
    }
}

/// The cell of a column at row `r`; past the column's end, the empty cell.
pub open spec fn cell_or_empty(col: Seq<Seq<u8>>, r: int) -> Seq<u8> {
    if 0 <= r < col.len() {
        col[r]
    } else {
        Seq::empty()
    }
}

/// The text of row `r` over the first `n` columns: each cell and its comma.
pub open spec fn row_text(cols: Seq<Seq<Seq<u8>>>, r: int, n: int) -> Seq<u8>
    decreases n,
{
    if n <= 0 {
        Seq::empty()
    } else {
        row_text(cols, r, n - 1) + cell_or_empty(cols[n - 1], r).push(COMMA)
    }
}

/// The text of the first `m` rows: each row over all columns and its line
/// feed.
pub open spec fn rows_text(cols: Seq<Seq<Seq<u8>>>, m: int) -> Seq<u8>
    decreases m,
{
    if m <= 0 {
        Seq::empty()
    } else {
        rows_text(cols, m - 1) + row_text(cols, m - 1, cols.len() as int).push(NEWLINE)
    }
}

/// The text of a table: as many rows as its longest column has cells.
pub open spec fn serialized(cols: Seq<Seq<Seq<u8>>>) -> Seq<u8> {
    rows_text(cols, longest(cols) as int)
}

/// No column is longer than the longest.
pub proof fn lemma_longest_bounds(cols: Seq<Seq<Seq<u8>>>, c: int)
    requires
        0 <= c < cols.len(),
    ensures
        cols[c].len() <= longest(cols),
    decreases cols.len(),
{
    if c < cols.len() - 1 {
        lemma_longest_bounds(cols.drop_last(), c);
    }
}

/// A column that has ended gives a row nothing but its comma: the row's
/// text up to and with that column is the text before it and one comma.
pub proof fn lemma_ended_column(cols: Seq<Seq<Seq<u8>>>, c: int, r: int)
    requires
        0 <= c < cols.len(),
        cols[c].len() <= r,
    ensures
        row_text(cols, r, c + 1) == row_text(cols, r, c).push(COMMA),
{
    assert(cell_or_empty(cols[c], r).push(COMMA) =~= seq![COMMA]);
    assert(row_text(cols, r, c) + seq![COMMA] =~= row_text(cols, r, c).push(COMMA));
}

/// Measures the longest column of a table.
pub fn longest_column(columns: &Vec<Vec<Vec<u8>>>) -> (n: usize)
    ensures
        n == longest(grid(columns@)),
{
    let mut n: usize = 0;
    let mut c: usize = 0;
    proof {
        assert(grid(columns@).take(0).len() == 0);
    }
    while c < columns.len()
        invariant
            c <= columns.len(),
            n == longest(grid(columns@).take(c as int)),
        decreases columns.len() - c,
    {
        proof {
            let next = grid(columns@).take(c + 1);
            assert(next.drop_last() =~= grid(columns@).take(c as int));
            assert(next.last().len() == columns@[c as int]@.len());
        }
        if columns[c].len() > n {
            n = columns[c].len();
        }
        c += 1;
    }
    proof {
        assert(grid(columns@).take(columns.len() as int) =~= grid(columns@));
    }
    n
}

/// Renders a table as text. A column that has ended still gives its comma
/// in every later row, with nothing before it.
pub fn render_table(columns: &Vec<Vec<Vec<u8>>>) -> (out: Vec<u8>)
    ensures
        out@ == serialized(grid(columns@)),
{
    let rows: usize = longest_column(columns);
    let ghost cols = grid(columns@);
    let mut out: Vec<u8> = Vec::new();
    let mut r: usize = 0;
    while r < rows
        invariant
            r <= rows,
            cols == grid(columns@),
            out@ == rows_text(cols, r as int),
        decreases rows - r,
    {
        let ghost before = out@;
        let mut c: usize = 0;
        proof {
            assert(out@ =~= before + row_text(cols, r as int, 0));
        }
        while c < columns.len()
            invariant
                c <= columns.len(),
                cols == grid(columns@),
                out@ == before + row_text(cols, r as int, c as int),
            decreases columns.len() - c,
        {
            let ghost sofar = out@;
            if r < columns[c].len() {
                push_bytes(&mut out, columns[c][r].as_slice());
            }
            out.push(COMMA);
            proof {
                assert(cols[c as int] == cells(columns@[c as int]@));
                assert(out@ =~= sofar + cell_or_empty(cols[c as int], r as int).push(COMMA));
                assert(out@ =~= before + row_text(cols, r as int, c + 1));
            }
            c += 1;
        }
        out.push(NEWLINE);
        proof {
            assert(out@ =~= rows_text(cols, r + 1));
        }
        r += 1;
    }
    out
}

/// The fields of each line of a text.
pub open spec fn line_fields(text: Seq<u8>) -> Seq<Seq<Seq<u8>>> {
    split(text, NEWLINE).map_values(|l: Seq<u8>| split(l, COMMA))
}

/// Every line has a field for each field of the first line, or is a line
/// without a comma.
pub open spec fn rectangular(lines: Seq<Seq<Seq<u8>>>) -> bool {
    forall|i: int|
        0 <= i < lines.len() ==> (#[trigger] lines[i]).len() == 1 || lines[i].len()
            >= lines[0].len()
}

/// The cells of column `c` in the first `n` lines. A line without a comma
/// has no cells, and an empty field is no cell.
pub open spec fn column_cells(lines: Seq<Seq<Seq<u8>>>, c: int, n: int) -> Seq<Seq<u8>>
    decreases n,
{
    if n <= 0 {
        Seq::empty()
    } else {
        let earlier = column_cells(lines, c, n - 1);
        let row = lines[n - 1];
        if row.len() == 1 || row[c].len() == 0 {
            earlier
        } else {
            earlier.push(row[c])
        }
    }
}

/// The table that a text writes: one column for each field of the first
/// line.
pub open spec fn parsed(text: Seq<u8>) -> Option<Seq<Seq<Seq<u8>>>> {
    let lines = line_fields(text);
    if rectangular(lines) {
        Some(Seq::new(lines[0].len(), |c: int| column_cells(lines, c, lines.len() as int)))
    } else {
        None
    }
}

fn split_lines(text: &[u8]) -> (rows: Vec<Vec<Vec<u8>>>)
    ensures
        grid(rows@) == line_fields(text@),
        rows@.len() >= 1,
        forall|i: int| 0 <= i < rows@.len() ==> (#[trigger] rows@[i])@.len() >= 1,
{
    let lines = split_fields(text, NEWLINE);
    let mut rows: Vec<Vec<Vec<u8>>> = Vec::new();
    let mut i: usize = 0;
    while i < lines.len()
        invariant
            i <= lines.len(),
            rows@.len() == i,
            cells(lines@) == split(text@, NEWLINE),
            grid(rows@) == line_fields(text@).take(i as int),
            forall|j: int| 0 <= j < rows@.len() ==> (#[trigger] rows@[j])@.len() >= 1,
        decreases lines.len() - i,
    {
        let ghost before = grid(rows@);
        let fields = split_fields(lines[i].as_slice(), COMMA);
        rows.push(fields);
        proof {
            assert(cells(lines@)[i as int] == lines@[i as int]@);
            assert(grid(rows@) =~= before.push(cells(fields@)));
            assert(grid(rows@) =~= line_fields(text@).take(i + 1));
        }
        i += 1;
    }
    proof {
        assert(line_fields(text@).take(lines.len() as int) =~= line_fields(text@));
    }
    rows
}

fn is_rectangular(rows: &Vec<Vec<Vec<u8>>>) -> (ok: bool)
    requires
        rows@.len() >= 1,
    ensures
        ok == rectangular(grid(rows@)),
{
    let width: usize = rows[0].len();
    let mut i: usize = 0;
    while i < rows.len()
        invariant
            i <= rows.len(),
            rows@.len() >= 1,
            width == rows@[0]@.len(),
            forall|j: int|
                0 <= j < i ==> (#[trigger] grid(rows@)[j]).len() == 1 || grid(rows@)[j].len()
                    >= width,
        decreases rows.len() - i,
    {
        if rows[i].len() != 1 && rows[i].len() < width {
            proof {
                assert(grid(rows@)[i as int].len() == rows@[i as int]@.len());
                assert(grid(rows@)[0].len() == width);
            }
            return false;
        }
        proof {
            assert(grid(rows@)[i as int].len() == rows@[i as int]@.len());
        }
        i += 1;
    }
    proof {
        assert(grid(rows@)[0].len() == width);
    }
    true
}

/// Reads a table back from its text. There is no table where a line that
/// holds a comma has fewer fields than the first line.
pub fn parse_table(text: &[u8]) -> (r: Option<Vec<Vec<Vec<u8>>>>)
    ensures
        r.is_some() <==> parsed(text@).is_some(),
        r matches Some(t) ==> parsed(text@) == Some(grid(t@)),
{
    let rows = split_lines(text);
    if !is_rectangular(&rows) {
        return None;
    }
    let ghost lines = grid(rows@);
    let width: usize = rows[0].len();
    let mut table: Vec<Vec<Vec<u8>>> = Vec::new();
    let mut c: usize = 0;
    proof {
        assert(lines[0].len() == width);
    }
    while c < width
        invariant
            c <= width,
            rows@.len() >= 1,
            lines == grid(rows@),
            rectangular(lines),
            width == lines[0].len(),
            table@.len() == c,
            forall|k: int|
                0 <= k < c ==> #[trigger] grid(table@)[k] == column_cells(
                    lines,
                    k,
                    lines.len() as int,
                ),
        decreases width - c,
    {
        let mut column: Vec<Vec<u8>> = Vec::new();
        let mut i: usize = 0;
        proof {
            assert(cells(column@) =~= column_cells(lines, c as int, 0));
        }
        while i < rows.len()
            invariant
                i <= rows.len(),
                c < width,
                lines == grid(rows@),
                rectangular(lines),
                width == lines[0].len(),
                cells(column@) == column_cells(lines, c as int, i as int),
            decreases rows.len() - i,
        {
            proof {
                assert(lines[i as int] == cells(rows@[i as int]@));
                assert(lines[i as int].len() == 1 || lines[i as int].len() >= width);
            }
            if rows[i].len() != 1 && rows[i][c].len() != 0 {
                let ghost before = cells(column@);
                let cell = copy_bytes(rows[i][c].as_slice());
                column.push(cell);
                proof {
                    assert(cells(column@) =~= before.push(lines[i as int][c as int]));
                }
            }
            i += 1;
        }
        let ghost done = grid(table@);
        table.push(column);
        proof {
            assert(grid(table@) =~= done.push(cells(column@)));
        }
        c += 1;
    }
    proof {
        assert(grid(table@) =~= Seq::new(
            lines[0].len(),
            |k: int| column_cells(lines, k, lines.len() as int),
        ));
    }
    Some(table)
}

} // verus!
