//! Reading back what was rendered: a table with equally long columns and
//! plain cells comes back from its text cell for cell.

use vstd::prelude::*;
use crate::table::{
    cell_or_empty, column_cells, line_fields, longest, parsed, rectangular, row_text, rows_text,
    serialized,
};
use crate::text::{lemma_split_nonempty, split, COMMA, NEWLINE};

verus! {

/// A cell that the text form keeps: not empty, and free of the two
/// delimiters.
pub open spec fn plain_cell(c: Seq<u8>) -> bool {
    c.len() > 0 && forall|i: int| 0 <= i < c.len() ==> c[i] != COMMA && c[i] != NEWLINE
}

/// A table of at least one column and `m >= 1` rows in every column, all
/// cells plain.
pub open spec fn plain_table(cols: Seq<Seq<Seq<u8>>>, m: int) -> bool {
    &&& cols.len() >= 1
    &&& m >= 1
    &&& forall|c: int| 0 <= c < cols.len() ==> (#[trigger] cols[c]).len() == m
    &&& forall|c: int, r: int|
        0 <= c < cols.len() && 0 <= r < m ==> plain_cell(#[trigger] cols[c][r])
}

/// The cells of row `r` in the first `k` columns.
pub open spec fn row_cells(cols: Seq<Seq<Seq<u8>>>, r: int, k: int) -> Seq<Seq<u8>> {
    Seq::new(k as nat, |c: int| cols[c][r])
}

/// Text without the separator, put after `a`, lengthens the last field of
/// `a` and makes no new field.
pub proof fn lemma_split_append(a: Seq<u8>, cell: Seq<u8>, sep: u8)
    requires
        forall|i: int| 0 <= i < cell.len() ==> cell[i] != sep,
    ensures
        split(a + cell, sep) == split(a, sep).update(
            split(a, sep).len() - 1,
            split(a, sep).last() + cell,
        ),
    decreases cell.len(),
{
    let fields = split(a, sep);
    lemma_split_nonempty(a, sep);
    if cell.len() == 0 {
        assert(a + cell =~= a);
        assert(fields.last() + cell =~= fields.last());
        assert(fields.update(fields.len() - 1, fields.last()) =~= fields);
    } else {
        let shorter = cell.drop_last();
        lemma_split_append(a, shorter, sep);
        assert((a + cell).drop_last() =~= a + shorter);
        assert((a + cell).last() == cell.last());
        let head = split(a + shorter, sep);
        assert(head.last().push(cell.last()) =~= fields.last() + cell);
        assert(head.update(head.len() - 1, head.last().push(cell.last())) =~= fields.update(
            fields.len() - 1,
            fields.last() + cell,
        ));
    }
}

/// A separator after `a` starts a new, empty field.
pub proof fn lemma_split_push(a: Seq<u8>, sep: u8)
    ensures
        split(a.push(sep), sep) == split(a, sep).push(Seq::empty()),
{
    assert(a.push(sep).drop_last() =~= a);
}

proof fn lemma_row_fields(cols: Seq<Seq<Seq<u8>>>, m: int, r: int, k: int)
    requires
        plain_table(cols, m),
        0 <= r < m,
        0 <= k <= cols.len(),
    ensures
        split(row_text(cols, r, k), COMMA) == row_cells(cols, r, k).push(Seq::empty()),
        forall|i: int| 0 <= i < row_text(cols, r, k).len() ==> row_text(cols, r, k)[i] != NEWLINE,
    decreases k,
{
    if k == 0 {
        assert(row_cells(cols, r, 0).push(Seq::empty()) =~= seq![Seq::<u8>::empty()]);
    } else {
        lemma_row_fields(cols, m, r, k - 1);
        let before = row_text(cols, r, k - 1);
        let cell = cols[k - 1][r];
        assert(plain_cell(cell));
        assert(cell_or_empty(cols[k - 1], r) == cell);
        assert(row_text(cols, r, k) =~= (before + cell).push(COMMA));
        lemma_split_append(before, cell, COMMA);
        lemma_split_push(before + cell, COMMA);
        let fields = split(before, COMMA);
        assert(fields.last() + cell =~= cell);
        assert(fields.update(fields.len() - 1, cell) =~= row_cells(cols, r, k));
    }
}

/// The text of each of the first `j` rows.
pub open spec fn row_texts(cols: Seq<Seq<Seq<u8>>>, j: int) -> Seq<Seq<u8>> {
    Seq::new(j as nat, |r: int| row_text(cols, r, cols.len() as int))
}

proof fn lemma_lines(cols: Seq<Seq<Seq<u8>>>, m: int, j: int)
    requires
        plain_table(cols, m),
        0 <= j <= m,
    ensures
        split(rows_text(cols, j), NEWLINE) == row_texts(cols, j).push(Seq::empty()),
    decreases j,
{
    if j == 0 {
        assert(row_texts(cols, 0).push(Seq::empty()) =~= seq![Seq::<u8>::empty()]);
    } else {
        lemma_lines(cols, m, j - 1);
        let before = rows_text(cols, j - 1);
        let row = row_text(cols, j - 1, cols.len() as int);
        lemma_row_fields(cols, m, j - 1, cols.len() as int);
        assert(rows_text(cols, j) =~= (before + row).push(NEWLINE));
        lemma_split_append(before, row, NEWLINE);
        lemma_split_push(before + row, NEWLINE);
        let lines = split(before, NEWLINE);
        assert(lines.last() + row =~= row);
        assert(lines.update(lines.len() - 1, row) =~= row_texts(cols, j));
    }
}

proof fn lemma_longest_equal(cols: Seq<Seq<Seq<u8>>>, m: int)
    requires
        m >= 0,
        forall|c: int| 0 <= c < cols.len() ==> (#[trigger] cols[c]).len() == m,
    ensures
        longest(cols) == if cols.len() == 0 { 0 } else { m },
    decreases cols.len(),
{
    if cols.len() > 0 {
        let head = cols.drop_last();
        assert forall|c: int| 0 <= c < head.len() implies (#[trigger] head[c]).len() == m by {
            assert(head[c] == cols[c]);
        }
        lemma_longest_equal(head, m);
    }
}

proof fn lemma_column_back(
    cols: Seq<Seq<Seq<u8>>>,
    m: int,
    lines: Seq<Seq<Seq<u8>>>,
    c: int,
    j: int,
)
    requires
        plain_table(cols, m),
        lines.len() == m + 1,
        forall|r: int|
            0 <= r < m ==> #[trigger] lines[r] == row_cells(cols, r, cols.len() as int).push(
                Seq::empty(),
            ),
        0 <= c <= cols.len(),
        0 <= j <= m,
    ensures
        column_cells(lines, c, j) == if c < cols.len() {
            cols[c].take(j)
        } else {
            Seq::empty()
        },
    decreases j,
{
    if j == 0 {
        if c < cols.len() {
            assert(cols[c].take(0) =~= Seq::empty());
        }
    } else {
        lemma_column_back(cols, m, lines, c, j - 1);
        let row = lines[j - 1];
        assert(row == row_cells(cols, j - 1, cols.len() as int).push(Seq::empty()));
        assert(row.len() == cols.len() + 1);
        if c < cols.len() {
            assert(row[c] == cols[c][j - 1]);
            assert(plain_cell(cols[c][j - 1]));
            assert(cols[c].take(j) =~= cols[c].take(j - 1).push(cols[c][j - 1]));
        } else {
            assert(row[c].len() == 0);
        }
    }
}

/// Rendering a table of equally long columns and plain cells, and
/// reading the text back, gives the table's columns as they were,
/// followed by one column without cells, which the comma that ends
/// every row stands for.
pub proof fn lemma_round_trip(cols: Seq<Seq<Seq<u8>>>, m: int)
    requires
        plain_table(cols, m),
    ensures
        parsed(serialized(cols)) == Some(cols.push(Seq::empty())),
{
    let n = cols.len() as int;
    lemma_longest_equal(cols, m);
    let text = serialized(cols);
    assert(text == rows_text(cols, m));
    lemma_lines(cols, m, m);
    let lines = line_fields(text);
    assert(lines.len() == m + 1);
    assert forall|r: int| 0 <= r < m implies #[trigger] lines[r] == row_cells(cols, r, n).push(
        Seq::empty(),
    ) by {
        lemma_row_fields(cols, m, r, n);
        assert(split(text, NEWLINE)[r] == row_text(cols, r, n));
    }
    assert(lines[m] == seq![Seq::<u8>::empty()]) by {
        assert(split(text, NEWLINE)[m] == Seq::<u8>::empty());
        assert(split(Seq::<u8>::empty(), COMMA) =~= seq![Seq::<u8>::empty()]);
    }
    assert(lines[0].len() == n + 1);
    assert(rectangular(lines)) by {
        assert forall|i: int| 0 <= i < lines.len() implies (#[trigger] lines[i]).len() == 1
            || lines[i].len() >= lines[0].len() by {
            if i < m {
                assert(lines[i] == row_cells(cols, i, n).push(Seq::empty()));
            }
        }
    }
    let back = Seq::new(lines[0].len(), |c: int| column_cells(lines, c, lines.len() as int));
    assert(back =~= cols.push(Seq::empty())) by {
        assert forall|c: int| 0 <= c < n + 1 implies #[trigger] back[c] == cols.push(
            Seq::empty(),
        )[c] by {
            lemma_column_back(cols, m, lines, c, m);
            assert(column_cells(lines, c, m + 1) == column_cells(lines, c, m));
            if c < n {
                assert(cols[c].take(m) =~= cols[c]);
            }
        }
    }
}

} // verus!
