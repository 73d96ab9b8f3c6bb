//! Resampling decisions: which device block gives the timeline, which rows
//! of a block fall into the window of one timeline row, and what fills a
//! window that holds no row.

use vstd::prelude::*;
use crate::number::{check_number, is_number};
use crate::text::{cells, copy_bytes, grid};

verus! {

/// The window of one row of the reference timeline, in ordering keys.
/// `lower` and `upper` are the midpoints towards the neighbouring rows.
#[derive(Clone, Copy, Debug)]
pub struct Window {
    pub target: i64,
    pub lower: i64,
    pub upper: i64,
}

impl Window {
    /// A timestamp belongs to the window when it is the target itself or
    /// lies in the half-open interval from `lower` up to `upper`.
    pub open spec fn holds(self, t: i64) -> bool {
        t == self.target || (self.lower <= t && t < self.upper)
    }

    /// Decides whether the timestamp `t` belongs to the window.
    pub fn contains(&self, t: i64) -> (b: bool)
        ensures
            b == self.holds(t),
    {
        t == self.target || (self.lower <= t && t < self.upper)
    }
}

/// `r` is the position of the smallest span, and the first such position.
pub open spec fn first_minimum(spans: Seq<i64>, r: int) -> bool {
    &&& 0 <= r < spans.len()
    &&& forall|j: int| 0 <= j < spans.len() ==> spans[r] <= #[trigger] spans[j]
    &&& forall|j: int| 0 <= j < r ==> spans[r] < #[trigger] spans[j]
}

/// Chooses the reference block from the spans of all blocks, given in
/// column order: the block with the smallest span, and among equal spans
/// the one that comes first. There is no reference without a block.
pub fn select_reference(spans: &Vec<i64>) -> (r: Option<usize>)
    ensures
        r.is_none() <==> spans@.len() == 0,
        r matches Some(i) ==> first_minimum(spans@, i as int),
{
    if spans.len() == 0 {
        return None;
    }
    let mut best: usize = 0;
    let mut i: usize = 1;
    while i < spans.len()
        invariant
            1 <= i <= spans.len(),
            best < i,
            forall|j: int| 0 <= j < i ==> spans@[best as int] <= #[trigger] spans@[j],
            forall|j: int| 0 <= j < best ==> spans@[best as int] < #[trigger] spans@[j],
        decreases spans.len() - i,
    {
        if spans[i] < spans[best] {
            best = i;
        }
        i += 1;
    }
    Some(best)
}

/// The rows whose timestamps bound the window of row `r` in a timeline of
/// `len` rows: the row before and the row after, and `r` itself where
/// there is none.
pub open spec fn neighbour_rows(len: int, r: int) -> (int, int) {
    (if r > 0 { r - 1 } else { r }, if r + 1 < len { r + 1 } else { r })
}

/// Gives the neighbour rows of row `r`; there are none where `r` is no row
/// of the timeline.
pub fn neighbours(len: usize, r: usize) -> (p: Option<(usize, usize)>)
    ensures
        p.is_some() <==> r < len,
        p matches Some(q) ==> (q.0 as int, q.1 as int) == neighbour_rows(len as int, r as int),
{
    if r >= len {
        return None;
    }
    let before: usize = if r > 0 { r - 1 } else { r };
    let after: usize = if r + 1 < len { r + 1 } else { r };
    Some((before, after))
}

/// The positions, in rising order, of the timestamps that belong to `w`.
pub open spec fn rows_in_window(times: Seq<i64>, w: Window) -> Seq<int>
    decreases times.len(),
{
    if times.len() == 0 {
        Seq::empty()
    } else {
        let earlier = rows_in_window(times.drop_last(), w);
        if w.holds(times.last()) {
            earlier.push(times.len() - 1)
        } else {
            earlier
        }
    }
}

/// Every position in `rows_in_window` is a row of the block whose
/// timestamp belongs to the window, positions rise strictly, and no such
/// row is left out.
pub proof fn lemma_rows_in_window(times: Seq<i64>, w: Window)
    ensures
        forall|k: int| 0 <= k < rows_in_window(times, w).len() ==> {
            let i = #[trigger] rows_in_window(times, w)[k];
            0 <= i < times.len() && w.holds(times[i])
        },
        forall|j: int, k: int| 0 <= j < k < rows_in_window(times, w).len()
            ==> rows_in_window(times, w)[j] < rows_in_window(times, w)[k],
        forall|i: int| 0 <= i < times.len() && w.holds(#[trigger] times[i])
            ==> rows_in_window(times, w).contains(i),
    decreases times.len(),
{
    if times.len() > 0 {
        let head = times.drop_last();
        let earlier = rows_in_window(head, w);
        lemma_rows_in_window(head, w);
        let all = rows_in_window(times, w);
        assert forall|i: int| 0 <= i < times.len() && w.holds(#[trigger] times[i])
            implies all.contains(i) by {
            if i < times.len() - 1 {
                assert(head[i] == times[i]);
                assert(earlier.contains(i));
                let k = choose|k: int| 0 <= k < earlier.len() && earlier[k] == i;
                assert(all[k] == i);
            } else {
                assert(all[all.len() - 1] == i);
            }
        }
        assert forall|k: int| 0 <= k < all.len() implies {
            let i = #[trigger] all[k];
            0 <= i < times.len() && w.holds(times[i])
        } by {
            if k < earlier.len() {
                assert(all[k] == earlier[k]);
                assert(head[earlier[k]] == times[earlier[k]]);
            }
        }
        assert forall|j: int, k: int| 0 <= j < k < all.len() implies all[j] < all[k] by {
            assert(all[j] == earlier[j]);
            if k < earlier.len() {
                assert(all[k] == earlier[k]);
            }
        }
    }
}

/// Timestamps that never fall from one row to the next.
pub open spec fn non_decreasing(times: Seq<i64>) -> bool {
    forall|i: int, j: int| 0 <= i <= j < times.len() ==> times[i] <= times[j]
}

/// In a block whose timestamps never fall, no row after one that lies
/// past the window's upper bound belongs to the window: a scan may stop
/// at the first such row and still find every row of the window.
pub proof fn lemma_scan_may_stop(times: Seq<i64>, w: Window, stop: int, n: int)
    requires
        non_decreasing(times),
        w.target <= w.upper,
        0 <= stop <= n <= times.len(),
        stop < times.len() ==> times[stop] > w.upper,
    ensures
        rows_in_window(times.take(n), w) == rows_in_window(times.take(stop), w),
    decreases n - stop,
{
    if stop < n {
        lemma_scan_may_stop(times, w, stop, n - 1);
        assert(times.take(n).drop_last() =~= times.take(n - 1));
        assert(times.take(n).last() == times[n - 1]);
        assert(times[stop] <= times[n - 1]);
    }
}

/// Timestamps that rise from each row to the next.
pub open spec fn strictly_increasing(times: Seq<i64>) -> bool {
    forall|i: int, j: int| 0 <= i < j < times.len() ==> times[i] < times[j]
}

/// In a block whose timestamps rise, the window of row `r` holds row `r`
/// and no other, provided its bounds part it from its neighbours: the
/// row before lies below the lower bound and the row after at or past
/// the upper bound. A block that has the timeline's own timestamps is
/// thus carried over row for row.
pub proof fn lemma_window_of_own_row(times: Seq<i64>, w: Window, r: int)
    requires
        strictly_increasing(times),
        0 <= r < times.len(),
        w.target == times[r],
        r > 0 ==> times[r - 1] < w.lower,
        r + 1 < times.len() ==> w.upper <= times[r + 1],
    ensures
        rows_in_window(times, w) == seq![r],
{
    lemma_rows_in_window(times, w);
    let rows = rows_in_window(times, w);
    assert(w.holds(times[r]));
    assert(rows.contains(r));
    assert forall|k: int| 0 <= k < rows.len() implies rows[k] == r by {
        let i = rows[k];
        assert(w.holds(times[i]));
        if i < r {
            if i < r - 1 {
                assert(times[i] < times[r - 1]);
            }
            assert(times[i] < times[r]);
        } else if i > r {
            if r + 1 < i {
                assert(times[r + 1] < times[i]);
            }
            assert(times[r] < times[i]);
        }
    }
    if rows.len() >= 2 {
        assert(rows[0] < rows[1]);
    }
    assert(rows =~= seq![r]);
}

/// Collects the rows of one block that fall into the window `w`.
pub fn window_rows(times: &Vec<i64>, w: &Window) -> (rows: Vec<usize>)
    ensures
        positions(rows) == rows_in_window(times@, *w),
{
    let mut rows: Vec<usize> = Vec::new();
    let mut i: usize = 0;
    proof {
        assert(times@.take(0).len() == 0);
        assert(positions(rows) =~= rows_in_window(times@.take(0), *w));
    }
    while i < times.len()
        invariant
            i <= times.len(),
            positions(rows) == rows_in_window(times@.take(i as int), *w),
        decreases times.len() - i,
    {
        let ghost before = rows@;
        if w.contains(times[i]) {
            rows.push(i);
        }
        proof {
            let next = times@.take(i + 1);
            assert(next.drop_last() =~= times@.take(i as int));
            assert(next.last() == times@[i as int]);
            assert(positions(rows) =~= rows_in_window(next, *w));
        }
        i += 1;
    }
    proof {
        assert(times@.take(times.len() as int) =~= times@);
    }
    rows
}

/// Decides whether the timestamps of a block never fall.
pub fn is_non_decreasing(times: &Vec<i64>) -> (r: bool)
    ensures
        r == non_decreasing(times@),
{
    let mut i: usize = 1;
    while i < times.len()
        invariant
            1 <= i,
            forall|a: int, b: int| 0 <= a <= b < i && b < times@.len() ==> times@[a] <= times@[b],
        decreases times.len() - i,
    {
        if times[i - 1] > times[i] {
            return false;
        }
        proof {
            assert forall|a: int, b: int| 0 <= a <= b < i + 1 && b < times@.len() implies times@[a]
                <= times@[b] by {
                if b == i && a < i {
                    assert(times@[a] <= times@[i - 1]);
                }
            }
        }
        i += 1;
    }
    true
}

/// Collects the rows of a block that fall into the window `w`, for a block
/// whose timestamps never fall: the scan ends at the first row past the
/// window's upper bound.
pub fn window_rows_sorted(times: &Vec<i64>, w: &Window) -> (rows: Vec<usize>)
    requires
        non_decreasing(times@),
        w.target <= w.upper,
    ensures
        positions(rows) == rows_in_window(times@, *w),
{
    let n: usize = times.len();
    let mut rows: Vec<usize> = Vec::new();
    let mut i: usize = 0;
    let mut past: bool = false;
    proof {
        assert(times@.take(0).len() == 0);
        assert(positions(rows) =~= rows_in_window(times@.take(0), *w));
    }
    while i < n && !past
        invariant
            i <= n,
            n == times@.len(),
            non_decreasing(times@),
            w.target <= w.upper,
            positions(rows) == rows_in_window(times@.take(i as int), *w),
            past ==> i < n && times@[i as int] > w.upper,
        decreases n - i + if past { 0int } else { 1int },
    {
        if w.contains(times[i]) {
            rows.push(i);
            proof {
                let next = times@.take(i + 1);
                assert(next.drop_last() =~= times@.take(i as int));
                assert(next.last() == times@[i as int]);
                assert(positions(rows) =~= rows_in_window(next, *w));
            }
            i += 1;
        } else if times[i] > w.upper {
            past = true;
        } else {
            proof {
                let next = times@.take(i + 1);
                assert(next.drop_last() =~= times@.take(i as int));
                assert(next.last() == times@[i as int]);
            }
            i += 1;
        }
    }
    proof {
        lemma_scan_may_stop(times@, *w, i as int, n as int);
        assert(times@.take(n as int) =~= times@);
    }
    rows
}

/// The positions of a row list as integers.
pub open spec fn positions(rows: Vec<usize>) -> Seq<int> {
    rows@.map_values(|i: usize| i as int)
}

/// Collects, for one block, the rows that fall into each window of the
/// timeline. Where the block's timestamps never fall, each scan ends at
/// the first row past its window.
pub fn block_rows(times: &Vec<i64>, windows: &Vec<Window>) -> (out: Vec<Vec<usize>>)
    ensures
        out@.len() == windows@.len(),
        forall|r: int|
            0 <= r < windows@.len() ==> positions(#[trigger] out@[r]) == rows_in_window(
                times@,
                windows@[r],
            ),
{
    let sorted: bool = is_non_decreasing(times);
    let mut out: Vec<Vec<usize>> = Vec::new();
    let mut r: usize = 0;
    while r < windows.len()
        invariant
            r <= windows@.len(),
            out@.len() == r,
            sorted == non_decreasing(times@),
            forall|q: int|
                0 <= q < r ==> positions(#[trigger] out@[q]) == rows_in_window(
                    times@,
                    windows@[q],
                ),
        decreases windows.len() - r,
    {
        let w = &windows[r];
        let rows = if sorted && w.target <= w.upper {
            window_rows_sorted(times, w)
        } else {
            window_rows(times, w)
        };
        out.push(rows);
        r += 1;
    }
    out
}

/// Collects, for every block in column order and every window of the
/// timeline, the rows of the block that fall into the window.
pub fn assign_rows(blocks: &Vec<Vec<i64>>, windows: &Vec<Window>) -> (out: Vec<Vec<Vec<usize>>>)
    ensures
        out@.len() == blocks@.len(),
        forall|d: int| 0 <= d < blocks@.len() ==> (#[trigger] out@[d])@.len() == windows@.len(),
        forall|d: int, r: int|
            0 <= d < blocks@.len() && 0 <= r < windows@.len() ==> positions(
                #[trigger] out@[d]@[r],
            ) == rows_in_window(blocks@[d]@, windows@[r]),
{
    let mut out: Vec<Vec<Vec<usize>>> = Vec::new();
    let mut d: usize = 0;
    while d < blocks.len()
        invariant
            d <= blocks@.len(),
            out@.len() == d,
            forall|e: int| 0 <= e < d ==> (#[trigger] out@[e])@.len() == windows@.len(),
            forall|e: int, r: int|
                0 <= e < d && 0 <= r < windows@.len() ==> positions(#[trigger] out@[e]@[r])
                    == rows_in_window(blocks@[e]@, windows@[r]),
        decreases blocks.len() - d,
    {
        let rows = block_rows(&blocks[d], windows);
        out.push(rows);
        d += 1;
    }
    out
}

/// Every row of the list has a row after it in the machine's range.
pub open spec fn rows_fit(rows: Seq<usize>) -> bool {
    forall|k: int| 0 <= k < rows.len() ==> (#[trigger] rows[k]) < usize::MAX
}

/// The rows of every window of a block fit.
pub open spec fn windows_fit(block: Seq<Vec<usize>>) -> bool {
    forall|r: int| 0 <= r < block.len() ==> rows_fit((#[trigger] block[r])@)
}

/// A plan can be turned into table addresses: it has the rows of each
/// block, five columns for each block can be counted, and all rows fit.
pub open spec fn plan_fits(blocks: int, plan: Seq<Vec<Vec<usize>>>) -> bool {
    &&& plan.len() == blocks
    &&& 5 * blocks <= usize::MAX
    &&& forall|d: int| 0 <= d < plan.len() ==> windows_fit((#[trigger] plan[d])@)
}

/// `cells` are the table addresses of `rows` in `column`: the column, and
/// the row below the label that the data row stands in.
pub open spec fn addressed(cells: Seq<(usize, usize)>, column: int, rows: Seq<usize>) -> bool {
    &&& cells.len() == rows.len()
    &&& forall|k: int|
        0 <= k < rows.len() ==> (#[trigger] cells[k]) == (column as usize, (rows[k] + 1) as usize)
}

/// `windows` are, window for window, the addresses of a block's rows in
/// `column`.
pub open spec fn column_addressed(
    windows: Seq<Vec<(usize, usize)>>,
    column: int,
    block: Seq<Vec<usize>>,
) -> bool {
    &&& windows.len() == block.len()
    &&& forall|r: int|
        0 <= r < block.len() ==> addressed((#[trigger] windows[r])@, column, block[r]@)
}

fn row_cells(column: usize, rows: &Vec<usize>) -> (out: Option<Vec<(usize, usize)>>)
    ensures
        out.is_some() <==> rows_fit(rows@),
        out matches Some(t) ==> addressed(t@, column as int, rows@),
{
    let mut t: Vec<(usize, usize)> = Vec::new();
    let mut k: usize = 0;
    while k < rows.len()
        invariant
            k <= rows@.len(),
            t@.len() == k,
            forall|j: int| 0 <= j < k ==> (#[trigger] rows@[j]) < usize::MAX,
            forall|j: int| 0 <= j < k ==> (#[trigger] t@[j]) == (column, (rows@[j] + 1) as usize),
        decreases rows.len() - k,
    {
        if rows[k] == usize::MAX {
            return None;
        }
        t.push((column, rows[k] + 1));
        k += 1;
    }
    Some(t)
}

fn window_cells(column: usize, block: &Vec<Vec<usize>>) -> (out: Option<Vec<Vec<(usize, usize)>>>)
    ensures
        out.is_some() <==> windows_fit(block@),
        out matches Some(t) ==> column_addressed(t@, column as int, block@),
{
    let mut t: Vec<Vec<(usize, usize)>> = Vec::new();
    let mut r: usize = 0;
    while r < block.len()
        invariant
            r <= block@.len(),
            t@.len() == r,
            forall|q: int| 0 <= q < r ==> rows_fit((#[trigger] block@[q])@),
            forall|q: int|
                0 <= q < r ==> addressed((#[trigger] t@[q])@, column as int, block@[q]@),
        decreases block.len() - r,
    {
        match row_cells(column, &block[r]) {
            Some(cells) => {
                t.push(cells);
            },
            None => {
                return None;
            },
        }
        r += 1;
    }
    Some(t)
}

/// Turns the row plan into the table cells to average: for each block in
/// column order its x, y and z column, and in each, window for window,
/// the address of every row of the plan. There are no addresses where the
/// plan does not have the rows of exactly `blocks` blocks or where an
/// address would leave the machine's range.
pub fn cells_to_average(blocks: usize, plan: &Vec<Vec<Vec<usize>>>) -> (out: Option<
    Vec<Vec<Vec<(usize, usize)>>>,
>)
    ensures
        out.is_some() <==> plan_fits(blocks as int, plan@),
        out matches Some(t) ==> {
            &&& t@.len() == 3 * blocks
            &&& forall|d: int, a: int|
                0 <= d < blocks && 0 <= a < 3 ==> column_addressed(
                    (#[trigger] t@[3 * d + a])@,
                    5 * d + a + 1,
                    plan@[d]@,
                )
        },
{
    if plan.len() != blocks || blocks > usize::MAX / 5 {
        return None;
    }
    let mut t: Vec<Vec<Vec<(usize, usize)>>> = Vec::new();
    let mut d: usize = 0;
    while d < blocks
        invariant
            d <= blocks,
            plan@.len() == blocks,
            5 * blocks <= usize::MAX,
            t@.len() == 3 * d,
            forall|e: int| 0 <= e < d ==> windows_fit((#[trigger] plan@[e])@),
            forall|e: int, a: int|
                0 <= e < d && 0 <= a < 3 ==> column_addressed(
                    (#[trigger] t@[3 * e + a])@,
                    5 * e + a + 1,
                    plan@[e]@,
                ),
        decreases blocks - d,
    {
        let base: usize = 5 * d;
        let x = window_cells(base + 1, &plan[d]);
        let y = window_cells(base + 2, &plan[d]);
        let z = window_cells(base + 3, &plan[d]);
        let ghost before = t@;
        match (x, y, z) {
            (Some(xs), Some(ys), Some(zs)) => {
                t.push(xs);
                t.push(ys);
                t.push(zs);
                proof {
                    assert forall|e: int, a: int| 0 <= e < d + 1 && 0 <= a < 3 implies column_addressed(
                        (#[trigger] t@[3 * e + a])@,
                        5 * e + a + 1,
                        plan@[e]@,
                    ) by {
                        if e < d {
                            assert(t@[3 * e + a] == before[3 * e + a]);
                        }
                    }
                }
            },
            _ => {
                return None;
            },
        }
        d += 1;
    }
    Some(t)
}

/// The written form of zero, which stands in a window without rows that
/// no earlier row precedes.
pub open spec fn zero_text() -> Seq<u8> {
    seq![48u8]
}

/// The text of each present cell of a column with gaps.
pub open spec fn gaps(v: Seq<Option<Vec<u8>>>) -> Seq<Option<Seq<u8>>> {
    v.map_values(
        |c: Option<Vec<u8>>|
            match c {
                Some(t) => Some(t@),
                None => None,
            },
    )
}

/// Fills the gaps of one output column. A present value stays. A gap
/// takes the value of the output row before it, and the written zero where
/// it is the first row.
pub fn fill_gaps(column: &Vec<Option<Vec<u8>>>) -> (out: Vec<Vec<u8>>)
    ensures
        out@.len() == column@.len(),
        forall|r: int|
            0 <= r < column@.len() ==> (#[trigger] cells(out@)[r]) == (match gaps(column@)[r] {
                Some(t) => t,
                None => if r == 0 {
                    zero_text()
                } else {
                    cells(out@)[r - 1]
                },
            }),
{
    let mut out: Vec<Vec<u8>> = Vec::new();
    let mut r: usize = 0;
    while r < column.len()
        invariant
            r <= column@.len(),
            out@.len() == r,
            forall|q: int|
                0 <= q < r ==> (#[trigger] cells(out@)[q]) == (match gaps(column@)[q] {
                    Some(t) => t,
                    None => if q == 0 {
                        zero_text()
                    } else {
                        cells(out@)[q - 1]
                    },
                }),
        decreases column.len() - r,
    {
        let ghost before = cells(out@);
        let cell: Vec<u8> = match &column[r] {
            Some(t) => copy_bytes(t.as_slice()),
            None => if r == 0 {
                let zero: Vec<u8> = vec![48u8];
                proof {
                    assert(zero@ =~= zero_text());
                }
                zero
            } else {
                copy_bytes(out[r - 1].as_slice())
            },
        };
        out.push(cell);
        proof {
            assert(cells(out@) =~= before.push(cell@));
            assert forall|q: int| 0 <= q < r + 1 implies (#[trigger] cells(out@)[q]) == (
            match gaps(column@)[q] {
                Some(t) => t,
                None => if q == 0 {
                    zero_text()
                } else {
                    cells(out@)[q - 1]
                },
            }) by {
                if q < r {
                    assert(cells(out@)[q] == before[q]);
                }
            }
        }
        r += 1;
    }
    out
}

/// A block has a labelled time column with at least one data row, x, y and
/// z columns of the same length, and a number in every cell below the
/// label of each of the four. Its fifth column, the spacer, is not read
/// and may hold anything.
pub open spec fn block_ok(g: Seq<Seq<Seq<u8>>>, k: int) -> bool {
    let rows = g[5 * k].len();
    &&& rows >= 2
    &&& forall|a: int| 0 <= a < 4 ==> (#[trigger] g[5 * k + a]).len() == rows
    &&& forall|a: int, r: int|
        0 <= a < 4 && 1 <= r < g[5 * k + a].len() ==> is_number(#[trigger] g[5 * k + a][r])
}

/// A table can be resampled when it has a device block and each of its
/// blocks is sound. Columns beyond the last whole block are not read and
/// may hold anything.
pub open spec fn valid_blocks(g: Seq<Seq<Seq<u8>>>) -> bool {
    g.len() / 5 >= 1 && forall|k: int| 0 <= k < g.len() / 5 ==> block_ok(g, k)
}

fn check_block(source: &Vec<Vec<Vec<u8>>>, k: usize) -> (ok: bool)
    requires
        5 * k + 5 <= source@.len(),
    ensures
        ok == block_ok(grid(source@), k as int),
{
    let ghost g = grid(source@);
    let width: usize = source.len();
    let base: usize = 5 * k;
    let rows: usize = source[base].len();
    proof {
        assert(g[5 * k] == cells(source@[base as int]@));
    }
    if rows < 2 {
        return false;
    }
    let mut a: usize = 0;
    while a < 4
        invariant
            a <= 4,
            g == grid(source@),
            base == 5 * k,
            base + 5 <= source@.len(),
            source@.len() == width,
            rows == g[5 * k].len(),
            rows >= 2,
            forall|b: int| 0 <= b < a ==> (#[trigger] g[5 * k + b]).len() == rows,
            forall|b: int, r: int|
                0 <= b < a && 1 <= r < rows ==> is_number(#[trigger] g[5 * k + b][r]),
        decreases 4 - a,
    {
        proof {
            assert(g[5 * k + a] == cells(source@[base + a]@));
        }
        if source[base + a].len() != rows {
            return false;
        }
        let mut r: usize = 1;
        while r < rows
            invariant
                1 <= r <= rows,
                a < 4,
                g == grid(source@),
                base == 5 * k,
                base + 5 <= source@.len(),
                source@.len() == width,
                rows == g[5 * k].len(),
                g[5 * k + a] == cells(source@[base + a]@),
                source@[base + a]@.len() == rows,
                forall|q: int| 1 <= q < r ==> is_number(#[trigger] g[5 * k + a][q]),
            decreases rows - r,
        {
            if !check_number(source[base + a][r].as_slice()) {
                proof {
                    assert(g[5 * k + a][r as int] == source@[base + a]@[r as int]@);
                    assert(!is_number(g[5 * k + a][r as int]));
                }
                return false;
            }
            proof {
                assert(g[5 * k + a][r as int] == source@[base + a]@[r as int]@);
            }
            r += 1;
        }
        a += 1;
    }
    true
}

/// Counts the device blocks of a table that can be resampled; there is no
/// count for a table that cannot. Every cell below the label of every
/// time, x, y and z column is tested for a number, and the four columns
/// of a block must be equally long; spacer columns and columns past the
/// last whole block are not read.
pub fn check_blocks(source: &Vec<Vec<Vec<u8>>>) -> (r: Option<usize>)
    ensures
        r.is_some() <==> valid_blocks(grid(source@)),
        r matches Some(n) ==> n == source@.len() / 5,
{
    let blocks: usize = source.len() / 5;
    if blocks == 0 {
        return None;
    }
    let mut k: usize = 0;
    while k < blocks
        invariant
            k <= blocks,
            blocks == source@.len() / 5,
            forall|j: int| 0 <= j < k ==> block_ok(grid(source@), j),
        decreases blocks - k,
    {
        if !check_block(source, k) {
            return None;
        }
        k += 1;
    }
    Some(blocks)
}

/// The source column that gives the label of output column `c`, for
/// `c >= 1`: the x, y or z column of the device that `c` belongs to.
pub open spec fn label_column(c: int) -> int {
    5 * ((c - 1) / 3) + 1 + (c - 1) % 3
}

/// The aligned table can be laid out: the reference is a block of the
/// source, there are three value columns for each block, each as long as
/// the timeline, and every source column that gives a label has one.
pub open spec fn fits(
    source: Seq<Seq<Seq<u8>>>,
    reference: int,
    timeline: Seq<Seq<u8>>,
    values: Seq<Seq<Seq<u8>>>,
) -> bool {
    &&& 0 <= reference < source.len() / 5
    &&& values.len() == 3 * (source.len() / 5)
    &&& source[5 * reference].len() >= 1
    &&& forall|v: int|
        0 <= v < values.len() ==> (#[trigger] source[label_column(v + 1)]).len() >= 1
    &&& forall|c: int| 0 <= c < values.len() ==> (#[trigger] values[c]).len() == timeline.len()
}

/// The aligned table: the reference's time label over the timeline, then
/// for each device in column order its x, y and z labels over its values.
pub open spec fn aligned(
    source: Seq<Seq<Seq<u8>>>,
    reference: int,
    timeline: Seq<Seq<u8>>,
    values: Seq<Seq<Seq<u8>>>,
) -> Seq<Seq<Seq<u8>>> {
    Seq::new(
        1 + values.len(),
        |c: int|
            if c == 0 {
                seq![source[5 * reference][0]] + timeline
            } else {
                seq![source[label_column(c)][0]] + values[c - 1]
            },
    )
}

/// Where the value columns are the source's own data cells, as they are
/// when every window holds its own row and nothing else, the aligned
/// table keeps each x, y and z column of the source as it was, label and
/// cells, and drops the spacers and the devices' own time columns.
pub proof fn lemma_aligned_keeps_columns(
    source: Seq<Seq<Seq<u8>>>,
    reference: int,
    timeline: Seq<Seq<u8>>,
    values: Seq<Seq<Seq<u8>>>,
)
    requires
        fits(source, reference, timeline, values),
        forall|v: int|
            0 <= v < values.len() ==> #[trigger] values[v] == source[label_column(v + 1)].skip(1),
    ensures
        aligned(source, reference, timeline, values).len() == 1 + 3 * (source.len() / 5),
        aligned(source, reference, timeline, values)[0] == seq![source[5 * reference][0]]
            + timeline,
        forall|c: int|
            1 <= c <= values.len() ==> #[trigger] aligned(source, reference, timeline, values)[c]
                == source[label_column(c)],
{
    let table = aligned(source, reference, timeline, values);
    assert forall|c: int| 1 <= c <= values.len() implies #[trigger] table[c] == source[label_column(
        c,
    )] by {
        let from = source[label_column(c)];
        assert(values[c - 1] == source[label_column((c - 1) + 1)].skip(1));
        assert(from.len() >= 1);
        assert(seq![from[0]] + from.skip(1) =~= from);
    }
}

fn labelled(label: &Vec<u8>, column: &Vec<Vec<u8>>) -> (out: Vec<Vec<u8>>)
    ensures
        cells(out@) == seq![label@] + cells(column@),
{
    let mut out: Vec<Vec<u8>> = Vec::new();
    out.push(copy_bytes(label.as_slice()));
    let mut i: usize = 0;
    proof {
        assert(cells(out@) =~= seq![label@] + cells(column@).take(0));
    }
    while i < column.len()
        invariant
            i <= column@.len(),
            cells(out@) == seq![label@] + cells(column@).take(i as int),
        decreases column.len() - i,
    {
        let ghost before = cells(out@);
        let cell = copy_bytes(column[i].as_slice());
        out.push(cell);
        proof {
            assert(cells(out@) =~= before.push(cell@));
            assert(cells(out@) =~= seq![label@] + cells(column@).take(i + 1));
        }
        i += 1;
    }
    proof {
        assert(cells(column@).take(column@.len() as int) =~= cells(column@));
    }
    out
}

fn fits_shape(
    source: &Vec<Vec<Vec<u8>>>,
    reference: usize,
    timeline: &Vec<Vec<u8>>,
    values: &Vec<Vec<Vec<u8>>>,
) -> (ok: bool)
    ensures
        ok == fits(grid(source@), reference as int, cells(timeline@), grid(values@)),
{
    let blocks: usize = source.len() / 5;
    if reference >= blocks || values.len() / 3 != blocks || values.len() % 3 != 0 {
        return false;
    }
    proof {
        assert(grid(source@)[5 * reference].len() == source@[5 * reference]@.len());
    }
    if source[5 * reference].len() < 1 {
        return false;
    }
    let mut v: usize = 0;
    while v < values.len()
        invariant
            v <= values@.len(),
            blocks == source@.len() / 5,
            values@.len() == 3 * blocks,
            source@.len() <= usize::MAX,
            forall|j: int|
                0 <= j < v ==> (#[trigger] grid(source@)[label_column(j + 1)]).len() >= 1,
            forall|j: int|
                0 <= j < v ==> (#[trigger] grid(values@)[j]).len() == cells(timeline@).len(),
        decreases values.len() - v,
    {
        let from: usize = 5 * (v / 3) + 1 + v % 3;
        proof {
            assert(from == label_column(v + 1));
            assert(grid(source@)[from as int].len() == source@[from as int]@.len());
            assert(grid(values@)[v as int].len() == values@[v as int]@.len());
        }
        if source[from].len() < 1 || values[v].len() != timeline.len() {
            return false;
        }
        v += 1;
    }
    true
}

/// Lays out the aligned table from the source table, the chosen reference
/// block, the timeline cells and the filled value columns, three for each
/// block in column order.
pub fn aligned_table(
    source: &Vec<Vec<Vec<u8>>>,
    reference: usize,
    timeline: &Vec<Vec<u8>>,
    values: &Vec<Vec<Vec<u8>>>,
) -> (r: Option<Vec<Vec<Vec<u8>>>>)
    ensures
        r.is_some() <==> fits(grid(source@), reference as int, cells(timeline@), grid(values@)),
        r matches Some(t) ==> grid(t@) == aligned(
            grid(source@),
            reference as int,
            cells(timeline@),
            grid(values@),
        ),
{
    if !fits_shape(source, reference, timeline, values) {
        return None;
    }
    let ghost src = grid(source@);
    let ghost vals = grid(values@);
    let ghost want = aligned(src, reference as int, cells(timeline@), vals);
    let mut table: Vec<Vec<Vec<u8>>> = Vec::new();
    let width: usize = source.len();
    proof {
        assert(src[5 * reference] == cells(source@[5 * reference]@));
    }
    table.push(labelled(&source[5 * reference][0], timeline));
    let mut v: usize = 0;
    while v < values.len()
        invariant
            v <= values@.len(),
            source@.len() == width,
            src == grid(source@),
            vals == grid(values@),
            want == aligned(src, reference as int, cells(timeline@), vals),
            fits(src, reference as int, cells(timeline@), vals),
            table@.len() == v + 1,
            forall|j: int| 0 <= j < v + 1 ==> #[trigger] grid(table@)[j] == want[j],
        decreases values.len() - v,
    {
        let from: usize = 5 * (v / 3) + 1 + v % 3;
        proof {
            assert(from == label_column(v + 1));
            assert(from < 5 * (src.len() / 5));
            assert(src[label_column(v + 1)].len() >= 1);
            assert(src[from as int] == cells(source@[from as int]@));
            assert(vals[v as int] == cells(values@[v as int]@));
        }
        let ghost before = grid(table@);
        let column = labelled(&source[from][0], &values[v]);
        table.push(column);
        proof {
            assert(grid(table@) =~= before.push(cells(column@)));
        }
        v += 1;
    }
    proof {
        assert(grid(table@) =~= want);
    }
    Some(table)
}

} // verus!
