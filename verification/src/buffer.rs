//! The columnar buffer: five columns per declared device, each headed by
//! its label, to which the readings of every batch are appended.

use vstd::prelude::*;
use crate::parser::{SensorBatch, SensorBatchView, SensorData, SensorDataView};
use crate::registry::{index_of, lemma_index_of, lemma_registry_bound, Device, DeviceView, Registry};
use crate::text::{cells, copy_bytes, grid, push_bytes};

verus! {

/// The letters `X`, `Y` and `Z` of the axis labels.
pub const AXIS_X: u8 = 88;

pub const AXIS_Y: u8 = 89;

pub const AXIS_Z: u8 = 90;

/// The decimal digits of `n`, without leading zeros.
pub open spec fn digits_text(n: nat) -> Seq<u8>
    decreases n,
{
    if n < 10 {
        seq![(48 + n) as u8]
    } else {
        digits_text(n / 10).push((48 + n % 10) as u8)
    }
}

/// The label `Time (s)`.
pub open spec fn time_label() -> Seq<u8> {
    seq![84u8, 105u8, 109u8, 101u8, 32u8, 40u8, 115u8, 41u8]
}

/// The label of one axis of a device: its name, a colon, the axis letter
/// and the device number in brackets.
pub open spec fn axis_label(d: DeviceView, axis: u8) -> Seq<u8> {
    d.name + seq![58u8, 32u8, axis, 32u8, 40u8] + digits_text(d.id as nat) + seq![41u8]
}

/// The label of column `c` of the table of the devices `ds`.
pub open spec fn column_label(ds: Seq<DeviceView>, c: int) -> Seq<u8> {
    let d = ds[c / 5];
    if c % 5 == 0 {
        time_label()
    } else if c % 5 == 1 {
        axis_label(d, AXIS_X)
    } else if c % 5 == 2 {
        axis_label(d, AXIS_Y)
    } else if c % 5 == 3 {
        axis_label(d, AXIS_Z)
    } else {
        Seq::empty()
    }
}

/// The table before any reading: each column holds its label.
pub open spec fn headers(ds: Seq<DeviceView>) -> Seq<Seq<Seq<u8>>> {
    Seq::new(5 * ds.len(), |c: int| seq![column_label(ds, c)])
}

/// The table with one more row in the four data columns from `off` on.
pub open spec fn with_row(
    cols: Seq<Seq<Seq<u8>>>,
    off: int,
    time: Seq<u8>,
    r: SensorDataView,
) -> Seq<Seq<Seq<u8>>> {
    cols.update(off, cols[off].push(time)).update(off + 1, cols[off + 1].push(r.x)).update(
        off + 2,
        cols[off + 2].push(r.y),
    ).update(off + 3, cols[off + 3].push(r.z))
}

/// The table after the first `n` readings of a batch were appended, each
/// to the columns of its device.
pub open spec fn with_readings(
    cols: Seq<Seq<Seq<u8>>>,
    ds: Seq<DeviceView>,
    time: Seq<u8>,
    readings: Seq<SensorDataView>,
    n: int,
) -> Seq<Seq<Seq<u8>>>
    decreases n,
{
    if n <= 0 {
        cols
    } else {
        let before = with_readings(cols, ds, time, readings, n - 1);
        match index_of(ds, readings[n - 1].sensor, 0) {
            Some(p) => with_row(before, 5 * p, time, readings[n - 1]),
            None => before,
        }
    }
}

/// The table after the first `k` of a run of batches were appended in
/// their order.
pub open spec fn with_batches(
    cols: Seq<Seq<Seq<u8>>>,
    ds: Seq<DeviceView>,
    batches: Seq<SensorBatchView>,
    k: int,
) -> Seq<Seq<Seq<u8>>>
    decreases k,
{
    if k <= 0 {
        cols
    } else {
        let b = batches[k - 1];
        with_readings(
            with_batches(cols, ds, batches, k - 1),
            ds,
            b.timestamp,
            b.sensors,
            b.sensors.len() as int,
        )
    }
}

/// The cell that a reading gives column `axis` of its device: for `axis`
/// 0 the batch's timestamp, for 1, 2 and 3 its x, y and z value.
pub open spec fn reading_cell(time: Seq<u8>, r: SensorDataView, axis: int) -> Seq<u8> {
    if axis == 0 {
        time
    } else if axis == 1 {
        r.x
    } else if axis == 2 {
        r.y
    } else {
        r.z
    }
}

/// The cells that the first `n` readings of a batch give column `axis` of
/// the device `id`, in the order of the readings.
pub open spec fn device_cells(
    time: Seq<u8>,
    readings: Seq<SensorDataView>,
    id: u8,
    axis: int,
    n: int,
) -> Seq<Seq<u8>>
    decreases n,
{
    if n <= 0 {
        Seq::empty()
    } else {
        let before = device_cells(time, readings, id, axis, n - 1);
        if readings[n - 1].sensor == id {
            before.push(reading_cell(time, readings[n - 1], axis))
        } else {
            before
        }
    }
}

/// The cells that the first `k` batches give column `axis` of the device
/// `id`, in the order of the batches and of the readings in each.
pub open spec fn device_rows(
    batches: Seq<SensorBatchView>,
    id: u8,
    axis: int,
    k: int,
) -> Seq<Seq<u8>>
    decreases k,
{
    if k <= 0 {
        Seq::empty()
    } else {
        device_rows(batches, id, axis, k - 1) + device_cells(
            batches[k - 1].timestamp,
            batches[k - 1].sensors,
            id,
            axis,
            batches[k - 1].sensors.len() as int,
        )
    }
}

/// Appending the first `n` readings of a batch adds to each data column
/// of a declared device one row for each reading of that device, in the
/// order of the readings, whatever other devices the batch names.
pub proof fn lemma_readings_add_rows(
    cols: Seq<Seq<Seq<u8>>>,
    ds: Seq<DeviceView>,
    time: Seq<u8>,
    readings: Seq<SensorDataView>,
    id: u8,
    n: int,
)
    requires
        cols.len() == 5 * ds.len(),
        index_of(ds, id, 0).is_some(),
        0 <= n <= readings.len(),
    ensures
        with_readings(cols, ds, time, readings, n).len() == cols.len(),
        forall|axis: int|
            0 <= axis < 4 ==> #[trigger] with_readings(cols, ds, time, readings, n)[5 * index_of(
                ds,
                id,
                0,
            ).unwrap() + axis] == cols[5 * index_of(ds, id, 0).unwrap() + axis] + device_cells(
                time,
                readings,
                id,
                axis,
                n,
            ),
    decreases n,
{
    let p = index_of(ds, id, 0).unwrap();
    lemma_index_of(ds, id, 0);
    let after = with_readings(cols, ds, time, readings, n);
    if n == 0 {
        assert forall|axis: int| 0 <= axis < 4 implies #[trigger] after[5 * p + axis] == cols[5
            * p + axis] + device_cells(time, readings, id, axis, n) by {
            assert(cols[5 * p + axis] + Seq::<Seq<u8>>::empty() =~= cols[5 * p + axis]);
        }
    } else {
        lemma_readings_add_rows(cols, ds, time, readings, id, n - 1);
        let before = with_readings(cols, ds, time, readings, n - 1);
        let r = readings[n - 1];
        lemma_index_of(ds, r.sensor, 0);
        assert forall|axis: int| 0 <= axis < 4 implies #[trigger] after[5 * p + axis] == cols[5
            * p + axis] + device_cells(time, readings, id, axis, n) by {
            assert(before[5 * p + axis] == cols[5 * p + axis] + device_cells(
                time,
                readings,
                id,
                axis,
                n - 1,
            ));
            match index_of(ds, r.sensor, 0) {
                Some(q) => {
                    if r.sensor == id {
                        assert(q == p);
                        assert(after[5 * p + axis] == before[5 * p + axis].push(
                            reading_cell(time, r, axis),
                        ));
                    } else {
                        assert(q != p);
                        assert(after[5 * p + axis] == before[5 * p + axis]);
                    }
                },
                None => {},
            }
            assert(after[5 * p + axis] =~= cols[5 * p + axis] + device_cells(
                time,
                readings,
                id,
                axis,
                n,
            ));
        }
    }
}

/// Appending `k` batches of any readings adds to each data column of a
/// declared device exactly the rows of that device's readings, in the
/// order in which the batches arrived, and leaves the table's width as it
/// was.
pub proof fn lemma_batches_add_device_rows(
    cols: Seq<Seq<Seq<u8>>>,
    ds: Seq<DeviceView>,
    batches: Seq<SensorBatchView>,
    id: u8,
    k: int,
)
    requires
        cols.len() == 5 * ds.len(),
        index_of(ds, id, 0).is_some(),
        0 <= k <= batches.len(),
    ensures
        with_batches(cols, ds, batches, k).len() == cols.len(),
        forall|axis: int|
            0 <= axis < 4 ==> #[trigger] with_batches(cols, ds, batches, k)[5 * index_of(
                ds,
                id,
                0,
            ).unwrap() + axis] == cols[5 * index_of(ds, id, 0).unwrap() + axis] + device_rows(
                batches,
                id,
                axis,
                k,
            ),
    decreases k,
{
    let p = index_of(ds, id, 0).unwrap();
    let after = with_batches(cols, ds, batches, k);
    if k == 0 {
        assert forall|axis: int| 0 <= axis < 4 implies #[trigger] after[5 * p + axis] == cols[5
            * p + axis] + device_rows(batches, id, axis, k) by {
            assert(cols[5 * p + axis] + Seq::<Seq<u8>>::empty() =~= cols[5 * p + axis]);
        }
    } else {
        lemma_batches_add_device_rows(cols, ds, batches, id, k - 1);
        let before = with_batches(cols, ds, batches, k - 1);
        let b = batches[k - 1];
        lemma_readings_add_rows(before, ds, b.timestamp, b.sensors, id, b.sensors.len() as int);
        assert forall|axis: int| 0 <= axis < 4 implies #[trigger] after[5 * p + axis] == cols[5
            * p + axis] + device_rows(batches, id, axis, k) by {
            let added = device_cells(b.timestamp, b.sensors, id, axis, b.sensors.len() as int);
            assert(before[5 * p + axis] == cols[5 * p + axis] + device_rows(
                batches,
                id,
                axis,
                k - 1,
            ));
            assert(after[5 * p + axis] == before[5 * p + axis] + added);
            assert(after[5 * p + axis] =~= cols[5 * p + axis] + device_rows(batches, id, axis, k));
        }
    }
}

/// The cells that the first `k` batches give one column of their device:
/// for `axis` 0 the timestamps, for 1, 2 and 3 the x, y and z values of
/// the first reading of each batch.
pub open spec fn batch_cells(batches: Seq<SensorBatchView>, axis: int, k: int) -> Seq<Seq<u8>> {
    Seq::new(
        k as nat,
        |i: int|
            if axis == 0 {
                batches[i].timestamp
            } else if axis == 1 {
                batches[i].sensors[0].x
            } else if axis == 2 {
                batches[i].sensors[0].y
            } else {
                batches[i].sensors[0].z
            },
    )
}

/// Appending `k` batches, each of one reading of the same declared
/// device, adds exactly `k` rows to each of that device's four data
/// columns, in the order of the batches, and leaves the table's width
/// as it was.
pub proof fn lemma_batches_add_rows(
    cols: Seq<Seq<Seq<u8>>>,
    ds: Seq<DeviceView>,
    batches: Seq<SensorBatchView>,
    id: u8,
    k: int,
)
    requires
        cols.len() == 5 * ds.len(),
        index_of(ds, id, 0).is_some(),
        0 <= k <= batches.len(),
        forall|i: int|
            0 <= i < batches.len() ==> (#[trigger] batches[i]).sensors.len() == 1
                && batches[i].sensors[0].sensor == id,
    ensures
        with_batches(cols, ds, batches, k).len() == cols.len(),
        forall|axis: int|
            0 <= axis < 4 ==> #[trigger] with_batches(cols, ds, batches, k)[5 * index_of(
                ds,
                id,
                0,
            ).unwrap() + axis] == cols[5 * index_of(ds, id, 0).unwrap() + axis] + batch_cells(
                batches,
                axis,
                k,
            ),
    decreases k,
{
    let p = index_of(ds, id, 0).unwrap();
    lemma_index_of(ds, id, 0);
    if k == 0 {
        assert forall|axis: int| 0 <= axis < 4 implies #[trigger] with_batches(
            cols,
            ds,
            batches,
            k,
        )[5 * p + axis] == cols[5 * p + axis] + batch_cells(batches, axis, k) by {
            assert(cols[5 * p + axis] + batch_cells(batches, axis, 0) =~= cols[5 * p + axis]);
        }
    } else {
        lemma_batches_add_rows(cols, ds, batches, id, k - 1);
        let before = with_batches(cols, ds, batches, k - 1);
        let b = batches[k - 1];
        assert(b.sensors.len() == 1 && b.sensors[0].sensor == id);
        assert(with_readings(before, ds, b.timestamp, b.sensors, 0) == before);
        assert(with_readings(before, ds, b.timestamp, b.sensors, 1) == with_row(
            before,
            5 * p,
            b.timestamp,
            b.sensors[0],
        ));
        let after = with_batches(cols, ds, batches, k);
        assert forall|axis: int| 0 <= axis < 4 implies #[trigger] after[5 * p + axis] == cols[5
            * p + axis] + batch_cells(batches, axis, k) by {
            assert(before[5 * p + axis] == cols[5 * p + axis] + batch_cells(
                batches,
                axis,
                k - 1,
            ));
            assert(batch_cells(batches, axis, k) =~= batch_cells(batches, axis, k - 1).push(
                batch_cells(batches, axis, k)[k - 1],
            ));
            assert(after[5 * p + axis] =~= cols[5 * p + axis] + batch_cells(batches, axis, k));
        }
    }
}

/// The four data columns of every device are equally long, and every
/// spacer column holds its blank label and nothing else.
pub open spec fn level(cols: Seq<Seq<Seq<u8>>>) -> bool {
    forall|c: int|
        0 <= c < cols.len() ==> (#[trigger] cols[c]).len() == if c % 5 == 4 {
            1
        } else {
            cols[c - c % 5].len()
        }
}

/// A row appended to a device's block keeps the table level.
pub proof fn lemma_row_keeps_level(
    cols: Seq<Seq<Seq<u8>>>,
    p: int,
    time: Seq<u8>,
    r: SensorDataView,
)
    requires
        level(cols),
        0 <= p,
        5 * p + 5 <= cols.len(),
    ensures
        level(with_row(cols, 5 * p, time, r)),
        with_row(cols, 5 * p, time, r).len() == cols.len(),
{
    let after = with_row(cols, 5 * p, time, r);
    assert forall|c: int| 0 <= c < after.len() implies (#[trigger] after[c]).len() == if c % 5
        == 4 {
        1
    } else {
        after[c - c % 5].len()
    } by {
        assert(cols[c].len() == if c % 5 == 4 {
            1
        } else {
            cols[c - c % 5].len()
        });
        assert(cols[5 * p + 1].len() == cols[5 * p].len());
        assert(cols[5 * p + 2].len() == cols[5 * p].len());
        assert(cols[5 * p + 3].len() == cols[5 * p].len());
        if 5 * p <= c < 5 * p + 4 {
            assert(c - c % 5 == 5 * p);
            assert(after[c].len() == cols[5 * p].len() + 1);
        } else {
            assert(after[c] == cols[c]);
            if c % 5 != 4 {
                assert(c - c % 5 != 5 * p);
                assert(c - c % 5 < 5 * p || c - c % 5 >= 5 * p + 4);
                assert(after[c - c % 5] == cols[c - c % 5]);
            }
        }
    }
}

/// Every reading names a declared device.
pub open spec fn all_declared(ds: Seq<DeviceView>, readings: Seq<SensorDataView>) -> bool {
    forall|i: int|
        0 <= i < readings.len() ==> index_of(ds, (#[trigger] readings[i]).sensor, 0).is_some()
}

/// A reading named a device that was not declared.
#[derive(Debug)]
pub struct UnknownDevice {
    pub sensor: u8,
}

fn number_text(n: u8) -> (out: Vec<u8>)
    ensures
        out@ == digits_text(n as nat),
{
    let mut out: Vec<u8> = Vec::new();
    if n >= 100 {
        out.push(48 + n / 100);
    }
    if n >= 10 {
        out.push(48 + (n / 10) % 10);
    }
    out.push(48 + n % 10);
    proof {
        reveal_with_fuel(digits_text, 4);
        assert(out@ =~= digits_text(n as nat));
    }
    out
}

fn time_text() -> (out: Vec<u8>)
    ensures
        out@ == time_label(),
{
    let out: Vec<u8> = vec![84u8, 105u8, 109u8, 101u8, 32u8, 40u8, 115u8, 41u8];
    proof {
        assert(out@ =~= time_label());
    }
    out
}

fn axis_text(d: &Device, axis: u8) -> (out: Vec<u8>)
    ensures
        out@ == axis_label(d@, axis),
{
    let mut out = copy_bytes(d.name.as_slice());
    out.push(58);
    out.push(32);
    out.push(axis);
    out.push(32);
    out.push(40);
    let digits = number_text(d.id);
    push_bytes(&mut out, digits.as_slice());
    out.push(41);
    proof {
        assert(out@ =~= axis_label(d@, axis));
    }
    out
}

fn single(cell: Vec<u8>) -> (col: Vec<Vec<u8>>)
    ensures
        cells(col@) == seq![cell@],
{
    let mut col: Vec<Vec<u8>> = Vec::new();
    col.push(cell);
    proof {
        assert(cells(col@) =~= seq![cell@]);
    }
    col
}

fn push_cell(columns: &mut Vec<Vec<Vec<u8>>>, c: usize, cell: Vec<u8>)
    requires
        c < old(columns)@.len(),
    ensures
        final(columns)@.len() == old(columns)@.len(),
        grid(final(columns)@) == grid(old(columns)@).update(
            c as int,
            grid(old(columns)@)[c as int].push(cell@),
        ),
{
    let ghost before = columns@;
    columns[c].push(cell);
    proof {
        assert(columns@.len() == before.len());
        assert(cells(columns@[c as int]@) =~= cells(before[c as int]@).push(cell@));
        assert(grid(columns@) =~= grid(before).update(
            c as int,
            grid(before)[c as int].push(cell@),
        ));
    }
}

fn push_row(columns: &mut Vec<Vec<Vec<u8>>>, off: usize, time: &Vec<u8>, reading: &SensorData)
    requires
        off + 4 <= old(columns)@.len(),
    ensures
        final(columns)@.len() == old(columns)@.len(),
        grid(final(columns)@) == with_row(grid(old(columns)@), off as int, time@, reading@),
{
    let ghost g0 = grid(columns@);
    let width: usize = columns.len();
    push_cell(columns, off, copy_bytes(time.as_slice()));
    let ghost g1 = grid(columns@);
    push_cell(columns, off + 1, copy_bytes(reading.x.as_slice()));
    let ghost g2 = grid(columns@);
    push_cell(columns, off + 2, copy_bytes(reading.y.as_slice()));
    let ghost g3 = grid(columns@);
    push_cell(columns, off + 3, copy_bytes(reading.z.as_slice()));
    proof {
        assert(g1 == g0.update(off as int, g0[off as int].push(time@)));
        assert(g1[off + 1] == g0[off + 1]);
        assert(g2 == g1.update(off + 1, g0[off + 1].push(reading@.x)));
        assert(g2[off + 2] == g0[off + 2]);
        assert(g3 == g2.update(off + 2, g0[off + 2].push(reading@.y)));
        assert(g3[off + 3] == g0[off + 3]);
        assert(grid(columns@) == g3.update(off + 3, g0[off + 3].push(reading@.z)));
    }
}

/// The table of a collection run: the declared devices and their columns.
pub struct ColumnarBuffer {
    registry: Registry,
    columns: Vec<Vec<Vec<u8>>>,
}

impl ColumnarBuffer {
    /// The devices that the buffer has columns for.
    pub closed spec fn devices(&self) -> Seq<DeviceView> {
        self.registry@
    }

    /// The columns of the buffer, labels first.
    pub closed spec fn table(&self) -> Seq<Seq<Seq<u8>>> {
        grid(self.columns@)
    }

    /// The devices are distinct, each has its five columns, and the data
    /// columns of each are equally long.
    pub closed spec fn wf(&self) -> bool {
        &&& self.registry.wf()
        &&& self.columns@.len() == 5 * self.registry@.len()
        &&& level(grid(self.columns@))
    }

    /// In a buffer, row `i` of a device's time, x, y and z columns is the
    /// `i`-th reading of that device: the four columns are equally long.
    pub proof fn lemma_level(&self)
        requires
            self.wf(),
        ensures
            level(self.table()),
    {
    }

    /// Five columns for each device hold the table.
    pub proof fn lemma_width(&self)
        requires
            self.wf(),
        ensures
            self.table().len() == 5 * self.devices().len(),
    {
    }

    /// A buffer for the declared devices, with the label of each column
    /// and no reading.
    pub fn new(registry: Registry) -> (b: ColumnarBuffer)
        requires
            registry.wf(),
        ensures
            b.wf(),
            b.devices() == registry@,
            b.table() == headers(registry@),
    {
        let mut columns: Vec<Vec<Vec<u8>>> = Vec::new();
        let mut i: usize = 0;
        let ghost ds = registry@;
        proof {
            lemma_registry_bound(ds);
        }
        while i < registry.len()
            invariant
                i <= ds.len(),
                ds == registry@,
                ds.len() <= 256,
                columns@.len() == 5 * i,
                forall|c: int|
                    0 <= c < 5 * i ==> #[trigger] grid(columns@)[c] == seq![column_label(ds, c)],
            decreases ds.len() - i,
        {
            let d = registry.device(i);
            let ghost before = grid(columns@);
            columns.push(single(time_text()));
            columns.push(single(axis_text(d, AXIS_X)));
            columns.push(single(axis_text(d, AXIS_Y)));
            columns.push(single(axis_text(d, AXIS_Z)));
            let blank: Vec<u8> = Vec::new();
            proof {
                assert(blank@ =~= Seq::<u8>::empty());
            }
            columns.push(single(blank));
            proof {
                let after = grid(columns@);
                assert forall|c: int| 0 <= c < 5 * (i + 1) implies #[trigger] after[c]
                    == seq![column_label(ds, c)] by {
                    if c < 5 * i {
                        assert(after[c] == before[c]);
                    } else {
                        assert(c / 5 == i as int);
                        assert(after[c] == cells(columns@[c]@));
                    }
                }
            }
            i += 1;
        }
        proof {
            assert(grid(columns@) =~= headers(ds));
            assert(level(grid(columns@)));
        }
        ColumnarBuffer { registry, columns }
    }

    /// The declared devices.
    pub fn registry(&self) -> (r: &Registry)
        ensures
            r@ == self.devices(),
    {
        &self.registry
    }

    /// The columns as they stand, for rendering.
    pub fn columns(&self) -> (t: &Vec<Vec<Vec<u8>>>)
        ensures
            grid(t@) == self.table(),
    {
        &self.columns
    }

    /// Appends the readings of a batch, in their order, each as one row of
    /// its device's time, x, y and z columns. A batch that names an
    /// undeclared device is refused as a whole, with the first such device
    /// in the error.
    pub fn append(&mut self, batch: &SensorBatch) -> (r: Result<(), UnknownDevice>)
        requires
            old(self).wf(),
        ensures
            final(self).wf(),
            final(self).devices() == old(self).devices(),
            r.is_ok() <==> all_declared(old(self).devices(), batch@.sensors),
            r.is_ok() ==> final(self).table() == with_readings(
                old(self).table(),
                old(self).devices(),
                batch@.timestamp,
                batch@.sensors,
                batch@.sensors.len() as int,
            ),
            r matches Err(e) ==> {
                &&& final(self).table() == old(self).table()
                &&& index_of(old(self).devices(), e.sensor, 0).is_none()
                &&& exists|i: int|
                    0 <= i < batch@.sensors.len() && (#[trigger] batch@.sensors[i]).sensor
                        == e.sensor && all_declared(
                        old(self).devices(),
                        batch@.sensors.take(i),
                    )
            },
    {
        let ghost ds = self.registry@;
        let ghost start = grid(self.columns@);
        let n: usize = batch.sensors.len();
        let mut i: usize = 0;
        while i < n
            invariant
                i <= n,
                n == batch.sensors@.len(),
                ds == self.registry@,
                ds == old(self).registry@,
                start == grid(old(self).columns@),
                start == grid(self.columns@),
                self.wf(),
                forall|j: int|
                    0 <= j < i ==> index_of(ds, (#[trigger] batch@.sensors[j]).sensor, 0).is_some(),
            decreases n - i,
        {
            let sensor: u8 = batch.sensors[i].sensor;
            proof {
                assert(batch@.sensors[i as int].sensor == sensor);
            }
            if self.registry.position(sensor).is_none() {
                proof {
                    assert(all_declared(ds, batch@.sensors.take(i as int))) by {
                        assert forall|j: int| 0 <= j < i implies index_of(
                            ds,
                            (#[trigger] batch@.sensors.take(i as int)[j]).sensor,
                            0,
                        ).is_some() by {
                            assert(batch@.sensors.take(i as int)[j] == batch@.sensors[j]);
                        }
                    }
                }
                return Err(UnknownDevice { sensor });
            }
            i += 1;
        }
        let mut k: usize = 0;
        while k < n
            invariant
                k <= n,
                n == batch.sensors@.len(),
                ds == self.registry@,
                ds == old(self).registry@,
                start == grid(old(self).columns@),
                self.registry.wf(),
                self.columns@.len() == 5 * ds.len(),
                level(grid(self.columns@)),
                all_declared(ds, batch@.sensors),
                grid(self.columns@) == with_readings(
                    start,
                    ds,
                    batch@.timestamp,
                    batch@.sensors,
                    k as int,
                ),
            decreases n - k,
        {
            let reading = &batch.sensors[k];
            proof {
                assert(batch@.sensors[k as int] == reading@);
                lemma_index_of(ds, reading.sensor, 0);
                lemma_registry_bound(ds);
            }
            match self.registry.position(reading.sensor) {
                Some(p) => {
                    let off: usize = p * 5;
                    proof {
                        lemma_row_keeps_level(
                            grid(self.columns@),
                            p as int,
                            batch@.timestamp,
                            reading@,
                        );
                    }
                    push_row(&mut self.columns, off, &batch.timestamp, reading);
                },
                None => {},
            }
            k += 1;
        }
        Ok(())
    }
}

} // verus!
