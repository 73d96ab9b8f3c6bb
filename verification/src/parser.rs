//! Decoding of one datagram payload into a batch of readings.
//!
//! A payload is comma-separated text: a timestamp, then groups of four
//! fields, each a device number and the x, y and z values of that device.
//! Whitespace around a field does not count. Numeric fields are kept as
//! their trimmed text once they are known to be numbers.

use vstd::prelude::*;
use vstd::slice::slice_subrange;
use crate::number::{check_number, is_number};
use crate::text::{
    all_space, cells, lemma_trim_padding, parse_small_number, small_number, split, split_fields,
    trim, trimmed, COMMA,
};

verus! {

/// One device's sample within a batch.
#[derive(Debug)]
pub struct SensorData {
    pub sensor: u8,
    pub x: Vec<u8>,
    pub y: Vec<u8>,
    pub z: Vec<u8>,
}

/// A reading as its device number and the text of its three values.
pub ghost struct SensorDataView {
    pub sensor: u8,
    pub x: Seq<u8>,
    pub y: Seq<u8>,
    pub z: Seq<u8>,
}

impl View for SensorData {
    type V = SensorDataView;

    open spec fn view(&self) -> SensorDataView {
        SensorDataView { sensor: self.sensor, x: self.x@, y: self.y@, z: self.z@ }
    }
}

/// The readings of one datagram, which share its timestamp.
#[derive(Debug)]
pub struct SensorBatch {
    pub sensors: Vec<SensorData>,
    pub timestamp: Vec<u8>,
}

/// A batch as its readings and the text of its timestamp.
pub ghost struct SensorBatchView {
    pub sensors: Seq<SensorDataView>,
    pub timestamp: Seq<u8>,
}

impl View for SensorBatch {
    type V = SensorBatchView;

    open spec fn view(&self) -> SensorBatchView {
        SensorBatchView {
            sensors: self.sensors@.map_values(|s: SensorData| s@),
            timestamp: self.timestamp@,
        }
    }
}

/// The reading that the first four fields write, if they write one: a
/// device number and three numbers, each taken without surrounding
/// whitespace. Fields after the fourth do not count.
pub open spec fn reading_of(parts: Seq<Seq<u8>>) -> Option<SensorDataView> {
    if parts.len() >= 4 && small_number(trimmed(parts[0])).is_some() && is_number(
        trimmed(parts[1]),
    ) && is_number(trimmed(parts[2])) && is_number(trimmed(parts[3])) {
        Some(
            SensorDataView {
                sensor: small_number(trimmed(parts[0])).unwrap(),
                x: trimmed(parts[1]),
                y: trimmed(parts[2]),
                z: trimmed(parts[3]),
            },
        )
    } else {
        None
    }
}

/// The fields of the `g`-th group of a payload's fields.
pub open spec fn group(fields: Seq<Seq<u8>>, g: int) -> Seq<Seq<u8>> {
    fields.subrange(4 * g + 1, 4 * g + 5)
}

/// The readings of the first `n` groups, if each of them writes one.
pub open spec fn readings_of(fields: Seq<Seq<u8>>, n: int) -> Option<Seq<SensorDataView>>
    decreases n,
{
    if n <= 0 {
        Some(Seq::empty())
    } else {
        match (readings_of(fields, n - 1), reading_of(group(fields, n - 1))) {
            (Some(earlier), Some(last)) => Some(earlier.push(last)),
            _ => None,
        }
    }
}

/// The batch that a payload writes, if it writes one: the first field is
/// a number, the fields after it come in groups of four, and every group
/// writes a reading.
pub open spec fn batch_of(payload: Seq<u8>) -> Option<SensorBatchView> {
    let fields = split(payload, COMMA);
    if is_number(trimmed(fields[0])) && (fields.len() - 1) % 4 == 0 {
        match readings_of(fields, (fields.len() - 1) / 4) {
            Some(sensors) => Some(SensorBatchView { sensors, timestamp: trimmed(fields[0]) }),
            None => None,
        }
    } else {
        None
    }
}

/// The first `n` groups give readings exactly when each of them writes
/// one; there are then `n` readings, the `g`-th that of the `g`-th group.
pub proof fn lemma_readings_of(fields: Seq<Seq<u8>>, n: int)
    requires
        0 <= n,
    ensures
        readings_of(fields, n).is_some() <==> forall|g: int|
            0 <= g < n ==> reading_of(#[trigger] group(fields, g)).is_some(),
        readings_of(fields, n) matches Some(rs) ==> rs.len() == n && forall|g: int|
            0 <= g < n ==> Some(#[trigger] rs[g]) == reading_of(group(fields, g)),
    decreases n,
{
    if n > 0 {
        lemma_readings_of(fields, n - 1);
        if readings_of(fields, n).is_some() {
            assert forall|g: int| 0 <= g < n implies reading_of(
                #[trigger] group(fields, g),
            ).is_some() by {
                if g == n - 1 {
                    assert(reading_of(group(fields, n - 1)).is_some());
                }
            }
        } else if readings_of(fields, n - 1).is_some() {
            assert(reading_of(group(fields, n - 1)).is_none());
        }
    }
}

/// A payload writes a batch exactly when its first field is a number,
/// the fields after it come in groups of four, and each group writes a
/// reading. The batch then has the first field as its timestamp and one
/// reading for each group, in their order.
pub proof fn lemma_batch_of(payload: Seq<u8>)
    ensures
        batch_of(payload).is_some() <==> {
            let fields = split(payload, COMMA);
            &&& is_number(trimmed(fields[0]))
            &&& (fields.len() - 1) % 4 == 0
            &&& forall|g: int|
                0 <= g < (fields.len() - 1) / 4 ==> reading_of(
                    #[trigger] group(fields, g),
                ).is_some()
        },
        batch_of(payload) matches Some(b) ==> {
            let fields = split(payload, COMMA);
            &&& b.timestamp == trimmed(fields[0])
            &&& b.sensors.len() == (fields.len() - 1) / 4
            &&& forall|g: int|
                0 <= g < b.sensors.len() ==> Some(#[trigger] b.sensors[g]) == reading_of(
                    group(fields, g),
                )
        },
{
    let fields = split(payload, COMMA);
    crate::text::lemma_split_nonempty(payload, COMMA);
    lemma_readings_of(fields, (fields.len() - 1) / 4);
}

/// The fields of a group with whitespace put before and after each.
pub open spec fn padded(
    parts: Seq<Seq<u8>>,
    left: Seq<Seq<u8>>,
    right: Seq<Seq<u8>>,
) -> Seq<Seq<u8>> {
    Seq::new(parts.len(), |i: int| left[i] + parts[i] + right[i])
}

/// Whitespace around the fields of a group changes neither whether the
/// group writes a reading nor which reading it writes.
pub proof fn lemma_reading_ignores_padding(
    parts: Seq<Seq<u8>>,
    left: Seq<Seq<u8>>,
    right: Seq<Seq<u8>>,
)
    requires
        left.len() == parts.len(),
        right.len() == parts.len(),
        forall|i: int| 0 <= i < parts.len() ==> all_space(#[trigger] left[i]),
        forall|i: int| 0 <= i < parts.len() ==> all_space(#[trigger] right[i]),
    ensures
        reading_of(padded(parts, left, right)) == reading_of(parts),
{
    if parts.len() >= 4 {
        let wide = padded(parts, left, right);
        assert forall|i: int| 0 <= i < 4 implies trimmed(#[trigger] wide[i]) == trimmed(
            parts[i],
        ) by {
            assert(all_space(left[i]));
            assert(all_space(right[i]));
            lemma_trim_padding(left[i], parts[i], right[i]);
        }
        assert(trimmed(wide[0]) == trimmed(parts[0]));
        assert(trimmed(wide[1]) == trimmed(parts[1]));
        assert(trimmed(wide[2]) == trimmed(parts[2]));
        assert(trimmed(wide[3]) == trimmed(parts[3]));
    }
}

/// Decodes the first four fields of a group into a reading; fields after
/// them are ignored. Fewer than four fields, a device number out of
/// range, or a value that is no number gives no reading.
pub fn parse_sensordata(parts: &[Vec<u8>]) -> (r: Option<SensorData>)
    ensures
        r.is_some() <==> parts@.len() >= 4 && reading_of(cells(parts@).take(4)).is_some(),
        r matches Some(d) ==> reading_of(cells(parts@).take(4)) == Some(d@),
{
    if parts.len() < 4 {
        return None;
    }
    proof {
        let first = cells(parts@).take(4);
        assert(first[0] == cells(parts@)[0]);
        assert(first[1] == cells(parts@)[1]);
        assert(first[2] == cells(parts@)[2]);
        assert(first[3] == cells(parts@)[3]);
    }
    let first = trim(parts[0].as_slice());
    let x = trim(parts[1].as_slice());
    let y = trim(parts[2].as_slice());
    let z = trim(parts[3].as_slice());
    let sensor = match parse_small_number(first.as_slice()) {
        Some(v) => v,
        None => {
            return None;
        },
    };
    if check_number(x.as_slice()) && check_number(y.as_slice()) && check_number(z.as_slice()) {
        Some(SensorData { sensor, x, y, z })
    } else {
        None
    }
}

/// Decodes a datagram payload. A payload that writes no batch is dropped
/// as a whole: there is no partial batch.
pub fn parse_sensor_batch(total: &[u8]) -> (r: Option<SensorBatch>)
    ensures
        r.is_some() <==> batch_of(total@).is_some(),
        r matches Some(b) ==> batch_of(total@) == Some(b@),
        r matches Some(b) ==> {
            &&& b.sensors@.len() == (split(total@, COMMA).len() - 1) / 4
            &&& b.timestamp@ == trimmed(split(total@, COMMA)[0])
        },
        (split(total@, COMMA).len() - 1) % 4 != 0 ==> r.is_none(),
{
    let fields = split_fields(total, COMMA);
    let timestamp = trim(fields[0].as_slice());
    if !check_number(timestamp.as_slice()) {
        return None;
    }
    if (fields.len() - 1) % 4 != 0 {
        return None;
    }
    let groups: usize = (fields.len() - 1) / 4;
    let mut sensors: Vec<SensorData> = Vec::new();
    let mut g: usize = 0;
    while g < groups
        invariant
            g <= groups,
            fields@.len() >= 1,
            groups == (fields@.len() - 1) / 4,
            (fields@.len() - 1) % 4 == 0,
            cells(fields@) == split(total@, COMMA),
            is_number(trimmed(cells(fields@)[0])),
            sensors@.len() == g,
            readings_of(cells(fields@), g as int) == Some(sensors@.map_values(|s: SensorData| s@)),
        decreases groups - g,
    {
        let parts = slice_subrange(fields.as_slice(), g * 4 + 1, g * 4 + 5);
        proof {
            assert(cells(parts@) =~= group(cells(fields@), g as int));
        }
        match parse_sensordata(parts) {
            Some(d) => {
                let ghost earlier = sensors@.map_values(|s: SensorData| s@);
                sensors.push(d);
                proof {
                    assert(sensors@.map_values(|s: SensorData| s@) =~= earlier.push(d@));
                }
            },
            None => {
                proof {
                    lemma_no_readings(cells(fields@), g + 1, groups as int);
                }
                return None;
            },
        }
        g += 1;
    }
    Some(SensorBatch { sensors, timestamp })
}

/// A group that writes no reading leaves every longer run of groups
/// without readings.
proof fn lemma_no_readings(fields: Seq<Seq<u8>>, n: int, m: int)
    requires
        0 <= n <= m,
        readings_of(fields, n).is_none(),
    ensures
        readings_of(fields, m).is_none(),
    decreases m - n,
{
    if n < m {
        lemma_no_readings(fields, n + 1, m);
    }
}

} // verus!
