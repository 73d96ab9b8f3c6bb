use sensor_align::buffer::ColumnarBuffer;
use sensor_align::parser::parse_sensor_batch;
use sensor_align::registry::{parse_devices, DeclarationError};
use sensor_align::resample::{
    aligned_table, assign_rows, block_rows, cells_to_average, check_blocks, fill_gaps,
    is_non_decreasing,
    neighbours, select_reference, window_rows, window_rows_sorted, Window,
};
use sensor_align::table::{parse_table, render_table};

fn b(s: &str) -> Vec<u8> {
    s.as_bytes().to_vec()
}

fn column(cells: &[&str]) -> Vec<Vec<u8>> {
    cells.iter().map(|c| b(c)).collect()
}

fn number(cell: &[u8]) -> f64 {
    String::from_utf8(cell.to_vec()).unwrap().parse().unwrap()
}

fn key(v: f64) -> i64 {
    assert!(!v.is_nan());
    let bits = (v + 0.0).to_bits() as i64;
    bits ^ (((bits >> 63) as u64) >> 1) as i64
}

fn windows_of(reference: &[f64]) -> Vec<Window> {
    (0..reference.len())
        .map(|r| {
            let (before, after) = neighbours(reference.len(), r).unwrap();
            Window {
                target: key(reference[r]),
                lower: key((reference[before] + reference[r]) / 2.0),
                upper: key((reference[after] + reference[r]) / 2.0),
            }
        })
        .collect()
}

fn resample(text: &[u8]) -> Vec<u8> {
    let source = parse_table(text).unwrap();
    let blocks = check_blocks(&source).unwrap();
    let times: Vec<Vec<f64>> =
        (0..blocks).map(|d| source[5 * d][1..].iter().map(|c| number(c)).collect()).collect();
    let spans: Vec<i64> = times.iter().map(|t| key(t[t.len() - 1] - t[0])).collect();
    let reference = select_reference(&spans).unwrap();
    let windows = windows_of(&times[reference]);
    let keys: Vec<Vec<i64>> = times.iter().map(|t| t.iter().map(|v| key(*v)).collect()).collect();
    let plan = assign_rows(&keys, &windows);
    let cells = cells_to_average(blocks, &plan).unwrap();
    let mut values = Vec::new();
    for column in &cells {
        let means: Vec<Option<Vec<u8>>> = column
            .iter()
            .map(|window| {
                if window.is_empty() {
                    None
                } else {
                    let sum: f64 = window.iter().map(|(c, r)| number(&source[*c][*r])).sum();
                    Some(format!("{}", sum / window.len() as f64).into_bytes())
                }
            })
            .collect();
        values.push(fill_gaps(&means));
    }
    let timeline: Vec<Vec<u8>> =
        times[reference].iter().map(|t| format!("{}", t).into_bytes()).collect();
    render_table(&aligned_table(&source, reference, &timeline, &values).unwrap())
}

#[test]
fn smallest_span_is_the_reference() {
    assert_eq!(select_reference(&vec![10, 4, 7]), Some(1));
    assert_eq!(select_reference(&vec![4, 10, 7]), Some(0));
    assert_eq!(select_reference(&vec![7, 10, 4]), Some(2));
    assert_eq!(select_reference(&vec![10, 7, 4]), Some(2));
    assert_eq!(select_reference(&vec![-3, i64::MIN, i64::MAX]), Some(1));
}

#[test]
fn first_of_equal_spans_is_the_reference() {
    assert_eq!(select_reference(&vec![4, 4]), Some(0));
    assert_eq!(select_reference(&vec![9, 4, 4, 9]), Some(1));
    assert_eq!(select_reference(&vec![5]), Some(0));
}

#[test]
fn no_reference_without_blocks() {
    assert_eq!(select_reference(&vec![]), None);
}

#[test]
fn float_spans_order_as_their_keys() {
    let spans = [10.0f64, 4.0, 7.0, -0.0, 0.0, -2.5, 1e-300, f64::INFINITY];
    for a in spans {
        for c in spans {
            assert_eq!(a < c, key(a) < key(c), "{} {}", a, c);
            assert_eq!(a == c, key(a) == key(c), "{} {}", a, c);
        }
    }
}

#[test]
fn neighbours_at_the_ends_are_the_row_itself() {
    assert_eq!(neighbours(3, 0), Some((0, 1)));
    assert_eq!(neighbours(3, 1), Some((0, 2)));
    assert_eq!(neighbours(3, 2), Some((1, 2)));
    assert_eq!(neighbours(1, 0), Some((0, 0)));
    assert_eq!(neighbours(3, 3), None);
    assert_eq!(neighbours(0, 0), None);
}

#[test]
fn window_holds_target_and_half_open_interval() {
    let w = Window { target: 10, lower: 5, upper: 15 };
    assert!(w.contains(5));
    assert!(w.contains(10));
    assert!(w.contains(14));
    assert!(!w.contains(15));
    assert!(!w.contains(4));
    let point = Window { target: 7, lower: 7, upper: 7 };
    assert!(point.contains(7));
    assert!(!point.contains(6));
    assert!(!point.contains(8));
}

#[test]
fn samples_fall_into_midpoint_windows() {
    let windows = windows_of(&[0.0, 10.0, 20.0]);
    assert_eq!(windows[1].lower, key(5.0));
    assert_eq!(windows[1].upper, key(15.0));
    assert_eq!(windows[0].lower, key(0.0));
    assert_eq!(windows[0].upper, key(5.0));
    assert_eq!(windows[2].lower, key(15.0));
    assert_eq!(windows[2].upper, key(20.0));
    let second: Vec<i64> = [4.0, 9.0, 11.0].iter().map(|v| key(*v)).collect();
    assert_eq!(window_rows(&second, &windows[1]), vec![1, 2]);
    assert_eq!(window_rows(&second, &windows[0]), vec![0]);
    assert_eq!(window_rows(&second, &windows[2]), Vec::<usize>::new());
    assert_eq!(block_rows(&second, &windows), vec![vec![0], vec![1, 2], vec![]]);
}

#[test]
fn last_window_holds_its_own_row() {
    let windows = windows_of(&[0.0, 10.0, 20.0]);
    let own: Vec<i64> = [0.0, 10.0, 20.0].iter().map(|v| key(*v)).collect();
    assert_eq!(block_rows(&own, &windows), vec![vec![0], vec![1], vec![2]]);
}

#[test]
fn rows_are_assigned_for_every_block() {
    let windows = vec![
        Window { target: 0, lower: 0, upper: 5 },
        Window { target: 10, lower: 5, upper: 10 },
    ];
    let blocks = vec![vec![0, 10], vec![], vec![1, 2, 7, 10, 11]];
    assert_eq!(
        assign_rows(&blocks, &windows),
        vec![
            vec![vec![0], vec![1]],
            vec![vec![], vec![]],
            vec![vec![0, 1], vec![2, 3]],
        ]
    );
}

#[test]
fn gap_takes_the_row_before_or_zero() {
    let means = vec![None, None, Some(b("1.5")), None, None, Some(b("-2")), None];
    assert_eq!(fill_gaps(&means), column(&["0", "0", "1.5", "1.5", "1.5", "-2", "-2"]));
    assert_eq!(fill_gaps(&vec![]), Vec::<Vec<u8>>::new());
    assert_eq!(format!("{}", 0.0f64), "0");
}

#[test]
fn blocks_need_rows_and_numbers() {
    let good = vec![
        column(&["Time (s)", "0", "1"]),
        column(&["a: X (1)", "1", "2"]),
        column(&["a: Y (1)", "1", "2"]),
        column(&["a: Z (1)", "1", "2"]),
        column(&[]),
        column(&[]),
    ];
    assert_eq!(check_blocks(&good), Some(1));
    let mut no_rows = good.clone();
    no_rows[0] = column(&["Time (s)"]);
    assert_eq!(check_blocks(&no_rows), None);
    let mut short = good.clone();
    short[2] = column(&["a: Y (1)", "1"]);
    assert_eq!(check_blocks(&short), None);
    let mut long = good.clone();
    long[1] = column(&["a: X (1)", "1", "2", "3"]);
    assert_eq!(check_blocks(&long), None);
    let mut spacer = good.clone();
    spacer[4] = column(&["", "anything"]);
    spacer[5] = column(&["past the last block"]);
    assert_eq!(check_blocks(&spacer), Some(1));
    let mut bad = good.clone();
    bad[3] = column(&["a: Z (1)", "1", "two"]);
    assert_eq!(check_blocks(&bad), None);
    assert_eq!(check_blocks(&good[..4].to_vec()), None);
    assert_eq!(check_blocks(&Vec::new()), None);
}

#[test]
fn aligned_table_has_one_time_column_and_three_per_device() {
    let source = vec![
        column(&["Time (s)", "0"]),
        column(&["a: X (1)", "1"]),
        column(&["a: Y (1)", "2"]),
        column(&["a: Z (1)", "3"]),
        column(&[""]),
        column(&["Time B", "5"]),
        column(&["b: X (2)", "4"]),
        column(&["b: Y (2)", "5"]),
        column(&["b: Z (2)", "6"]),
        column(&[""]),
    ];
    let timeline = column(&["5"]);
    let values: Vec<Vec<Vec<u8>>> =
        ["1", "2", "3", "4", "5", "6"].iter().map(|v| column(&[v])).collect();
    let table = aligned_table(&source, 1, &timeline, &values).unwrap();
    assert_eq!(
        table,
        vec![
            column(&["Time B", "5"]),
            column(&["a: X (1)", "1"]),
            column(&["a: Y (1)", "2"]),
            column(&["a: Z (1)", "3"]),
            column(&["b: X (2)", "4"]),
            column(&["b: Y (2)", "5"]),
            column(&["b: Z (2)", "6"]),
        ]
    );
    assert!(aligned_table(&source, 2, &timeline, &values).is_none());
    assert!(aligned_table(&source, 0, &timeline, &values[..5].to_vec()).is_none());
    assert!(aligned_table(&source, 0, &column(&["5", "6"]), &values).is_none());
}

#[test]
fn two_devices_align_on_the_shorter_series() {
    let registry = parse_devices(b"1:one,2:two").unwrap();
    let mut buffer = ColumnarBuffer::new(registry);
    let payloads = [
        "0.0,1,10,100,1000",
        "0.5,2,1,2,3",
        "1.0,1,20,200,2000",
        "1.5,2,4,5,6",
        "2.0,1,30,300,3000",
    ];
    for p in payloads {
        let batch = parse_sensor_batch(p.as_bytes()).unwrap();
        assert!(buffer.append(&batch).is_ok());
    }
    let saved = render_table(buffer.columns());
    let out = String::from_utf8(resample(&saved)).unwrap();
    let lines: Vec<&str> = out.split('\n').collect();
    assert_eq!(lines.len(), 4);
    assert_eq!(lines[0], "Time (s),one: X (1),one: Y (1),one: Z (1),two: X (2),two: Y (2),two: Z (2),");
    assert_eq!(lines[1], "0.5,0,0,0,1,2,3,");
    assert_eq!(lines[2], "1.5,20,200,2000,4,5,6,");
    assert_eq!(lines[3], "");
}

#[test]
fn empty_windows_carry_the_row_before() {
    let text = b"Time (s),a: X (1),a: Y (1),a: Z (1),,Time (s),b: X (2),b: Y (2),b: Z (2),,\n\
0,1,1,1,,7,5,6,7,,\n\
10,2,2,2,,40,8,9,10,,\n\
20,3,3,3,,,,,,,\n";
    let out = String::from_utf8(resample(text)).unwrap();
    let lines: Vec<&str> = out.split('\n').collect();
    assert_eq!(lines[1], "0,1,1,1,0,0,0,");
    assert_eq!(lines[2], "10,2,2,2,5,6,7,");
    assert_eq!(lines[3], "20,3,3,3,5,6,7,");
    assert_eq!(lines.len(), 5);
}

#[test]
fn declaration_line_gives_the_registry() {
    let registry = parse_devices(b" 3 : left arm ,7:leg:extra, 3:right arm\n").unwrap();
    assert_eq!(registry.len(), 2);
    assert_eq!(registry.device(0).id, 3);
    assert_eq!(registry.device(0).name, b("right arm"));
    assert_eq!(registry.device(1).id, 7);
    assert_eq!(registry.device(1).name, b("leg"));
    assert_eq!(registry.column_offset(7), Some(5));
}

#[test]
fn declaration_faults_name_their_entry() {
    assert_eq!(parse_devices(b"1:a,x:b").unwrap_err(), DeclarationError::BadNumber { entry: 1 });
    assert_eq!(parse_devices(b"1:a,2").unwrap_err(), DeclarationError::NoName { entry: 1 });
    assert_eq!(parse_devices(b"").unwrap_err(), DeclarationError::BadNumber { entry: 0 });
    assert_eq!(parse_devices(b"1:a,").unwrap_err(), DeclarationError::BadNumber { entry: 1 });
    assert_eq!(parse_devices(b"256:a").unwrap_err(), DeclarationError::BadNumber { entry: 0 });
    assert_eq!(parse_devices(b"300,2").unwrap_err(), DeclarationError::BadNumber { entry: 0 });
}

#[test]
fn scan_that_ends_early_finds_the_same_rows() {
    let times = vec![-5, 0, 0, 4, 5, 9, 10, 11, 14, 15, 15, 20, 30];
    assert!(is_non_decreasing(&times));
    let windows = [
        Window { target: 10, lower: 5, upper: 15 },
        Window { target: 0, lower: 0, upper: 5 },
        Window { target: 30, lower: 25, upper: 30 },
        Window { target: -9, lower: -9, upper: -7 },
        Window { target: 15, lower: 15, upper: 15 },
    ];
    for w in &windows {
        assert_eq!(window_rows_sorted(&times, w), window_rows(&times, w));
    }
    assert_eq!(window_rows_sorted(&times, &windows[0]), vec![4, 5, 6, 7, 8]);
    assert_eq!(window_rows_sorted(&times, &windows[2]), vec![12]);
    assert_eq!(window_rows_sorted(&times, &windows[4]), vec![9, 10]);
}

#[test]
fn rows_out_of_order_are_still_found() {
    let times = vec![4, 20, 9, 11];
    assert!(!is_non_decreasing(&times));
    let windows = vec![Window { target: 10, lower: 5, upper: 15 }];
    assert_eq!(block_rows(&times, &windows), vec![vec![2, 3]]);
    assert!(is_non_decreasing(&vec![]));
    assert!(is_non_decreasing(&vec![7]));
    assert!(is_non_decreasing(&vec![7, 7, 8]));
    assert!(!is_non_decreasing(&vec![7, 8, 7]));
}

#[test]
fn bad_cell_beside_an_empty_time_cell_is_refused() {
    let text = b"Time (s),a: X (1),a: Y (1),a: Z (1),,Time (s),b: X (2),b: Y (2),b: Z (2),,\n\
0,1,1,1,,7,5,6,7,,\n\
10,2,2,2,,40,8,9,10,,\n\
20,3,3,3,,,bad,,,,\n";
    let source = parse_table(text).unwrap();
    assert_eq!(source[6].len(), 4);
    assert_eq!(check_blocks(&source), None);
    let text = b"Time (s),a: X (1),a: Y (1),a: Z (1),,\n0,1,1,1,,\n10,2,bad,2,,\n";
    assert_eq!(check_blocks(&parse_table(text).unwrap()), None);
    let text = b"Time (s),a: X (1),a: Y (1),a: Z (1),,\n0,1,1,1,,\n,2,,,,\n";
    assert_eq!(check_blocks(&parse_table(text).unwrap()), None);
}

#[test]
fn plan_rows_become_table_cells() {
    let plan = vec![vec![vec![0], vec![1, 2]], vec![vec![], vec![4]]];
    let cells = cells_to_average(2, &plan).unwrap();
    assert_eq!(
        cells,
        vec![
            vec![vec![(1, 1)], vec![(1, 2), (1, 3)]],
            vec![vec![(2, 1)], vec![(2, 2), (2, 3)]],
            vec![vec![(3, 1)], vec![(3, 2), (3, 3)]],
            vec![vec![], vec![(6, 5)]],
            vec![vec![], vec![(7, 5)]],
            vec![vec![], vec![(8, 5)]],
        ]
    );
    assert!(cells_to_average(3, &plan).is_none());
    assert!(cells_to_average(1, &plan).is_none());
    assert!(cells_to_average(1, &vec![vec![vec![usize::MAX]]]).is_none());
    assert_eq!(cells_to_average(0, &vec![]), Some(vec![]));
}

#[test]
fn rectangular_table_aligns_to_itself() {
    let text = b"Time (s),a: X (1),a: Y (1),a: Z (1),,Time (s),b: X (2),b: Y (2),b: Z (2),,\n\
0.5,1.25,-2,3,,0.5,4,5,6.5,,\n\
1,7,8,9,,1,10,11,12,,\n\
2.75,13,14,15,,2.75,16,17,0.1,,\n";
    let out = String::from_utf8(resample(text)).unwrap();
    assert_eq!(
        out,
        "Time (s),a: X (1),a: Y (1),a: Z (1),b: X (2),b: Y (2),b: Z (2),\n\
0.5,1.25,-2,3,4,5,6.5,\n\
1,7,8,9,10,11,12,\n\
2.75,13,14,15,16,17,0.1,\n"
    );
}
