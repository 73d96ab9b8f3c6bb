use sensor_align::buffer::ColumnarBuffer;
use sensor_align::parser::parse_sensor_batch;
use sensor_align::registry::Registry;
use sensor_align::table::{parse_table, render_table};

fn b(s: &str) -> Vec<u8> {
    s.as_bytes().to_vec()
}

fn column(cells: &[&str]) -> Vec<Vec<u8>> {
    cells.iter().map(|c| b(c)).collect()
}

fn two_devices() -> Registry {
    let mut registry = Registry::new();
    registry.register(1, b("arm"));
    registry.register(200, b("leg"));
    registry
}

#[test]
fn registry_gives_places_in_declaration_order() {
    let mut registry = Registry::new();
    assert_eq!(registry.register(9, b("a")), 0);
    assert_eq!(registry.register(3, b("b")), 1);
    assert_eq!(registry.register(5, b("c")), 2);
    assert_eq!(registry.len(), 3);
    assert_eq!(registry.column_offset(9), Some(0));
    assert_eq!(registry.column_offset(3), Some(5));
    assert_eq!(registry.column_offset(5), Some(10));
    assert_eq!(registry.column_offset(4), None);
    assert_eq!(registry.position(5), Some(2));
}

#[test]
fn registry_keeps_the_place_of_a_number_declared_again() {
    let mut registry = two_devices();
    assert_eq!(registry.register(1, b("hand")), 0);
    assert_eq!(registry.len(), 2);
    assert_eq!(registry.device(0).id, 1);
    assert_eq!(registry.device(0).name, b("hand"));
    assert_eq!(registry.device(1).name, b("leg"));
}

#[test]
fn new_buffer_holds_the_labels() {
    let buffer = ColumnarBuffer::new(two_devices());
    let expected = vec![
        column(&["Time (s)"]),
        column(&["arm: X (1)"]),
        column(&["arm: Y (1)"]),
        column(&["arm: Z (1)"]),
        column(&[""]),
        column(&["Time (s)"]),
        column(&["leg: X (200)"]),
        column(&["leg: Y (200)"]),
        column(&["leg: Z (200)"]),
        column(&[""]),
    ];
    assert_eq!(buffer.columns(), &expected);
}

#[test]
fn labels_write_every_device_number() {
    for id in [0u8, 7, 10, 42, 99, 100, 255] {
        let mut registry = Registry::new();
        registry.register(id, b("d"));
        let buffer = ColumnarBuffer::new(registry);
        assert_eq!(buffer.columns()[2][0], format!("d: Y ({})", id).into_bytes());
    }
}

#[test]
fn appending_batches_adds_one_row_each_in_arrival_order() {
    let mut buffer = ColumnarBuffer::new(two_devices());
    let payloads = ["0.5,200,1,2,3", "1.5,200,4,5,6", "1.0,200,7,8,9", "2.5,200,1,1,1"];
    for p in payloads {
        let batch = parse_sensor_batch(p.as_bytes()).unwrap();
        assert!(buffer.append(&batch).is_ok());
    }
    let columns = buffer.columns();
    assert_eq!(columns[5], column(&["Time (s)", "0.5", "1.5", "1.0", "2.5"]));
    assert_eq!(columns[6], column(&["leg: X (200)", "1", "4", "7", "1"]));
    assert_eq!(columns[7], column(&["leg: Y (200)", "2", "5", "8", "1"]));
    assert_eq!(columns[8], column(&["leg: Z (200)", "3", "6", "9", "1"]));
    assert_eq!(columns[9], column(&[""]));
    for c in 0..5 {
        assert_eq!(columns[c].len(), 1);
    }
}

#[test]
fn appending_a_batch_of_two_devices_fills_both_blocks() {
    let mut buffer = ColumnarBuffer::new(two_devices());
    let batch = parse_sensor_batch(b"3,200,1,2,3,1,4,5,6,200,7,8,9").unwrap();
    assert!(buffer.append(&batch).is_ok());
    let columns = buffer.columns();
    assert_eq!(columns[0], column(&["Time (s)", "3"]));
    assert_eq!(columns[1], column(&["arm: X (1)", "4"]));
    assert_eq!(columns[5], column(&["Time (s)", "3", "3"]));
    assert_eq!(columns[8], column(&["leg: Z (200)", "3", "9"]));
}

#[test]
fn appending_for_an_undeclared_device_is_refused() {
    let mut buffer = ColumnarBuffer::new(two_devices());
    let batch = parse_sensor_batch(b"3,1,1,2,3,9,4,5,6").unwrap();
    let err = buffer.append(&batch).unwrap_err();
    assert_eq!(err.sensor, 9);
    for c in buffer.columns() {
        assert_eq!(c.len(), 1);
    }
}

#[test]
fn ragged_table_renders_empty_cells() {
    let table = vec![column(&["a", "1", "2"]), column(&["b", "3"]), column(&[""])];
    assert_eq!(render_table(&table), b("a,b,,\n1,3,,\n2,,,\n"));
}

#[test]
fn longest_column_sets_the_row_count() {
    let table = vec![column(&["a"]), column(&["b", "3", "4"])];
    assert_eq!(render_table(&table), b("a,b,\n,3,\n,4,\n"));
}

#[test]
fn empty_table_renders_nothing() {
    let table: Vec<Vec<Vec<u8>>> = Vec::new();
    assert_eq!(render_table(&table), b(""));
    let table: Vec<Vec<Vec<u8>>> = vec![Vec::new(), Vec::new()];
    assert_eq!(render_table(&table), b(""));
}

#[test]
fn rectangular_table_reads_back_as_written() {
    let table = vec![
        column(&["Time (s)", "0.5", "1.5"]),
        column(&["arm: X (1)", "-1", "1e3"]),
        column(&["arm: Y (1)", "0.25", "7"]),
    ];
    let text = render_table(&table);
    let back = parse_table(&text).unwrap();
    assert_eq!(back.len(), 4);
    assert_eq!(&back[..3], &table[..]);
    assert!(back[3].is_empty());
}

#[test]
fn ragged_table_reads_back_without_its_empty_cells() {
    let mut buffer = ColumnarBuffer::new(two_devices());
    for p in ["0,1,1,2,3", "1,1,4,5,6,200,7,8,9"] {
        let batch = parse_sensor_batch(p.as_bytes()).unwrap();
        assert!(buffer.append(&batch).is_ok());
    }
    let text = render_table(buffer.columns());
    assert_eq!(
        text,
        b("Time (s),arm: X (1),arm: Y (1),arm: Z (1),,Time (s),leg: X (200),leg: Y (200),leg: Z (200),,\n0,1,2,3,,1,7,8,9,,\n1,4,5,6,,,,,,,\n")
    );
    let back = parse_table(&text).unwrap();
    assert_eq!(back.len(), 11);
    assert_eq!(back[0], column(&["Time (s)", "0", "1"]));
    assert_eq!(back[3], column(&["arm: Z (1)", "3", "6"]));
    assert!(back[4].is_empty());
    assert_eq!(back[5], column(&["Time (s)", "1"]));
    assert_eq!(back[8], column(&["leg: Z (200)", "9"]));
}

#[test]
fn table_with_a_short_line_is_refused() {
    assert!(parse_table(b"a,b,c,\n1,2\n").is_none());
    assert!(parse_table(b"a,b,c,\n1,2,3,\n\n").is_some());
}

#[test]
fn line_without_comma_gives_no_cells() {
    let back = parse_table(b"a,b\nx\n1,2").unwrap();
    assert_eq!(back, vec![column(&["a", "1"]), column(&["b", "2"])]);
}

#[test]
fn written_numbers_read_back_exactly() {
    let values = [0.0f64, -0.0, 1.5, -2.25, 0.1, 1e300, 1e-300, 123456789.125, f64::MAX, f64::MIN_POSITIVE];
    let cells: Vec<Vec<u8>> = values.iter().map(|v| format!("{}", v).into_bytes()).collect();
    let mut col = vec![b("Time (s)")];
    col.extend(cells.iter().cloned());
    let table = vec![col.clone(), col];
    let back = parse_table(&render_table(&table)).unwrap();
    assert_eq!(back[0], table[0]);
    assert_eq!(back[1], table[1]);
    for (i, v) in values.iter().enumerate() {
        let read: f64 = String::from_utf8(back[1][i + 1].clone()).unwrap().parse().unwrap();
        assert_eq!(read.to_bits(), v.to_bits());
    }
}

#[test]
fn data_columns_of_a_device_stay_equally_long() {
    let mut buffer = ColumnarBuffer::new(two_devices());
    for p in ["0,1,1,2,3", "1,200,4,5,6,1,7,8,9", "2,1,1,1,1"] {
        let batch = parse_sensor_batch(p.as_bytes()).unwrap();
        assert!(buffer.append(&batch).is_ok());
    }
    let columns = buffer.columns();
    assert_eq!(columns.len(), 10);
    for block in 0..2 {
        for axis in 0..4 {
            assert_eq!(columns[5 * block + axis].len(), columns[5 * block].len());
        }
        assert_eq!(columns[5 * block + 4].len(), 1);
    }
    assert_eq!(columns[0].len(), 4);
    assert_eq!(columns[5].len(), 2);
}
