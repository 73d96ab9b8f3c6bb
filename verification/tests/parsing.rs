use sensor_align::ingest::{decide, Action, Event};
use sensor_align::number::check_number;
use sensor_align::parser::{parse_sensor_batch, parse_sensordata};
use sensor_align::text::{parse_small_number, split_fields, trim};

fn b(s: &str) -> Vec<u8> {
    s.as_bytes().to_vec()
}

#[test]
fn batch_with_two_groups() {
    let batch = parse_sensor_batch(b"1.5,1,0.1,0.2,0.3,2,4,5,6").unwrap();
    assert_eq!(batch.timestamp, b("1.5"));
    assert_eq!(batch.sensors.len(), 2);
    assert_eq!(batch.sensors[0].sensor, 1);
    assert_eq!(batch.sensors[0].x, b("0.1"));
    assert_eq!(batch.sensors[0].y, b("0.2"));
    assert_eq!(batch.sensors[0].z, b("0.3"));
    assert_eq!(batch.sensors[1].sensor, 2);
    assert_eq!(batch.sensors[1].x, b("4"));
    assert_eq!(batch.sensors[1].y, b("5"));
    assert_eq!(batch.sensors[1].z, b("6"));
}

#[test]
fn batch_with_many_groups_counts_them() {
    let mut payload = String::from("12.25");
    for g in 0..7 {
        payload.push_str(&format!(",{},{}.5,-{},1e{}", g, g, g, g));
    }
    let batch = parse_sensor_batch(payload.as_bytes()).unwrap();
    assert_eq!(batch.sensors.len(), 7);
    assert_eq!(batch.timestamp, b("12.25"));
    assert_eq!(batch.sensors[6].sensor, 6);
    assert_eq!(batch.sensors[6].z, b("1e6"));
}

#[test]
fn batch_with_wrong_field_count_is_dropped() {
    assert!(parse_sensor_batch(b"1.5,1,0.1,0.2").is_none());
    assert!(parse_sensor_batch(b"1.5,1").is_none());
    assert!(parse_sensor_batch(b"1.5,1,2,3,4,5").is_none());
    assert!(parse_sensor_batch(b"1.5,1,0.1,0.2,0.3,").is_none());
}

#[test]
fn batch_of_timestamp_alone_has_no_readings() {
    let batch = parse_sensor_batch(b"3").unwrap();
    assert_eq!(batch.timestamp, b("3"));
    assert!(batch.sensors.is_empty());
}

#[test]
fn batch_without_timestamp_is_dropped() {
    assert!(parse_sensor_batch(b"").is_none());
    assert!(parse_sensor_batch(b"abc,1,2,3,4").is_none());
    assert!(parse_sensor_batch(b",1,2,3,4").is_none());
}

#[test]
fn batch_with_one_bad_reading_is_dropped_whole() {
    assert!(parse_sensor_batch(b"1,1,2,3,4,2,x,3,4").is_none());
    assert!(parse_sensor_batch(b"1,256,2,3,4").is_none());
    assert!(parse_sensor_batch(b"1,-1,2,3,4").is_none());
    assert!(parse_sensor_batch(b"1,1.0,2,3,4").is_none());
    assert!(parse_sensor_batch(b"1,1,2,3,").is_none());
}

#[test]
fn whitespace_around_fields_does_not_count() {
    let plain = parse_sensor_batch(b"1.5,7,0.1,-0.2,3e2").unwrap();
    let padded = parse_sensor_batch(b" 1.5\t, 7 ,\n0.1 ,  -0.2,3e2 \r\n").unwrap();
    assert_eq!(plain.timestamp, padded.timestamp);
    assert_eq!(plain.sensors.len(), padded.sensors.len());
    assert_eq!(plain.sensors[0].sensor, padded.sensors[0].sensor);
    assert_eq!(plain.sensors[0].x, padded.sensors[0].x);
    assert_eq!(plain.sensors[0].y, padded.sensors[0].y);
    assert_eq!(plain.sensors[0].z, padded.sensors[0].z);
    let x: f64 = String::from_utf8(padded.sensors[0].x.clone()).unwrap().parse().unwrap();
    assert_eq!(x, 0.1);
}

#[test]
fn whitespace_inside_a_field_counts() {
    assert!(parse_sensor_batch(b"1 .5,7,0.1,0.2,0.3").is_none());
}

#[test]
fn reading_needs_four_parts() {
    let parts = vec![b("1"), b("2"), b("3")];
    assert!(parse_sensordata(&parts).is_none());
    assert!(parse_sensordata(&[]).is_none());
    let parts = vec![b(" 9"), b("2 "), b(" 3 "), b("4")];
    let reading = parse_sensordata(&parts).unwrap();
    assert_eq!(reading.sensor, 9);
    assert_eq!(reading.x, b("2"));
    assert_eq!(reading.y, b("3"));
    assert_eq!(reading.z, b("4"));
}

#[test]
fn number_grammar_agrees_with_float_parsing() {
    let samples = [
        "", "0", "1", "-1", "+1", "1.5", ".5", "5.", ".", "-.", "+.5", "1e5", "1E5", "1e+5",
        "1e-5", "1e", "e5", "1e5.0", "1.2.3", "inf", "-inf", "+Infinity", "INF", "infinit",
        "nan", "NaN", "-nan", "nane", "0x10", "1_000", " 1", "1 ", "--1", "+-1", "1e--5", "-",
        "+", "1.e3", ".e3", "1.5e", "00012", "9999999999999999999999999", "1f", "i", "in",
    ];
    for s in samples {
        assert_eq!(check_number(s.as_bytes()), s.parse::<f64>().is_ok(), "{:?}", s);
    }
}

#[test]
fn small_number_agrees_with_integer_parsing() {
    let samples = [
        "", "0", "7", "007", "255", "256", "0255", "00256", "+5", "+", "-5", "-0", "1.0", "12a",
        "a", "999", "65536", " 1", "++1", "25 5",
    ];
    for s in samples {
        assert_eq!(parse_small_number(s.as_bytes()), s.parse::<u8>().ok(), "{:?}", s);
    }
    for n in 0..=255u8 {
        assert_eq!(parse_small_number(format!("{}", n).as_bytes()), Some(n));
    }
}

#[test]
fn trim_removes_whitespace_at_both_ends_only() {
    let samples = [
        "", " ", "a", " a", "a ", "  a b \t\r\n", "\n\n", "\x0b\x0cx\x0b", "a  b",
        "\u{a0}3\u{a0}", "\u{85}x\u{85}", "\u{1680}x\u{1680}", "\u{2000}x\u{200a}",
        "\u{2003} 1.5 \u{2028}\u{2029}", "\u{202f}x\u{205f}", "\u{3000}x\u{3000}\t",
        "\u{a0}", "\u{2003}\u{3000} ", "\u{200b}x\u{200b}", "\u{180e}x", "x\u{feff}",
        "\u{1c}x\u{1f}", "\u{e9}x\u{e0}", "a\u{a0}b", "\u{2007}\u{2008}a\u{2001}\u{2002}",
    ];
    for s in samples {
        assert_eq!(trim(s.as_bytes()), s.trim().as_bytes().to_vec(), "{:?}", s);
    }
}

#[test]
fn split_gives_one_more_field_than_separators() {
    let samples = ["", ",", "a", "a,b", ",a,", "a,,b", ",,,"];
    for s in samples {
        let expected: Vec<Vec<u8>> = s.split(',').map(|f| f.as_bytes().to_vec()).collect();
        assert_eq!(split_fields(s.as_bytes(), b','), expected, "{:?}", s);
    }
}

#[test]
fn loop_appends_drops_retries_and_stops() {
    match decide(&Event::Datagram(b("2.5,4,1,2,3"))) {
        Action::Append(batch) => {
            assert_eq!(batch.timestamp, b("2.5"));
            assert_eq!(batch.sensors.len(), 1);
            assert_eq!(batch.sensors[0].sensor, 4);
        }
        other => panic!("{:?}", other),
    }
    assert!(matches!(decide(&Event::Datagram(b("2.5,4,1,2"))), Action::Drop));
    assert!(matches!(decide(&Event::Datagram(b(""))), Action::Drop));
    assert!(matches!(decide(&Event::Interrupted), Action::Retry));
    assert!(matches!(decide(&Event::Failed), Action::Stop));
}

#[test]
fn fields_after_the_fourth_are_ignored() {
    let parts = vec![b("9"), b("2"), b("3"), b("4"), b("not a number")];
    let reading = parse_sensordata(&parts).unwrap();
    assert_eq!(reading.sensor, 9);
    assert_eq!(reading.x, b("2"));
    assert_eq!(reading.y, b("3"));
    assert_eq!(reading.z, b("4"));
    let parts = vec![b("9"), b("2"), b("3"), b("x"), b("4")];
    assert!(parse_sensordata(&parts).is_none());
    let parts = vec![b("256"), b("2"), b("3"), b("4"), b("5"), b("6")];
    assert!(parse_sensordata(&parts).is_none());
}

#[test]
fn wide_whitespace_around_fields_does_not_count() {
    let plain = parse_sensor_batch(b"1.5,7,0.1,-0.2,3").unwrap();
    let padded =
        parse_sensor_batch("\u{a0}1.5\u{2003},7\u{a0},\u{3000}0.1,-0.2\u{85},\u{2028}3\u{205f}".as_bytes())
            .unwrap();
    assert_eq!(padded.timestamp, plain.timestamp);
    assert_eq!(padded.sensors[0].sensor, 7);
    assert_eq!(padded.sensors[0].x, plain.sensors[0].x);
    assert_eq!(padded.sensors[0].y, plain.sensors[0].y);
    assert_eq!(padded.sensors[0].z, plain.sensors[0].z);
    assert!(parse_sensor_batch("1.5,7\u{200b},0.1,0.2,3".as_bytes()).is_none());
    assert!(parse_sensor_batch("1.5,7,0\u{a0}.1,0.2,3".as_bytes()).is_none());
    for id in ["3\u{a0}", "\u{2003}3", "\u{1680}3\u{202f}"] {
        assert_eq!(parse_small_number(&trim(id.as_bytes())), id.trim().parse::<u8>().ok());
        assert_eq!(parse_small_number(&trim(id.as_bytes())), Some(3));
    }
}
