use pingmon::{decode_json, render, render_json, Format, Sample};

#[test]
fn human_format_exact() {
    let s = Sample::new(1700000000123456, 12345678);
    assert_eq!(render(Format::Human, &s), "1700000000.123456: 12.345678 ms");
}

#[test]
fn csv_format_exact() {
    let s = Sample::new(1700000000123456, 12345678);
    assert_eq!(render(Format::Csv, &s), "1700000000.123456,12.345678");
}

#[test]
fn csv_whole_rtt_drops_point() {
    let s = Sample::new(1700000000123456, 12000000);
    assert_eq!(render(Format::Csv, &s), "1700000000.123456,12");
}

#[test]
fn csv_trailing_zeros_trimmed() {
    let s = Sample::new(1700000000000000, 12340000);
    assert_eq!(render(Format::Csv, &s), "1700000000.000000,12.34");
}

#[test]
fn human_pads_fraction() {
    let s = Sample::new(1700000000000001, 5);
    assert_eq!(render(Format::Human, &s), "1700000000.000001: 0.000005 ms");
}

#[test]
fn zero_timestamp_renders() {
    let s = Sample::new(0, 0);
    assert_eq!(render(Format::Human, &s), "0.000000: 0.000000 ms");
}

#[test]
fn json_format_exact() {
    let s = Sample::new(1700000000123456, 12345678);
    assert_eq!(
        render(Format::Json, &s),
        "{\"timestamp\":1700000000.123456,\"rtt\":12.345678}"
    );
}

#[test]
fn json_whole_values_keep_zero() {
    let s = Sample::new(1700000000000000, 12000000);
    assert_eq!(
        render_json(&s),
        "{\"timestamp\":1700000000.0,\"rtt\":12.0}"
    );
}

#[test]
fn json_round_trip_decode() {
    let s = Sample::new(1700000000123456, 12345678);
    let line = render_json(&s);
    assert_eq!(decode_json(&line), Some(s));
}

#[test]
fn json_round_trip_whole_values() {
    let s = Sample::new(1700000000000000, 12000000);
    assert_eq!(decode_json(&render_json(&s)), Some(s));
}

#[test]
fn json_round_trip_max_values() {
    let s = Sample::new(u64::MAX, u64::MAX);
    assert_eq!(decode_json(&render_json(&s)), Some(s));
}

#[test]
fn json_round_trip_via_serde() {
    let s = Sample::new(1700000000123456, 12345678);
    let line = render_json(&s);
    let v: serde_json::Value = serde_json::from_str(&line).unwrap();
    let ts = v["timestamp"].as_f64().unwrap();
    let rtt = v["rtt"].as_f64().unwrap();
    assert!((ts - 1700000000.123456).abs() < 1e-6);
    assert!((rtt - 12.345678).abs() < 1e-9);
}

#[test]
fn json_decode_rejects_malformed() {
    assert_eq!(decode_json(""), None);
    assert_eq!(decode_json("{\"timestamp\":1.0}"), None);
    assert_eq!(decode_json("{\"time\":1.0,\"rtt\":2.0}"), None);
    assert_eq!(decode_json("{\"timestamp\":1.0,\"rtt\":2.0"), None);
    assert_eq!(decode_json("{\"timestamp\":1.x,\"rtt\":2.0}"), None);
    assert_eq!(decode_json("{\"timestamp\":1,\"rtt\":2}"), None);
    assert_eq!(decode_json("{\"timestamp\":.5,\"rtt\":2.0}"), None);
    assert_eq!(decode_json("{\"timestamp\":1.1234567,\"rtt\":2.0}"), None);
}

#[test]
fn json_decode_overflow_is_none() {
    let line = "{\"timestamp\":99999999999999999999.0,\"rtt\":1.0}";
    assert_eq!(decode_json(line), None);
}

#[test]
fn format_from_name_selects() {
    assert_eq!(Format::from_name("human"), Some(Format::Human));
    assert_eq!(Format::from_name("csv"), Some(Format::Csv));
    assert_eq!(Format::from_name("json"), Some(Format::Json));
    assert_eq!(Format::from_name("xml"), None);
    assert_eq!(Format::from_name("Human"), None);
    assert_eq!(Format::from_name(""), None);
}
