use roi_core::config::JsonConfig;
use roi_core::config_data::ConfigData;
use roi_core::json::{deserialize, serialize};
use roi_core::laws::round_trip;

fn boxed(x1: i64, y1: i64, x2: i64, y2: i64, name: &[u8]) -> JsonConfig {
    JsonConfig { x1, y1, x2, y2, name: name.to_vec() }
}

fn same_records(a: &[JsonConfig], b: &[JsonConfig]) -> bool {
    a.len() == b.len()
        && a.iter().zip(b.iter()).all(|(x, y)| {
            x.x1 == y.x1 && x.y1 == y.y1 && x.x2 == y.x2 && x.y2 == y.y2 && x.name == y.name
        })
}

#[test]
fn serialize_empty_list() {
    let out = serialize(&vec![]);
    assert_eq!(out, b"[]".to_vec());
}

#[test]
fn serialize_one_record_exact_bytes() {
    let cs = vec![boxed(200_000, 200_000, 800_000, 800_000, b"new_roi")];
    let out = serialize(&cs);
    assert_eq!(
        String::from_utf8(out).unwrap(),
        r#"[{"x1":0.200000,"y1":0.200000,"x2":0.800000,"y2":0.800000,"name":"new_roi"}]"#
    );
}

#[test]
fn serialize_negative_and_large_values() {
    let cs = vec![boxed(-1, -1_000_000, 2_500_000, 4_000_000_000_000, b"w")];
    let out = serialize(&cs);
    assert_eq!(
        String::from_utf8(out).unwrap(),
        r#"[{"x1":-0.000001,"y1":-1.000000,"x2":2.500000,"y2":4000000.000000,"name":"w"}]"#
    );
}

#[test]
fn serialize_escapes_quotes_and_backslashes() {
    let cs = vec![boxed(0, 0, 0, 0, b"a\"b\\c")];
    let out = serialize(&cs);
    assert_eq!(
        String::from_utf8(out).unwrap(),
        r#"[{"x1":0.000000,"y1":0.000000,"x2":0.000000,"y2":0.000000,"name":"a\"b\\c"}]"#
    );
}

#[test]
fn round_trip_empty() {
    let cs: Vec<JsonConfig> = vec![];
    let back = deserialize(&serialize(&cs)).unwrap();
    assert!(same_records(&cs, &back));
    assert!(same_records(&cs, &round_trip(&cs)));
}

#[test]
fn round_trip_many_records() {
    let cs = vec![
        boxed(0, 0, 1_000_000, 1_000_000, b"full"),
        boxed(200_000, 300_000, 400_000, 500_000, b""),
        boxed(-1, -999_999, 999_999, 1, b"tiny"),
        boxed(1, 2, 3, 4, b"a\"b\\c\\\"d"),
        boxed(-4_000_000_000_000, -1, 4_000_000_000_000, 0, b"extreme"),
    ];
    let back = deserialize(&serialize(&cs)).unwrap();
    assert!(same_records(&cs, &back));
    assert!(same_records(&cs, &round_trip(&cs)));
}

#[test]
fn round_trip_through_collection() {
    let mut cd = ConfigData::default();
    cd.config.push(boxed(100_000, 200_000, 300_000, 400_000, b"one"));
    cd.config.push(boxed(0, 0, 1, 1, b"two"));
    let bytes = cd.serialize();
    let back = deserialize(&bytes).unwrap();
    assert!(same_records(&cd.config, &back));
}

#[test]
fn deserialize_rejects_malformed_input() {
    assert!(deserialize(&b"".to_vec()).is_none());
    assert!(deserialize(&b"[".to_vec()).is_none());
    assert!(deserialize(&b"]".to_vec()).is_none());
    assert!(deserialize(&b"[]x".to_vec()).is_none());
    assert!(deserialize(&b"[,]".to_vec()).is_none());
    assert!(deserialize(&b"{}".to_vec()).is_none());
    // truncated record
    assert!(deserialize(&br#"[{"x1":0.200000"#.to_vec()).is_none());
    // unknown key order
    assert!(deserialize(
        &br#"[{"y1":0.200000,"x1":0.200000,"x2":0.800000,"y2":0.800000,"name":"a"}]"#.to_vec()
    )
    .is_none());
}

#[test]
fn deserialize_rejects_non_canonical_numbers() {
    // fewer than six fractional digits
    assert!(deserialize(
        &br#"[{"x1":0.2,"y1":0.200000,"x2":0.800000,"y2":0.800000,"name":"a"}]"#.to_vec()
    )
    .is_none());
    // leading zero in the integer part
    assert!(deserialize(
        &br#"[{"x1":00.200000,"y1":0.200000,"x2":0.800000,"y2":0.800000,"name":"a"}]"#.to_vec()
    )
    .is_none());
    // negative zero
    assert!(deserialize(
        &br#"[{"x1":-0.000000,"y1":0.200000,"x2":0.800000,"y2":0.800000,"name":"a"}]"#.to_vec()
    )
    .is_none());
    // out of range
    assert!(deserialize(
        &br#"[{"x1":4000000.000001,"y1":0.200000,"x2":0.800000,"y2":0.800000,"name":"a"}]"#
            .to_vec()
    )
    .is_none());
}

#[test]
fn deserialize_rejects_bad_escapes_and_separators() {
    assert!(deserialize(
        &br#"[{"x1":0.200000,"y1":0.200000,"x2":0.800000,"y2":0.800000,"name":"a\nb"}]"#.to_vec()
    )
    .is_none());
    // trailing comma
    assert!(deserialize(
        &br#"[{"x1":0.200000,"y1":0.200000,"x2":0.800000,"y2":0.800000,"name":"a"},]"#.to_vec()
    )
    .is_none());
}

#[test]
fn deserialize_accepts_two_records() {
    let mut text = r#"[{"x1":0.100000,"y1":0.200000,"x2":0.300000,"y2":0.400000,"name":"a"},"#
        .to_string();
    text += r#"{"x1":0.500000,"y1":0.600000,"x2":0.700000,"y2":0.800000,"name":"b"}]"#;
    let back = deserialize(&text.as_bytes().to_vec()).unwrap();
    assert_eq!(back.len(), 2);
    assert_eq!(back[0].x1, 100_000);
    assert_eq!(back[1].y2, 800_000);
    assert_eq!(back[0].name, b"a".to_vec());
    assert_eq!(back[1].name, b"b".to_vec());
}

#[test]
fn serialized_output_is_valid_json_for_serde() {
    let cs = vec![
        boxed(200_000, 200_000, 800_000, 800_000, b"plain"),
        boxed(-500_000, 0, 1_500_000, 1, b"q\"w\\e"),
    ];
    let out = serialize(&cs);
    let text = String::from_utf8(out).unwrap();
    let v: serde_json::Value = serde_json::from_str(&text).unwrap();
    let arr = v.as_array().unwrap();
    assert_eq!(arr.len(), 2);
    assert_eq!(arr[0]["x1"].as_f64().unwrap(), 0.2);
    assert_eq!(arr[0]["y2"].as_f64().unwrap(), 0.8);
    assert_eq!(arr[0]["name"].as_str().unwrap(), "plain");
    assert_eq!(arr[1]["x1"].as_f64().unwrap(), -0.5);
    assert_eq!(arr[1]["x2"].as_f64().unwrap(), 1.5);
    assert_eq!(arr[1]["y2"].as_f64().unwrap(), 0.000001);
    assert_eq!(arr[1]["name"].as_str().unwrap(), "q\"w\\e");
}
