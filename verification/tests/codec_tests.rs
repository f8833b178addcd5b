use event_server::codec::decode_event;
use event_server::codec::encode_decode_round_trip;
use event_server::codec::encode_event;
use event_server::Additional;
use event_server::Event;
use event_server::Timestamp;
use event_server::Timezone;

fn base_event() -> Event {
    Event {
        uuid: vec![1],
        account: vec![0x41],
        application: String::from("app1"),
        type_: String::from("login"),
        name: String::from("n1"),
        description: String::new(),
        timestamp: None,
        timezone: None,
        real_time: false,
        synced: None,
        additional: None,
    }
}

#[test]
fn encode_concrete_event() {
    let line = encode_event(&base_event());
    assert_eq!(
        line,
        "{\"uuid\":\"AQ==\",\"account\":\"QQ==\",\"application\":\"app1\",\"type\":\"login\",\
         \"name\":\"n1\",\"description\":\"\",\"timestamp\":null,\"timezone\":null,\
         \"real_time\":false,\"synced\":null,\"additional\":null}"
    );
}

#[test]
fn round_trip_all_absent() {
    let e = base_event();
    let line = encode_event(&e);
    assert_eq!(decode_event(&line), Ok(e));
}

#[test]
fn round_trip_full_event() {
    let e = Event {
        uuid: vec![0, 1, 2, 250],
        account: vec![9, 8, 7],
        application: String::from("my app"),
        type_: String::from("t"),
        name: String::from("n"),
        description: String::from("something happened"),
        timestamp: Some(Timestamp { seconds: 1700000000, nanos: 123456789 }),
        timezone: Some(Timezone { name: String::from("Europe/Berlin"), offset: 3600 }),
        real_time: true,
        synced: Some(Timestamp { seconds: -5, nanos: 17 }),
        additional: Some(Additional::Str(String::from("hello"))),
    };
    assert_eq!(decode_event(&encode_event(&e)), Ok(e));
}

#[test]
fn round_trip_bytes_variant() {
    let mut e = base_event();
    e.additional = Some(Additional::Bytes(vec![0, 255, 128, 7]));
    let out = encode_decode_round_trip(&e);
    assert_eq!(out, e);
}

#[test]
fn round_trip_str_variant() {
    let mut e = base_event();
    e.additional = Some(Additional::Str(String::from("line one\nline two\t\"quoted\"\\end")));
    let out = encode_decode_round_trip(&e);
    assert_eq!(out, e);
}

#[test]
fn round_trip_yaml_variant() {
    let mut e = base_event();
    e.additional = Some(Additional::Yaml(String::from("key: value\nlist:\n  - a\n")));
    let out = encode_decode_round_trip(&e);
    assert_eq!(out, e);
}

#[test]
fn round_trip_control_and_unicode() {
    let mut e = base_event();
    e.name = String::from("\u{1}\u{7}\u{1f} caf\u{e9} \u{1f600}");
    e.description = String::from("tab\tquote\"backslash\\newline\nreturn\rbell\u{8}form\u{c}");
    assert_eq!(decode_event(&encode_event(&e)), Ok(e));
}

#[test]
fn round_trip_extreme_numbers() {
    let mut e = base_event();
    e.timestamp = Some(Timestamp { seconds: i64::MIN, nanos: i32::MIN });
    e.synced = Some(Timestamp { seconds: i64::MAX, nanos: i32::MAX });
    e.timezone = Some(Timezone { name: String::new(), offset: -1 });
    assert_eq!(decode_event(&encode_event(&e)), Ok(e));
}

#[test]
fn encode_escapes_control_characters() {
    let mut e = base_event();
    e.name = String::from("a\nb\u{1}c");
    let line = encode_event(&e);
    assert!(line.contains("\"name\":\"a\\nb\\u0001c\""));
    assert!(!line.contains('\n'));
}

#[test]
fn encode_timestamp_array_form() {
    let mut e = base_event();
    e.timestamp = Some(Timestamp { seconds: -7, nanos: 20 });
    let line = encode_event(&e);
    assert!(line.contains("\"timestamp\":[-7,20]"));
}

#[test]
fn encode_timezone_object_form() {
    let mut e = base_event();
    e.timezone = Some(Timezone { name: String::from("UTC"), offset: 0 });
    let line = encode_event(&e);
    assert!(line.contains("\"timezone\":{\"name\":\"UTC\",\"offset\":0}"));
}

#[test]
fn encode_matches_json_library_output() {
    let e = Event {
        uuid: vec![1, 2],
        account: vec![0x41, 0x42],
        application: String::from("app \"x\""),
        type_: String::from("t\\y"),
        name: String::from("n\u{3}"),
        description: String::from("d"),
        timestamp: Some(Timestamp { seconds: 12, nanos: 34 }),
        timezone: Some(Timezone { name: String::from("Z"), offset: -60 }),
        real_time: true,
        synced: Some(Timestamp { seconds: 0, nanos: 0 }),
        additional: Some(Additional::Str(String::from("extra"))),
    };
    let mut obj = json::JsonValue::new_object();
    obj["uuid"] = json::JsonValue::from(base64::encode(&e.uuid));
    obj["account"] = json::JsonValue::from(base64::encode(&e.account));
    obj["application"] = json::JsonValue::from(e.application.clone());
    obj["type"] = json::JsonValue::from(e.type_.clone());
    obj["name"] = json::JsonValue::from(e.name.clone());
    obj["description"] = json::JsonValue::from(e.description.clone());
    obj["timestamp"] = json::JsonValue::from(vec![
        json::JsonValue::from(12i64),
        json::JsonValue::from(34i32),
    ]);
    let mut tz = json::JsonValue::new_object();
    tz["name"] = json::JsonValue::from("Z");
    tz["offset"] = json::JsonValue::from(-60i32);
    obj["timezone"] = tz;
    obj["real_time"] = json::JsonValue::from(true);
    obj["synced"] = json::JsonValue::from(vec![
        json::JsonValue::from(0i64),
        json::JsonValue::from(0i32),
    ]);
    let mut add = json::JsonValue::new_object();
    add["str"] = json::JsonValue::from("extra");
    obj["additional"] = add;
    assert_eq!(encode_event(&e), json::stringify(obj));
}

#[test]
fn encoded_line_parses_as_json() {
    let mut e = base_event();
    e.additional = Some(Additional::Bytes(vec![5, 6]));
    e.timestamp = Some(Timestamp { seconds: 1, nanos: 2 });
    assert!(json::parse(&encode_event(&e)).is_ok());
}

#[test]
fn decode_rejects_malformed_lines() {
    for bad in [
        "",
        "{}",
        "not json at all",
        "{\"uuid\":\"####\",\"account\":\"QQ==\"}",
        "{\"uuid\":\"AQ==\",\"account\":\"QQ==\",\"application\":\"app1\",\"type\":\"login\",\
         \"name\":\"n1\",\"description\":\"\",\"timestamp\":[01,0],\"timezone\":null,\
         \"real_time\":false,\"synced\":null,\"additional\":null}",
        "{\"uuid\":\"AQ==\",\"account\":\"QQ==\",\"application\":\"app1\",\"type\":\"login\",\
         \"name\":\"n1\",\"description\":\"\",\"timestamp\":null,\"timezone\":null,\
         \"real_time\":false,\"synced\":null,\"additional\":null}trailing",
    ] {
        let r = decode_event(bad);
        assert!(r.is_err(), "accepted: {bad}");
        let err = r.unwrap_err();
        assert_eq!(err.code, 500);
        assert_eq!(err.message, "Internal server error");
    }
}

#[test]
fn decode_rejects_noncanonical_base64() {
    let good = "{\"uuid\":\"AQ==\",\"account\":\"QQ==\",\"application\":\"app1\",\"type\":\"login\",\
         \"name\":\"n1\",\"description\":\"\",\"timestamp\":null,\"timezone\":null,\
         \"real_time\":false,\"synced\":null,\"additional\":null}";
    assert!(decode_event(good).is_ok());
    let bad = good.replace("AQ==", "AR==");
    assert!(decode_event(&bad).is_err());
}

#[test]
fn timestamp_is_after_ordering() {
    let a = Timestamp { seconds: 2, nanos: 0 };
    let b = Timestamp { seconds: 1, nanos: 999 };
    let c = Timestamp { seconds: 2, nanos: 1 };
    assert!(a.is_after(&b));
    assert!(!b.is_after(&a));
    assert!(c.is_after(&a));
    assert!(!a.is_after(&a));
}
