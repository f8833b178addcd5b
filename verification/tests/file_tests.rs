use event_server::codec::encode_event;
use event_server::file_storage::decode_partition_lines;
use event_server::ClockInstant;
use event_server::Event;
use event_server::FileStorage;
use event_server::Timestamp;

fn sample_event() -> Event {
    Event {
        uuid: vec![1],
        account: vec![0x41],
        application: String::from("app1"),
        type_: String::from("login"),
        name: String::from("n1"),
        description: String::new(),
        timestamp: None,
        timezone: None,
        real_time: false,
        synced: None,
        additional: None,
    }
}

fn clock(seconds: i64, nanos: i32, year: i32, month: u8, day: u8) -> ClockInstant {
    ClockInstant { seconds, nanos, year, month, day }
}

#[test]
fn plan_add_names_partition_and_line() {
    let store = FileStorage::new(&String::from("root"));
    let e = sample_event();
    let plan = store.plan_add(&e, &clock(1700000000, 42, 2024, 3, 7));
    assert_eq!(plan.dir, "root/QQ==/app1/2024");
    assert_eq!(plan.file, "03-07.jsonl");
    assert_eq!(plan.stamped.synced, Some(Timestamp { seconds: 1700000000, nanos: 42 }));
    assert_eq!(plan.line, format!("{}\n", encode_event(&plan.stamped)));
    let mut expected = e.clone();
    expected.synced = plan.stamped.synced;
    assert_eq!(plan.stamped, expected);
}

#[test]
fn plan_line_decodes_to_stamped_event() {
    let store = FileStorage::new(&String::from("/var/data"));
    let plan = store.plan_add(&sample_event(), &clock(5, 6, 1999, 12, 31));
    assert_eq!(plan.dir, "/var/data/QQ==/app1/1999");
    assert_eq!(plan.file, "12-31.jsonl");
    let line = plan.line.strip_suffix('\n').unwrap();
    assert_eq!(
        event_server::codec::decode_event(line),
        Ok(plan.stamped.clone())
    );
}

#[test]
fn partition_dir_uses_base64_account() {
    let store = FileStorage::new(&String::from("root"));
    let dir = store.partition_dir(&vec![0x41], &String::from("app1"));
    assert_eq!(dir, "root/QQ==/app1");
}

#[test]
fn partition_dir_sanitizes_application() {
    let store = FileStorage::new(&String::from("root"));
    let dir = store.partition_dir(&vec![0x41], &String::from("a/b:c"));
    assert_eq!(dir, "root/QQ==/a-b-c");
}

#[test]
fn day_file_name_is_zero_padded() {
    let store = FileStorage::new(&String::from("r"));
    let plan = store.plan_add(&sample_event(), &clock(0, 0, 2030, 1, 2));
    assert_eq!(plan.file, "01-02.jsonl");
}

#[test]
fn decode_failure_does_not_abort_the_walk() {
    let store = FileStorage::new(&String::from("root"));
    let mut lines: Vec<String> = Vec::new();
    let mut events: Vec<Event> = Vec::new();
    for k in 0..3u8 {
        let mut e = sample_event();
        e.uuid = vec![k];
        let plan = store.plan_add(&e, &clock(10 + i64::from(k), 0, 2024, 1, 1));
        lines.push(String::from(plan.line.strip_suffix('\n').unwrap()));
        events.push(plan.stamped);
    }
    lines.insert(2, String::from("{ this line is corrupt"));

    let items = decode_partition_lines(&lines);
    assert_eq!(items.len(), 4);
    assert_eq!(items[0].as_ref().unwrap(), &events[0]);
    assert_eq!(items[1].as_ref().unwrap(), &events[1]);
    let err = items[2].as_ref().unwrap_err();
    assert_eq!(err.code, 500);
    assert_eq!(err.message, "Internal server error");
    assert_eq!(items[3].as_ref().unwrap(), &events[2]);
}

#[test]
fn missing_partition_error_shape() {
    let err = event_server::event::no_data_found();
    assert_eq!(err.code, 404);
    assert_eq!(
        err.message,
        "No data found (account, application, or credentials are invalid)"
    );
}
