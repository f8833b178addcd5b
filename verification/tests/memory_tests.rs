use event_server::EventStorage;
use event_server::Event;
use event_server::EventsFilter;
use event_server::MemoryStorage;
use event_server::MyServer;
use event_server::Timestamp;

fn event_for(account: &[u8], application: &str, type_: &str, name: &str) -> Event {
    Event {
        uuid: vec![1],
        account: account.to_vec(),
        application: String::from(application),
        type_: String::from(type_),
        name: String::from(name),
        description: String::new(),
        timestamp: None,
        timezone: None,
        real_time: false,
        synced: None,
        additional: None,
    }
}

fn filter_for(account: &[u8], application: &str) -> EventsFilter {
    EventsFilter {
        account: account.to_vec(),
        application: String::from(application),
        type_: String::new(),
        name: String::new(),
        since: None,
    }
}

#[test]
fn add_stamps_synced_and_get_returns_it() {
    let mut store = MemoryStorage::new();
    let e = event_for(b"A", "app1", "login", "n1");
    let stored = store.add(e.clone()).unwrap();
    assert!(stored.synced.is_some());
    assert_eq!(stored.uuid, e.uuid);
    assert_eq!(stored.account, e.account);
    assert_eq!(stored.application, e.application);
    assert_eq!(stored.type_, e.type_);
    assert_eq!(stored.name, e.name);
    assert_eq!(stored.description, e.description);
    assert_eq!(stored.timestamp, e.timestamp);
    assert_eq!(stored.timezone, e.timezone);
    assert_eq!(stored.real_time, e.real_time);
    assert_eq!(stored.additional, e.additional);
    let items = store.get(&filter_for(b"A", "app1"));
    assert_eq!(items.len(), 1);
    assert_eq!(items[0].as_ref().unwrap(), &stored);
}

#[test]
fn missing_account_yields_single_not_found() {
    let store = MemoryStorage::new();
    let items = store.get(&filter_for(b"nobody", "app1"));
    assert_eq!(items.len(), 1);
    let err = items[0].as_ref().unwrap_err();
    assert_eq!(err.code, 404);
    assert_eq!(err.message, "Account not found");
}

#[test]
fn missing_application_yields_single_not_found() {
    let mut store = MemoryStorage::new();
    store.add(event_for(b"A", "app1", "t", "n")).unwrap();
    let items = store.get(&filter_for(b"A", "other"));
    assert_eq!(items.len(), 1);
    let err = items[0].as_ref().unwrap_err();
    assert_eq!(err.code, 404);
    assert_eq!(err.message, "Application not found");
}

#[test]
fn insertion_order_is_preserved() {
    let mut store = MemoryStorage::new();
    for k in 0..5u8 {
        let mut e = event_for(b"A", "app1", "t", "n");
        e.uuid = vec![k];
        store
            .add_at(e, Timestamp { seconds: 100 + i64::from(k), nanos: 0 })
            .unwrap();
    }
    let items = store.get(&filter_for(b"A", "app1"));
    assert_eq!(items.len(), 5);
    for (k, it) in items.iter().enumerate() {
        assert_eq!(it.as_ref().unwrap().uuid, vec![k as u8]);
    }
}

#[test]
fn partition_isolation() {
    let mut store = MemoryStorage::new();
    store.add(event_for(b"A", "appX", "t", "n")).unwrap();
    store.add(event_for(b"B", "appX", "t", "n")).unwrap();
    store.add(event_for(b"A", "appY", "t", "n")).unwrap();

    let ax = store.get(&filter_for(b"A", "appX"));
    assert_eq!(ax.len(), 1);
    assert_eq!(ax[0].as_ref().unwrap().account, b"A".to_vec());
    assert_eq!(ax[0].as_ref().unwrap().application, "appX");

    let bx = store.get(&filter_for(b"B", "appX"));
    assert_eq!(bx.len(), 1);
    assert_eq!(bx[0].as_ref().unwrap().account, b"B".to_vec());

    let items = store.get(&filter_for(b"B", "appY"));
    assert_eq!(items.len(), 1);
    assert_eq!(items[0].as_ref().unwrap_err().code, 404);
}

#[test]
fn since_filter_is_exclusive_lower_bound() {
    let mut store = MemoryStorage::new();
    let stamps = [(1, 0), (2, 0), (2, 5), (3, 0)];
    for (k, (sec, nan)) in stamps.iter().enumerate() {
        let mut e = event_for(b"A", "app1", "t", "n");
        e.uuid = vec![k as u8];
        store
            .add_at(e, Timestamp { seconds: *sec, nanos: *nan })
            .unwrap();
    }
    let mut f = filter_for(b"A", "app1");
    f.since = Some(Timestamp { seconds: 2, nanos: 0 });
    let items = store.get(&f);
    assert_eq!(items.len(), 2);
    assert_eq!(items[0].as_ref().unwrap().uuid, vec![2]);
    assert_eq!(items[1].as_ref().unwrap().uuid, vec![3]);
}

#[test]
fn type_and_name_filters_are_exact_matches() {
    let mut store = MemoryStorage::new();
    store.add(event_for(b"A", "app1", "login", "n1")).unwrap();
    store.add(event_for(b"A", "app1", "logout", "n1")).unwrap();
    store.add(event_for(b"A", "app1", "login", "n2")).unwrap();

    let mut f = filter_for(b"A", "app1");
    f.type_ = String::from("login");
    let items = store.get(&f);
    assert_eq!(items.len(), 2);
    for it in &items {
        assert_eq!(it.as_ref().unwrap().type_, "login");
    }

    f.name = String::from("n2");
    let items = store.get(&f);
    assert_eq!(items.len(), 1);
    assert_eq!(items[0].as_ref().unwrap().name, "n2");

    f.type_ = String::new();
    f.name = String::from("n1");
    let items = store.get(&f);
    assert_eq!(items.len(), 2);
}

#[test]
fn unimplemented_backend_reports_501() {
    let server = MyServer::default();
    assert_eq!(server.push_events().code, 501);
    assert_eq!(server.get_events().code, 501);
    assert_eq!(server.watch_events().code, 501);
    assert_eq!(server.get_events().message, "Not Implemented");

    let mut abstract_backend = MyServer::default();
    let r = EventStorage::add(&mut abstract_backend, event_for(b"A", "app1", "t", "n"));
    assert_eq!(r.unwrap_err().code, 501);
    let items = EventStorage::get(&abstract_backend, &filter_for(b"A", "app1"));
    assert_eq!(items.len(), 1);
    assert_eq!(items[0].as_ref().unwrap_err().code, 501);
}

#[test]
fn storage_capability_dispatches_to_memory_store() {
    let mut store = MemoryStorage::default();
    let r = EventStorage::add(&mut store, event_for(b"A", "app1", "t", "n"));
    assert!(r.unwrap().synced.is_some());
    let items = EventStorage::get(&store, &filter_for(b"A", "app1"));
    assert_eq!(items.len(), 1);
    assert!(items[0].is_ok());
}
