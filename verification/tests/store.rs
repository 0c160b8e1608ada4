use subscriber::codec::Encoding;
use subscriber::instant::Instant;
use subscriber::series::Reading;
use subscriber::store::{
    create_statement, insert_statement, select_statement, StoreError, TimeSeriesStore,
};
use subscriber::topic::{AllowList, StorageKey};

fn at(secs: i64) -> Instant {
    Instant::from_unix_seconds(secs)
}

fn key(subtopic: &str) -> StorageKey {
    StorageKey::from_subtopic(subtopic.as_bytes()).unwrap()
}

#[test]
fn a_new_store_has_no_series() {
    let store = TimeSeriesStore::new();
    assert!(!store.has_series(&key("a")));
    assert_eq!(store.range_query(&key("a"), at(0), at(1)), Err(StoreError::Statement));
}

#[test]
fn ensure_series_is_idempotent() {
    let mut store = TimeSeriesStore::new();
    store.ensure_series(&key("sensor/a"));
    assert!(store.has_series(&key("sensor/a")));
    assert!(store.has_series(&key("sensor_a")));
    assert!(!store.has_series(&key("sensor/b")));
    assert_eq!(store.append(&key("sensor/a"), at(5), 1), Ok(()));
    store.ensure_series(&key("sensor/a"));
    assert_eq!(
        store.range_query(&key("sensor/a"), at(0), at(10)),
        Ok(vec![Reading { timestamp: at(5), value: 1 }])
    );
}

#[test]
fn append_to_a_series_that_was_never_made_fails() {
    let mut store = TimeSeriesStore::new();
    store.ensure_series(&key("a"));
    assert_eq!(store.append(&key("b"), at(5), 1), Err(StoreError::Statement));
    assert!(!store.has_series(&key("b")));
    assert_eq!(store.range_query(&key("a"), at(0), at(10)), Ok(vec![]));
}

#[test]
fn series_are_kept_apart() {
    let mut store = TimeSeriesStore::new();
    store.ensure_series(&key("a"));
    store.ensure_series(&key("b"));
    assert_eq!(store.append(&key("a"), at(5), 1), Ok(()));
    assert_eq!(store.append(&key("b"), at(5), 2), Ok(()));
    assert_eq!(store.append(&key("b"), at(3), 3), Ok(()));
    assert_eq!(store.append(&key("a"), at(5), 4), Err(StoreError::Conflict));
    assert_eq!(
        store.range_query(&key("a"), at(0), at(10)),
        Ok(vec![Reading { timestamp: at(5), value: 1 }])
    );
    assert_eq!(
        store.range_query(&key("b"), at(0), at(10)),
        Ok(vec![Reading { timestamp: at(3), value: 3 }, Reading { timestamp: at(5), value: 2 }])
    );
}

#[test]
fn ensure_all_makes_a_series_for_every_listed_subtopic() {
    let topics = AllowList::from_config("a,b/c", Encoding::Text).unwrap();
    let mut store = TimeSeriesStore::new();
    store.ensure_series(&key("a"));
    store.append(&key("a"), at(1), 7).unwrap();
    store.ensure_all(&topics);
    assert!(store.has_series(&key("a")));
    assert!(store.has_series(&key("b/c")));
    assert!(!store.has_series(&key("b")));
    assert_eq!(
        store.range_query(&key("a"), at(0), at(10)),
        Ok(vec![Reading { timestamp: at(1), value: 7 }])
    );
    assert_eq!(store.range_query(&key("b/c"), at(0), at(10)), Ok(vec![]));
}

#[test]
fn statements_name_the_storage_key() {
    let key = key("noise/decibels");
    assert_eq!(
        create_statement(&key),
        "CREATE TABLE IF NOT EXISTS noise_decibels (unix_time TEXT PRIMARY KEY, reading BLOB NOT NULL)"
    );
    assert_eq!(
        insert_statement(&key),
        "INSERT INTO noise_decibels (unix_time, reading) VALUES (?1, ?2)"
    );
    assert_eq!(
        select_statement(&key),
        "SELECT unix_time, reading FROM noise_decibels WHERE datetime(unix_time) BETWEEN datetime(?1) AND datetime(?2) ORDER BY unix_time"
    );
}
